//! Spans of time, in whole nanoseconds.

use crate::text::{zero_padded, zero_padded_text};
use vstd::prelude::*;

verus! {

/// The nanoseconds of a second.
pub const NANOS_PER_SEC: u32 = 1_000_000_000;

/// The longest span in nanoseconds: all seconds of a `u64` and one second less a nanosecond.
pub open spec fn max_nanos() -> nat {
    (u64::MAX * NANOS_PER_SEC + NANOS_PER_SEC - 1) as nat
}

/// A span of time: whole seconds and the nanoseconds of one more second.
#[derive(Clone, Copy, Debug, PartialEq, Eq, Structural)]
pub struct Duration {
    pub secs: u64,
    pub nanos: u32,
}

impl View for Duration {
    type V = nat;

    /// The length in nanoseconds.
    open spec fn view(&self) -> nat {
        (self.secs * NANOS_PER_SEC + self.nanos) as nat
    }
}

/// A length in nanoseconds as hours, minutes and seconds.
pub open spec fn clock(nanos: nat) -> Seq<char> {
    let secs = nanos / (NANOS_PER_SEC as nat);
    zero_padded(secs / 3600, 2) + seq![':'] + zero_padded(secs / 60 % 60, 2) + seq![':']
        + zero_padded(secs % 60, 2)
}

/// A span is given by its length.
pub proof fn law_duration_unique(a: Duration, b: Duration)
    requires
        a.wf(),
        b.wf(),
        a@ == b@,
    ensures
        a == b,
{
}

/// The seconds of a span are its length over a second, rounded down.
pub proof fn lemma_whole_secs(a: Duration)
    requires
        a.wf(),
    ensures
        a.secs == a@ / (NANOS_PER_SEC as nat),
        a@ <= max_nanos(),
{
}

impl Duration {
    /// The nanoseconds make less than a second.
    pub open spec fn wf(&self) -> bool {
        self.nanos < NANOS_PER_SEC
    }

    /// `secs` seconds and `nanos` nanoseconds.
    pub fn new(secs: u64, nanos: u32) -> (r: Duration)
        requires
            nanos < NANOS_PER_SEC,
        ensures
            r.wf(),
            r@ == secs * NANOS_PER_SEC + nanos,
    {
        Duration { secs, nanos }
    }

    /// `secs` seconds.
    pub fn from_secs(secs: u64) -> (r: Duration)
        ensures
            r.wf(),
            r@ == secs * NANOS_PER_SEC,
    {
        Duration { secs, nanos: 0 }
    }

    /// The whole seconds of the span.
    pub fn as_secs(&self) -> (r: u64)
        requires
            self.wf(),
        ensures
            r == self@ / (NANOS_PER_SEC as nat),
    {
        self.secs
    }

    /// Whether the span is longer than `other`.
    pub fn longer_than(&self, other: &Duration) -> (r: bool)
        requires
            self.wf(),
            other.wf(),
        ensures
            r == (self@ > other@),
    {
        self.secs > other.secs || (self.secs == other.secs && self.nanos > other.nanos)
    }

    /// The span of `total` nanoseconds.
    fn from_nanos(total: u128) -> (r: Duration)
        requires
            total <= max_nanos(),
        ensures
            r.wf(),
            r@ == total,
    {
        let secs: u64 = (total / 1_000_000_000) as u64;
        let nanos: u32 = (total % 1_000_000_000) as u32;
        Duration { secs, nanos }
    }

    /// The length in nanoseconds.
    fn total(&self) -> (r: u128)
        requires
            self.wf(),
        ensures
            r == self@,
            r <= max_nanos(),
    {
        self.secs as u128 * 1_000_000_000 + self.nanos as u128
    }

    /// The sum of both spans, if there is one.
    pub fn checked_add(&self, other: &Duration) -> (r: Option<Duration>)
        requires
            self.wf(),
            other.wf(),
        ensures
            r is Some <==> self@ + other@ <= max_nanos(),
            r matches Some(d) ==> d.wf() && d@ == self@ + other@,
    {
        let sum: u128 = self.total() + other.total();
        if sum <= u64::MAX as u128 * 1_000_000_000 + 999_999_999 {
            Some(Duration::from_nanos(sum))
        } else {
            None
        }
    }

    /// What is left of the span without `other`, if it is not shorter than `other`.
    pub fn checked_sub(&self, other: &Duration) -> (r: Option<Duration>)
        requires
            self.wf(),
            other.wf(),
        ensures
            r is Some <==> self@ >= other@,
            r matches Some(d) ==> d.wf() && d@ == self@ - other@,
    {
        let a: u128 = self.total();
        let b: u128 = other.total();
        if a >= b {
            Some(Duration::from_nanos(a - b))
        } else {
            None
        }
    }

    /// `factor` times the span, if there is such a span.
    pub fn checked_mul(&self, factor: u32) -> (r: Option<Duration>)
        requires
            self.wf(),
        ensures
            r is Some <==> self@ * factor <= max_nanos(),
            r matches Some(d) ==> d.wf() && d@ == self@ * factor,
    {
        let a: u128 = self.total();
        proof {
            assert(a * factor <= 0x4000_0000_0000_0000_0000_0000 * 0x1_0000_0000)
                by (nonlinear_arith)
                requires
                    a <= 0x4000_0000_0000_0000_0000_0000,
                    factor <= 0x1_0000_0000,
            ;
        }
        let product: u128 = a * factor as u128;
        if product <= u64::MAX as u128 * 1_000_000_000 + 999_999_999 {
            Some(Duration::from_nanos(product))
        } else {
            None
        }
    }

    /// One of `parts` equal parts of the span, rounded down to a nanosecond.
    pub fn divided(&self, parts: u32) -> (r: Duration)
        requires
            self.wf(),
            parts > 0,
        ensures
            r.wf(),
            r@ == self@ / (parts as nat),
    {
        let a: u128 = self.total();
        proof {
            assert(0 <= a / parts as u128 <= a) by (nonlinear_arith)
                requires
                    parts > 0,
                    a >= 0,
            ;
        }
        Duration::from_nanos(a / parts as u128)
    }

    /// The span as hours, minutes and seconds.
    pub fn clock_text(&self) -> (r: String)
        requires
            self.wf(),
        ensures
            r@ == clock(self@),
    {
        let seconds: u64 = self.secs % 60;
        let minutes: u64 = self.secs / 60 % 60;
        let hours: u64 = self.secs / 3600;
        proof {
            lemma_whole_secs(*self);
            reveal_strlit(":");
            assert(":"@ =~= seq![':']);
        }
        zero_padded_text(hours, 2).concat(":").concat(zero_padded_text(minutes, 2).as_str()).concat(
            ":",
        ).concat(zero_padded_text(seconds, 2).as_str())
    }
}

/// Splitting a span into equal parts loses less than a nanosecond per part.
pub proof fn lemma_parts(length: nat, parts: nat)
    requires
        parts > 0,
    ensures
        length - parts < parts * (length / parts) <= length,
{
    vstd::arithmetic::div_mod::lemma_fundamental_div_mod(length as int, parts as int);
    assert(0 <= length % parts < parts) by (nonlinear_arith)
        requires
            parts > 0,
    ;
}

/// A clock shows hours, minutes and seconds that are together as long as the whole seconds of a
/// span, with less than sixty minutes and less than sixty seconds, and two digits of each or more.
pub proof fn law_clock(nanos: nat, hours: nat, minutes: nat, secs: nat)
    requires
        nanos / 1_000_000_000 == hours * 3600 + minutes * 60 + secs,
        minutes < 60,
        secs < 60,
    ensures
        clock(nanos) == zero_padded(hours, 2) + seq![':'] + zero_padded(minutes, 2) + seq![':']
            + zero_padded(secs, 2),
{
    let total = nanos / 1_000_000_000;
    assert(total % 60 == secs);
    assert(total / 60 == hours * 60 + minutes);
    assert(total / 60 % 60 == minutes);
    assert(total / 3600 == hours);
    assert(clock(nanos) =~= zero_padded(hours, 2) + seq![':'] + zero_padded(minutes, 2) + seq![
        ':',
    ] + zero_padded(secs, 2));
}

/// A span is as long as its whole seconds and its nanoseconds together.
pub proof fn law_span_length(span: Duration)
    ensures
        span@ == span.secs * 1_000_000_000 + span.nanos,
        max_nanos() == u64::MAX * 1_000_000_000 + 999_999_999,
{
}

} // verus!
