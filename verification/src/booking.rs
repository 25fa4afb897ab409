//! Bookings: how long was worked on what, and how long is to be booked.

use crate::booker::{issue_models, unique_keys, Entry, IssueModel};
use crate::calendar::{Date, MAX_DELTA_NANOS, MAX_DELTA_SECS};
use crate::duration::{lemma_whole_secs, max_nanos, Duration, NANOS_PER_SEC};
use crate::entries::Facet;
use crate::stateful_list::{ListState, StatefulList};
use crate::text::{
    lemma_precedes_irreflexive, lemma_precedes_total, lemma_precedes_transitive, precedes,
    text_precedes,
};
use vstd::prelude::*;

verus! {

/// What was worked on: an issue, or a side of the device of which it may be known that time on
/// it is not booked.
#[derive(Debug)]
pub enum BookingType {
    Jira(String),
    Unknown(Facet, bool),
}

/// What was worked on, by the text of the issue or the number of the side.
pub enum BookingKey {
    Jira(Seq<char>),
    Unknown(u8, bool),
}

impl View for BookingType {
    type V = BookingKey;

    open spec fn view(&self) -> BookingKey {
        match self {
            BookingType::Jira(issue) => BookingKey::Jira(issue@),
            BookingType::Unknown(facet, bookable) => BookingKey::Unknown(facet.index, *bookable),
        }
    }
}

impl BookingKey {
    /// Whether time can be booked on it.
    pub open spec fn bookable(&self) -> bool {
        match self {
            BookingKey::Jira(_) => true,
            BookingKey::Unknown(_, bookable) => *bookable,
        }
    }

    /// The order of bookings: issues first, by their key, then the sides, by their number.
    pub open spec fn before(&self, other: BookingKey) -> bool {
        match (*self, other) {
            (BookingKey::Jira(a), BookingKey::Jira(b)) => precedes(a, b),
            (BookingKey::Jira(_), BookingKey::Unknown(_, _)) => true,
            (BookingKey::Unknown(_, _), BookingKey::Jira(_)) => false,
            (BookingKey::Unknown(f, x), BookingKey::Unknown(g, y)) => f < g || f == g && !x && y,
        }
    }
}

/// The order of bookings is a strict order of all of them.
pub proof fn lemma_key_order(a: BookingKey, b: BookingKey, c: BookingKey)
    ensures
        !a.before(a),
        a.before(b) && b.before(c) ==> a.before(c),
        a == b || a.before(b) || b.before(a),
        !(a.before(b) && b.before(a)),
{
    if let (BookingKey::Jira(x), BookingKey::Jira(y)) = (a, b) {
        lemma_precedes_irreflexive(x);
        lemma_precedes_total(x, y);
        if precedes(x, y) && precedes(y, x) {
            lemma_precedes_transitive(x, y, x);
        }
        if let BookingKey::Jira(z) = c {
            if precedes(x, y) && precedes(y, z) {
                lemma_precedes_transitive(x, y, z);
            }
        }
    } else if let BookingKey::Jira(x) = a {
        lemma_precedes_irreflexive(x);
    }
}

impl BookingType {
    /// Whether time can be booked on it.
    pub fn bookable(&self) -> (r: bool)
        ensures
            r == self@.bookable(),
    {
        match self {
            BookingType::Jira(_) => true,
            BookingType::Unknown(_, bookable) => *bookable,
        }
    }

    /// A copy of this.
    pub fn copy(&self) -> (r: BookingType)
        ensures
            r@ == self@,
    {
        match self {
            BookingType::Jira(issue) => BookingType::Jira(issue.clone()),
            BookingType::Unknown(facet, bookable) => BookingType::Unknown(*facet, *bookable),
        }
    }

    /// Whether this comes before `other` in the order of bookings.
    pub fn is_before(&self, other: &BookingType) -> (r: bool)
        ensures
            r == self@.before(other@),
    {
        match self {
            BookingType::Jira(a) => match other {
                BookingType::Jira(b) => text_precedes(a.as_str(), b.as_str()),
                BookingType::Unknown(_, _) => true,
            },
            BookingType::Unknown(f, x) => match other {
                BookingType::Jira(_) => false,
                BookingType::Unknown(g, y) => f.index < g.index || (f.index == g.index && !*x
                    && *y),
            },
        }
    }
}

/// How long was worked on something, and how long is to be booked on it.
#[derive(Debug)]
pub struct Booking {
    pub based_on_entries: Vec<(u32, u32)>,
    pub duration: Duration,
    pub suggested_duration: Option<Duration>,
}

/// The contents of a booking, with lengths in nanoseconds.
#[verifier::ext_equal]
pub struct BookingModel {
    pub based_on_entries: Seq<(u32, u32)>,
    pub duration: nat,
    pub suggested_duration: Option<nat>,
}

impl View for Booking {
    type V = BookingModel;

    open spec fn view(&self) -> BookingModel {
        BookingModel {
            based_on_entries: self.based_on_entries@,
            duration: self.duration@,
            suggested_duration: match self.suggested_duration {
                Some(d) => Some(d@),
                None => None,
            },
        }
    }
}

/// A number of seconds in nanoseconds.
pub open spec fn secs_nanos(secs: int) -> int {
    secs * NANOS_PER_SEC
}

/// The whole seconds of a length in nanoseconds.
pub open spec fn whole_secs(nanos: nat) -> int {
    (nanos / (NANOS_PER_SEC as nat)) as int
}

/// A length in whole minutes, rounded up to a multiple of five minutes, in seconds.
pub open spec fn five_minutes(nanos: nat) -> int {
    (whole_secs(nanos) / 60 + 4) / 5 * 300
}

/// Whether a length can be rounded: neither it nor what it is rounded to is too long.
pub open spec fn can_round(nanos: nat) -> bool {
    &&& nanos <= secs_nanos(MAX_DELTA_SECS as int) + MAX_DELTA_NANOS
    &&& five_minutes(nanos) <= MAX_DELTA_SECS
}

/// Whether a number of seconds can be added or taken away.
pub open spec fn can_shift(secs: int) -> bool {
    -MAX_DELTA_SECS <= secs <= MAX_DELTA_SECS
}

impl BookingModel {
    /// How long is to be booked: as suggested, or else as long as was worked.
    pub open spec fn effective(&self) -> nat {
        match self.suggested_duration {
            Some(d) => d,
            None => self.duration,
        }
    }

    /// The booking with the suggestion to round to five minutes.
    pub open spec fn normalized(&self) -> BookingModel {
        BookingModel {
            suggested_duration: Some(secs_nanos(five_minutes(self.duration)) as nat),
            ..*self
        }
    }

    /// The seconds that rounding to five minutes takes away; less than none where it adds some.
    pub open spec fn rounded_away(&self) -> int {
        whole_secs(self.duration) - five_minutes(self.duration)
    }

    /// The booking with a number of seconds more, or less, than what is suggested, or, if not
    /// `incremental`, than what was worked. A suggestion that would be too long, or less than
    /// nothing, is none.
    pub open spec fn shifted(&self, secs: int, incremental: bool) -> BookingModel {
        let base = if incremental {
            self.effective()
        } else {
            self.duration
        };
        let target = base + secs_nanos(secs);
        BookingModel {
            suggested_duration: if 0 <= target <= max_nanos() {
                Some(target as nat)
            } else {
                None
            },
            ..*self
        }
    }
}

impl Booking {
    /// The lengths are valid.
    pub open spec fn wf(&self) -> bool {
        &&& self.duration.wf()
        &&& self.suggested_duration matches Some(d) ==> d.wf()
    }

    /// How long is to be booked.
    pub fn effective(&self) -> (r: Duration)
        requires
            self.wf(),
        ensures
            r.wf(),
            r@ == self@.effective(),
    {
        match self.suggested_duration {
            Some(d) => d,
            None => self.duration,
        }
    }

    /// Suggests to round to five minutes, and returns the seconds that this takes away.
    pub fn normalize(&mut self) -> (r: i64)
        requires
            old(self).wf(),
            can_round(old(self).duration@),
        ensures
            final(self).wf(),
            final(self)@ == old(self)@.normalized(),
            r == old(self)@.rounded_away(),
    {
        proof {
            lemma_whole_secs(self.duration);
        }
        let seconds: i64 = self.duration.as_secs() as i64;
        let mut minutes: i64 = seconds / 60;
        let diff_to_five: i64 = minutes % 5;
        if diff_to_five != 0 {
            minutes = minutes + (5 - diff_to_five);
        }
        let suggested: i64 = minutes * 60;
        self.suggested_duration = Some(Duration::from_secs(suggested as u64));
        seconds - suggested
    }

    /// Suggests a number of seconds more or less.
    pub fn modify(&mut self, modify_time_seconds: i64, incremental: bool)
        requires
            old(self).wf(),
            can_shift(modify_time_seconds as int),
        ensures
            final(self).wf(),
            final(self)@ == old(self)@.shifted(modify_time_seconds as int, incremental),
    {
        if !incremental {
            self.suggested_duration = None;
        }
        let base = self.effective();
        if modify_time_seconds > 0 {
            let modified_time = Duration::from_secs(modify_time_seconds as u64);
            self.suggested_duration = base.checked_add(&modified_time);
        } else {
            let modified_time = Duration::from_secs((-modify_time_seconds) as u64);
            proof {
                lemma_whole_secs(base);
            }
            self.suggested_duration = base.checked_sub(&modified_time);
        }
    }
}

/// One line of the bookings of a day.
pub type BookingLine = (BookingKey, BookingModel);

/// The contents of the bookings of a day.
pub open spec fn lines(bookings: Seq<(BookingType, Booking)>) -> Seq<BookingLine> {
    bookings.map_values(|b: (BookingType, Booking)| (b.0@, b.1@))
}

/// What the bookings are for.
pub open spec fn keys(bookings: Seq<BookingLine>) -> Seq<BookingKey> {
    bookings.map_values(|b: BookingLine| b.0)
}

/// The contents of a list of what bookings are for.
pub open spec fn type_keys(types: Seq<BookingType>) -> Seq<BookingKey> {
    types.map_values(|t: BookingType| t@)
}

/// The bookings are in order, and there is one at most for each thing.
pub open spec fn ordered(bookings: Seq<BookingLine>) -> bool {
    forall|i: int, j: int|
        0 <= i < j < bookings.len() ==> (#[trigger] bookings[i]).0.before((#[trigger] bookings[j]).0)
}

/// The bookings of a day, and the list that shows them.
#[derive(Debug)]
pub struct BookingDate {
    pub date: Date,
    pub total_duration: Duration,
    pub actual_duration: Option<Duration>,
    pub jira_data: Vec<Entry>,
    pub suggested_bookings: Vec<(BookingType, Booking)>,
    pub booking_list: StatefulList<BookingType>,
}

/// The contents of the bookings of a day.
#[verifier::ext_equal]
pub struct DateModel {
    pub date: Date,
    pub total_duration: nat,
    pub actual_duration: Option<nat>,
    pub jira_data: Seq<IssueModel>,
    pub bookings: Seq<BookingLine>,
    pub list: Seq<BookingKey>,
    pub state: ListState,
}

impl View for BookingDate {
    type V = DateModel;

    open spec fn view(&self) -> DateModel {
        DateModel {
            date: self.date,
            total_duration: self.total_duration@,
            actual_duration: match self.actual_duration {
                Some(d) => Some(d@),
                None => None,
            },
            jira_data: issue_models(self.jira_data@),
            bookings: lines(self.suggested_bookings@),
            list: type_keys(self.booking_list.items@),
            state: self.booking_list.state,
        }
    }
}

/// Whether a booking can give or take a number of seconds: it is of a side on which time is not
/// booked, and there is more of it than what is taken.
pub open spec fn can_take(booking: BookingLine, secs: int) -> bool {
    &&& booking.0 matches BookingKey::Unknown(_, bookable) && !bookable
    &&& secs < 0 ==> booking.1.effective() > secs_nanos(-secs)
}

/// The place of the first booking that can give or take a number of seconds.
pub open spec fn first_taker(bookings: Seq<BookingLine>, secs: int) -> Option<int>
    decreases bookings.len(),
{
    if bookings.len() == 0 {
        None
    } else {
        match first_taker(bookings.drop_last(), secs) {
            Some(i) => Some(i),
            None => if can_take(bookings.last(), secs) {
                Some(bookings.len() - 1)
            } else {
                None
            },
        }
    }
}

/// A place that is found can take the seconds, and none before it can. Where none is found,
/// none can.
pub proof fn lemma_first_taker(bookings: Seq<BookingLine>, secs: int)
    ensures
        match first_taker(bookings, secs) {
            Some(i) => {
                &&& 0 <= i < bookings.len()
                &&& can_take(bookings[i], secs)
                &&& forall|j: int| 0 <= j < i ==> !can_take(#[trigger] bookings[j], secs)
            },
            None => forall|j: int|
                0 <= j < bookings.len() ==> !can_take(#[trigger] bookings[j], secs),
        },
    decreases bookings.len(),
{
    if bookings.len() > 0 {
        let front = bookings.drop_last();
        lemma_first_taker(front, secs);
        match first_taker(front, secs) {
            Some(i) => {
                assert(front[i] == bookings[i]);
                assert forall|j: int| 0 <= j < i implies !can_take(#[trigger] bookings[j], secs) by {
                    assert(front[j] == bookings[j]);
                }
            },
            None => {
                assert forall|j: int| 0 <= j < bookings.len() - 1 implies !can_take(
                    #[trigger] bookings[j],
                    secs,
                ) by {
                    assert(front[j] == bookings[j]);
                }
            },
        }
    }
}

/// The bookings with a number of seconds more, or less, on the first side that can take them.
pub open spec fn unbookable_shifted(
    bookings: Seq<BookingLine>,
    secs: int,
    incremental: bool,
) -> Seq<BookingLine> {
    match first_taker(bookings, secs) {
        Some(i) => bookings.update(i, (bookings[i].0, bookings[i].1.shifted(secs, incremental))),
        None => bookings,
    }
}

/// Each booking that can be booked, rounded to five minutes.
pub open spec fn all_normalized(bookings: Seq<BookingLine>) -> Seq<BookingLine> {
    bookings.map_values(
        |b: BookingLine|
            if b.0.bookable() {
                (b.0, b.1.normalized())
            } else {
                b
            },
    )
}

/// The seconds that rounding takes away from all bookings that can be booked.
pub open spec fn all_rounded_away(bookings: Seq<BookingLine>) -> int
    decreases bookings.len(),
{
    if bookings.len() == 0 {
        0
    } else {
        all_rounded_away(bookings.drop_last()) + if bookings.last().0.bookable() {
            bookings.last().1.rounded_away()
        } else {
            0
        }
    }
}

/// The seconds of all bookings that can be booked, rounded to five minutes.
pub open spec fn all_rounded(bookings: Seq<BookingLine>) -> int
    decreases bookings.len(),
{
    if bookings.len() == 0 {
        0
    } else {
        all_rounded(bookings.drop_last()) + if bookings.last().0.bookable() {
            five_minutes(bookings.last().1.duration)
        } else {
            0
        }
    }
}

/// Whether all bookings can be rounded: none of them, nor their sum, is too long, and there are
/// not more than can be counted.
pub open spec fn can_normalize(bookings: Seq<BookingLine>) -> bool {
    &&& forall|i: int|
        0 <= i < bookings.len() && (#[trigger] bookings[i]).0.bookable() ==> can_round(
            bookings[i].1.duration,
        )
    &&& all_rounded(bookings) <= u64::MAX
    &&& bookings.len() <= MAX_DELTA_SECS / 300
}

/// The place of the booking for something.
pub open spec fn place_of(bookings: Seq<BookingLine>, key: BookingKey) -> int {
    choose|i: int| 0 <= i < bookings.len() && (#[trigger] bookings[i]).0 == key
}

impl DateModel {
    /// What is selected.
    pub open spec fn selected_key(&self) -> Option<BookingKey> {
        match self.state.selected {
            Some(i) => if i < self.list.len() {
                Some(self.list[i as int])
            } else {
                None
            },
            None => None,
        }
    }

    /// The bookings are in order, and the list shows them all.
    pub open spec fn wf(&self) -> bool {
        &&& self.date.valid()
        &&& ordered(self.bookings)
        &&& self.list == keys(self.bookings)
        &&& unique_keys(self.jira_data)
    }

    /// All bookings rounded to five minutes. What that takes away, or adds, goes to the first
    /// side that can take it.
    pub open spec fn normalized(&self) -> DateModel {
        DateModel {
            bookings: unbookable_shifted(
                all_normalized(self.bookings),
                all_rounded_away(self.bookings),
                false,
            ),
            ..*self
        }
    }

    /// A number of seconds more, or less, on the selected booking, if time can be booked on it.
    /// They come from the first side that can take them, or go to it. Where there are less than
    /// are to be taken away, nothing is left, and nothing goes anywhere.
    pub open spec fn selected_shifted(&self, secs: int) -> DateModel {
        match self.selected_key() {
            Some(key) => if !key.bookable() {
                *self
            } else {
                let i = place_of(self.bookings, key);
                let booking = self.bookings[i].1;
                if secs < 0 && booking.effective() < secs_nanos(-secs) {
                    let emptied = BookingModel { suggested_duration: Some(0), ..booking };
                    DateModel { bookings: self.bookings.update(i, (key, emptied)), ..*self }
                } else {
                    let shifted = self.bookings.update(i, (key, booking.shifted(secs, true)));
                    DateModel { bookings: unbookable_shifted(shifted, -secs, true), ..*self }
                }
            },
            None => *self,
        }
    }
}

/// Where the bookings are in order, there is one place for each.
pub proof fn lemma_place_of(bookings: Seq<BookingLine>, i: int)
    requires
        ordered(bookings),
        0 <= i < bookings.len(),
    ensures
        place_of(bookings, bookings[i].0) == i,
{
    let key = bookings[i].0;
    let j = place_of(bookings, key);
    assert(0 <= j < bookings.len() && bookings[j].0 == key);
    lemma_key_order(key, key, key);
    assert(i < j ==> bookings[i].0.before(bookings[j].0));
    assert(j < i ==> bookings[j].0.before(bookings[i].0));
}

/// A change of what is suggested keeps the order.
proof fn lemma_same_keys(before: Seq<BookingLine>, after: Seq<BookingLine>)
    requires
        before.len() == after.len(),
        forall|i: int| 0 <= i < before.len() ==> (#[trigger] after[i]).0 == before[i].0,
    ensures
        keys(after) == keys(before),
        ordered(before) ==> ordered(after),
{
    assert(keys(after) =~= keys(before));
    if ordered(before) {
        assert forall|i: int, j: int| 0 <= i < j < after.len() implies (
        #[trigger] after[i]).0.before((#[trigger] after[j]).0) by {
            assert(before[i].0.before(before[j].0));
        }
    }
}

/// Rounding takes away less than a minute, and adds less than five.
proof fn lemma_rounded_away(booking: BookingModel)
    ensures
        -300 < booking.rounded_away() < 60,
        five_minutes(booking.duration) >= 0,
{
}

proof fn lemma_all_rounded(bookings: Seq<BookingLine>, n: nat)
    requires
        n <= bookings.len(),
    ensures
        0 <= all_rounded(bookings.take(n as int)) <= all_rounded(bookings),
        -300 * n <= all_rounded_away(bookings.take(n as int)) <= 60 * n,
    decreases bookings.len() - n, n,
{
    lemma_rounded_sums(bookings.take(n as int));
    if n < bookings.len() {
        lemma_all_rounded(bookings, n + 1);
        assert(bookings.take((n + 1) as int).drop_last() =~= bookings.take(n as int));
        lemma_rounded_away(bookings.take((n + 1) as int).last().1);
    } else {
        assert(bookings.take(n as int) =~= bookings);
    }
}

proof fn lemma_rounded_sums(bookings: Seq<BookingLine>)
    ensures
        0 <= all_rounded(bookings),
        -300 * bookings.len() <= all_rounded_away(bookings) <= 60 * bookings.len(),
    decreases bookings.len(),
{
    if bookings.len() > 0 {
        lemma_rounded_sums(bookings.drop_last());
        lemma_rounded_away(bookings.last().1);
    }
}

impl BookingDate {
    /// The contents are valid, and so are all lengths.
    pub open spec fn wf(&self) -> bool {
        &&& self@.wf()
        &&& self.total_duration.wf()
        &&& self.actual_duration matches Some(d) ==> d.wf()
        &&& forall|i: int|
            0 <= i < self.suggested_bookings@.len() ==> (#[trigger] self.suggested_bookings@[i]).1.wf()
    }

    /// Gives a number of seconds to the first side that can take them, or takes them from it.
    pub fn modify_unbookable_booking(&mut self, modify_time_seconds: i64, incremental: bool)
        requires
            old(self).wf(),
            (exists|i: int|
                0 <= i < old(self)@.bookings.len() && !(
                #[trigger] old(self)@.bookings[i]).0.bookable()) ==> can_shift(
                modify_time_seconds as int,
            ),
        ensures
            final(self).wf(),
            final(self)@ == (DateModel {
                bookings: unbookable_shifted(
                    old(self)@.bookings,
                    modify_time_seconds as int,
                    incremental,
                ),
                ..old(self)@
            }),
    {
        let ghost before = self@;
        let ghost secs = modify_time_seconds as int;
        proof {
            lemma_first_taker(before.bookings, secs);
        }
        let count: usize = self.suggested_bookings.len();
        for i in 0..count
            invariant
                count == self.suggested_bookings@.len(),
                self.wf(),
                self@ == before,
                before == old(self)@,
                secs == modify_time_seconds,
                (exists|i: int|
                    0 <= i < before.bookings.len() && !(
                    #[trigger] before.bookings[i]).0.bookable()) ==> can_shift(secs),
                forall|j: int| 0 <= j < i ==> !can_take(#[trigger] before.bookings[j], secs),
        {
            assert(before.bookings[i as int] == (
                self.suggested_bookings@[i as int].0@,
                self.suggested_bookings@[i as int].1@,
            ));
            assert(self.suggested_bookings@[i as int].1.wf());
            if !self.suggested_bookings[i].0.bookable() {
                assert(!before.bookings[i as int].0.bookable());
                let takes = if modify_time_seconds < 0 {
                    let wanted = Duration::from_secs((-modify_time_seconds) as u64);
                    self.suggested_bookings[i].1.effective().longer_than(&wanted)
                } else {
                    true
                };
                if takes {
                    let ghost bookings = self.suggested_bookings@;
                    self.suggested_bookings[i].1.modify(modify_time_seconds, incremental);
                    proof {
                        lemma_first_taker(before.bookings, secs);
                        assert(can_take(before.bookings[i as int], secs));
                        assert(first_taker(before.bookings, secs) == Some(i as int));
                        assert(self@.bookings =~= unbookable_shifted(
                            before.bookings,
                            secs,
                            incremental,
                        ));
                        lemma_same_keys(before.bookings, self@.bookings);
                    }
                    return ;
                }
            }
        }
        proof {
            lemma_first_taker(before.bookings, secs);
        }
    }

    /// Whether all bookings can be rounded to five minutes.
    pub fn can_be_normalized(&self) -> (r: bool)
        requires
            self.wf(),
        ensures
            r == can_normalize(self@.bookings),
    {
        let ghost all = self@.bookings;
        let count: usize = self.suggested_bookings.len();
        if count as u64 > MAX_DELTA_SECS as u64 / 300 {
            return false;
        }
        let mut sum: u64 = 0;
        assert(all.take(0).len() == 0);
        for i in 0..count
            invariant
                self.wf(),
                all == self@.bookings,
                count == all.len(),
                sum == all_rounded(all.take(i as int)),
                forall|j: int|
                    0 <= j < i && (#[trigger] all[j]).0.bookable() ==> can_round(all[j].1.duration),
        {
            let booking = &self.suggested_bookings[i];
            proof {
                assert(all[i as int] == (booking.0@, booking.1@));
                assert(booking.1.wf());
                assert(all.take(i + 1).drop_last() =~= all.take(i as int));
                assert(all.take(i + 1).last() == all[i as int]);
                lemma_all_rounded(all, (i + 1) as nat);
                lemma_whole_secs(booking.1.duration);
            }
            if booking.0.bookable() {
                let seconds: u64 = booking.1.duration.as_secs();
                if seconds > MAX_DELTA_SECS as u64 || (seconds == MAX_DELTA_SECS as u64
                    && booking.1.duration.nanos > MAX_DELTA_NANOS) {
                    return false;
                }
                let rounded: u64 = (seconds / 60 + 4) / 5 * 300;
                if rounded > MAX_DELTA_SECS as u64 {
                    return false;
                }
                match sum.checked_add(rounded) {
                    Some(more) => {
                        sum = more;
                    },
                    None => {
                        return false;
                    },
                }
            }
        }
        assert(all.take(all.len() as int) =~= all);
        true
    }

    /// Suggests to round all bookings to five minutes.
    pub fn normalize_times(&mut self)
        requires
            old(self).wf(),
            can_normalize(old(self)@.bookings),
        ensures
            final(self).wf(),
            final(self)@ == old(self)@.normalized(),
    {
        let ghost before = self@;
        let ghost all = before.bookings;
        let mut modify_time_seconds: i64 = 0;
        assert(all.take(0).len() == 0);
        let count: usize = self.suggested_bookings.len();
        for i in 0..count
            invariant
                count == self.suggested_bookings@.len(),
                self.wf(),
                can_normalize(all),
                all == before.bookings,
                self@ == (DateModel { bookings: self@.bookings, ..before }),
                self@.bookings.len() == all.len(),
                forall|j: int|
                    0 <= j < i ==> #[trigger] self@.bookings[j] == all_normalized(all)[j],
                forall|j: int| i <= j < all.len() ==> #[trigger] self@.bookings[j] == all[j],
                modify_time_seconds == all_rounded_away(all.take(i as int)),
        {
            proof {
                assert(all.take(i + 1).drop_last() =~= all.take(i as int));
                assert(all.take(i + 1).last() == all[i as int]);
                lemma_all_rounded(all, i as nat);
                lemma_all_rounded(all, (i + 1) as nat);
            }
            let ghost now = self@.bookings;
            assert(now[i as int] == all[i as int]);
            assert(self.suggested_bookings@[i as int].1.wf());
            if self.suggested_bookings[i].0.bookable() {
                let change: i64 = self.suggested_bookings[i].1.normalize();
                modify_time_seconds = modify_time_seconds + change;
                proof {
                    assert forall|j: int| 0 <= j < all.len() && j != i implies #[trigger] self@.bookings[j]
                        == now[j] by {}
                    lemma_same_keys(now, self@.bookings);
                }
            }
        }
        proof {
            assert(self@.bookings =~= all_normalized(all));
            assert(all.take(all.len() as int) =~= all);
            lemma_all_rounded(all, all.len());
        }
        self.modify_unbookable_booking(modify_time_seconds, false);
    }

    /// Books a number of seconds more, or less, on the selected booking.
    pub fn modify_selected_entry(&mut self, modify_time_seconds: i64)
        requires
            old(self).wf(),
            (old(self)@.selected_key() matches Some(key) && key.bookable()) ==> can_shift(
                modify_time_seconds as int,
            ),
        ensures
            final(self).wf(),
            final(self)@ == old(self)@.selected_shifted(modify_time_seconds as int),
    {
        let ghost before = self@;
        let ghost secs = modify_time_seconds as int;
        let i: usize = match self.booking_list.selected() {
            Some(selected) => {
                assert(before.list[before.state.selected->0 as int] == selected@);
                if !selected.bookable() {
                    return ;
                }
                match self.booking_list.state.selected {
                    Some(i) => i,
                    None => {
                        return ;
                    },
                }
            },
            None => {
                return ;
            },
        };
        let ghost key = before.selected_key()->0;
        proof {
            assert(before.list.len() == before.bookings.len());
            assert(before.list[i as int] == before.bookings[i as int].0);
            lemma_place_of(before.bookings, i as int);
            assert(self.suggested_bookings@[i as int].1.wf());
        }
        if modify_time_seconds < 0 {
            let wanted = Duration::from_secs((-modify_time_seconds) as u64);
            if wanted.longer_than(&self.suggested_bookings[i].1.effective()) {
                self.suggested_bookings[i].1.suggested_duration = Some(Duration::from_secs(0));
                proof {
                    assert(self@.bookings =~= before.selected_shifted(secs).bookings);
                    lemma_same_keys(before.bookings, self@.bookings);
                }
                return ;
            }
        }
        self.suggested_bookings[i].1.modify(modify_time_seconds, true);
        proof {
            let shifted = before.bookings.update(
                i as int,
                (key, before.bookings[i as int].1.shifted(secs, true)),
            );
            assert(self@.bookings =~= shifted);
            lemma_same_keys(before.bookings, self@.bookings);
        }
        self.modify_unbookable_booking(-modify_time_seconds, true);
    }

    /// What is to be booked on issues, and how long.
    pub fn prepare_jira_booking(&self) -> (r: Vec<(String, Duration)>)
        requires
            self.wf(),
        ensures
            amounts(r@) == jira_amounts(self@.bookings),
            forall|i: int| 0 <= i < r@.len() ==> (#[trigger] r@[i]).1.wf(),
    {
        let ghost all = self@.bookings;
        let mut prepared: Vec<(String, Duration)> = Vec::new();
        assert(all.take(0).len() == 0);
        assert(amounts(prepared@) =~= Seq::empty());
        for i in 0..self.suggested_bookings.len()
            invariant
                self.wf(),
                all == self@.bookings,
                amounts(prepared@) == jira_amounts(all.take(i as int)),
                forall|j: int| 0 <= j < prepared@.len() ==> (#[trigger] prepared@[j]).1.wf(),
        {
            proof {
                assert(all.take(i + 1).drop_last() =~= all.take(i as int));
                assert(all[i as int] == (
                    self.suggested_bookings@[i as int].0@,
                    self.suggested_bookings@[i as int].1@,
                ));
                assert(self.suggested_bookings@[i as int].1.wf());
            }
            match &self.suggested_bookings[i].0 {
                BookingType::Unknown(_, _) => {},
                BookingType::Jira(issue) => {
                    let ghost sofar = prepared@;
                    prepared.push((issue.clone(), self.suggested_bookings[i].1.effective()));
                    assert(amounts(prepared@) =~= amounts(sofar).push(
                        (issue@, all[i as int].1.effective()),
                    ));
                },
            }
        }
        assert(all.take(all.len() as int) =~= all);
        prepared
    }
}

/// The contents of a list of amounts of time.
pub open spec fn amounts(list: Seq<(String, Duration)>) -> Seq<(Seq<char>, nat)> {
    list.map_values(|a: (String, Duration)| (a.0@, a.1@))
}

/// What is to be booked on issues, and how long.
pub open spec fn jira_amounts(bookings: Seq<BookingLine>) -> Seq<(Seq<char>, nat)>
    decreases bookings.len(),
{
    if bookings.len() == 0 {
        Seq::empty()
    } else {
        let before = jira_amounts(bookings.drop_last());
        match bookings.last().0 {
            BookingKey::Jira(issue) => before.push((issue, bookings.last().1.effective())),
            BookingKey::Unknown(_, _) => before,
        }
    }
}

/// How long is to be booked on all together.
pub open spec fn total_effective(bookings: Seq<BookingLine>) -> nat
    decreases bookings.len(),
{
    if bookings.len() == 0 {
        0
    } else {
        total_effective(bookings.drop_last()) + bookings.last().1.effective()
    }
}

/// How many whole seconds are to be booked on all together.
pub open spec fn total_secs(bookings: Seq<BookingLine>) -> int
    decreases bookings.len(),
{
    if bookings.len() == 0 {
        0
    } else {
        total_secs(bookings.drop_last()) + whole_secs(bookings.last().1.effective())
    }
}

proof fn lemma_total_update(bookings: Seq<BookingLine>, i: int, booking: BookingLine)
    requires
        0 <= i < bookings.len(),
    ensures
        total_effective(bookings.update(i, booking)) == total_effective(bookings)
            - bookings[i].1.effective() + booking.1.effective(),
        total_secs(bookings.update(i, booking)) == total_secs(bookings) - whole_secs(
            bookings[i].1.effective(),
        ) + whole_secs(booking.1.effective()),
    decreases bookings.len(),
{
    let after = bookings.update(i, booking);
    if i == bookings.len() - 1 {
        assert(after.drop_last() =~= bookings.drop_last());
    } else {
        assert(after.drop_last() =~= bookings.drop_last().update(i, booking));
        lemma_total_update(bookings.drop_last(), i, booking);
    }
}

/// What is booked more on one thing is booked less on a side that is not booked, and the other
/// way round: the time of the day stays the same, as long as there is a side that can take the
/// change and no length gets too long.
pub proof fn law_shift_keeps_total(day: DateModel, secs: int)
    requires
        day.wf(),
        day.selected_key() matches Some(key) && key.bookable(),
        // as much is there as is taken away
        secs < 0 ==> day.bookings[day.state.selected->0 as int].1.effective() >= secs_nanos(-secs),
        // a side can take the change
        first_taker(day.bookings, -secs) is Some,
        // no length gets too long
        day.bookings[day.state.selected->0 as int].1.effective() + secs_nanos(secs) <= max_nanos(),
        day.bookings[first_taker(day.bookings, -secs)->0].1.effective() + secs_nanos(-secs)
            <= max_nanos(),
    ensures
        total_effective(day.selected_shifted(secs).bookings) == total_effective(day.bookings),
{
    let i = day.state.selected->0 as int;
    let key = day.list[i];
    assert(day.list[i] == day.bookings[i].0);
    lemma_place_of(day.bookings, i);
    let shifted = day.bookings.update(i, (key, day.bookings[i].1.shifted(secs, true)));
    lemma_first_taker(day.bookings, -secs);
    lemma_first_taker(shifted, -secs);
    let j = first_taker(day.bookings, -secs)->0;
    assert(shifted[j] == day.bookings[j]);
    let k = first_taker(shifted, -secs)->0;
    assert(!can_take(shifted[i], -secs));
    assert(shifted[k] == day.bookings[k]);
    assert(k == j);
    lemma_total_update(day.bookings, i, shifted[i]);
    lemma_total_update(shifted, j, (shifted[j].0, shifted[j].1.shifted(-secs, true)));
}

/// More and then less of the same leads back to how long everything is to be booked, as long as
/// no length gets too long and the side that gives is the one that takes back: the first that is
/// not booked. Without such a side it leads back too. Where there were suggestions before, the
/// bookings are the same altogether.
pub proof fn law_shift_back(day: DateModel, secs: int)
    requires
        day.wf(),
        day.selected_key() matches Some(key) && key.bookable(),
        secs > 0,
        day.bookings[day.state.selected->0 as int].1.effective() + secs_nanos(secs) <= max_nanos(),
        first_taker(day.bookings, -secs) == first_taker(day.bookings, secs),
        first_taker(day.bookings, secs) matches Some(j) ==> day.bookings[j].1.effective()
            <= max_nanos(),
    ensures
        ({
            let back = day.selected_shifted(secs).selected_shifted(-secs);
            &&& back == (DateModel { bookings: back.bookings, ..day })
            &&& back.bookings.len() == day.bookings.len()
            &&& forall|n: int|
                0 <= n < day.bookings.len() ==> {
                    &&& (#[trigger] back.bookings[n]).0 == day.bookings[n].0
                    &&& back.bookings[n].1.effective() == day.bookings[n].1.effective()
                    &&& back.bookings[n].1 == (BookingModel {
                        suggested_duration: back.bookings[n].1.suggested_duration,
                        ..day.bookings[n].1
                    })
                }
            &&& day.bookings[day.state.selected->0 as int].1.suggested_duration is Some && (
            first_taker(day.bookings, secs) matches Some(j)
                ==> day.bookings[j].1.suggested_duration is Some) ==> back == day
        }),
{
    let i = day.state.selected->0 as int;
    let key = day.list[i];
    assert(day.list[i] == day.bookings[i].0);
    lemma_place_of(day.bookings, i);
    lemma_first_taker(day.bookings, -secs);
    lemma_first_taker(day.bookings, secs);
    let taker = first_taker(day.bookings, secs);
    let more = day.bookings.update(i, (key, day.bookings[i].1.shifted(secs, true)));
    lemma_first_taker(more, -secs);
    lemma_same_takers(day.bookings, more, i, -secs);
    assert(first_taker(more, -secs) == taker);
    let middle = day.selected_shifted(secs);
    assert forall|n: int| 0 <= n < day.bookings.len() implies (#[trigger] middle.bookings[n]).0
        == day.bookings[n].0 by {}
    lemma_same_keys(day.bookings, middle.bookings);
    lemma_place_of(middle.bookings, i);
    assert(middle.selected_key() == Some(key));
    let less = middle.bookings.update(i, (key, middle.bookings[i].1.shifted(-secs, true)));
    assert forall|n: int| 0 <= n < day.bookings.len() implies can_take(#[trigger] less[n], secs)
        == can_take(day.bookings[n], secs) by {
        assert(less[n].0 == day.bookings[n].0);
    }
    lemma_first_taker(less, secs);
    lemma_equal_takers(day.bookings, less, secs);
    assert(first_taker(less, secs) == taker);
    let back = day.selected_shifted(secs).selected_shifted(-secs);
    match taker {
        Some(j) => {
            assert(j != i);
            assert(back.bookings == less.update(j, (less[j].0, less[j].1.shifted(secs, true))));
            if day.bookings[i].1.suggested_duration is Some
                && day.bookings[j].1.suggested_duration is Some {
                assert(back.bookings =~= day.bookings);
            }
        },
        None => {
            assert(back.bookings == less);
            if day.bookings[i].1.suggested_duration is Some {
                assert(back.bookings =~= day.bookings);
            }
        },
    }
}

/// A change of a booking that gives and takes nothing leaves the first that does.
proof fn lemma_same_takers(before: Seq<BookingLine>, after: Seq<BookingLine>, i: int, secs: int)
    requires
        0 <= i < before.len(),
        before[i].0.bookable(),
        after == before.update(i, after[i]),
        after[i].0 == before[i].0,
    ensures
        first_taker(after, secs) == first_taker(before, secs),
{
    assert forall|n: int| 0 <= n < before.len() implies can_take(#[trigger] after[n], secs)
        == can_take(before[n], secs) by {}
    lemma_equal_takers(before, after, secs);
}

/// The first that can take is found by what can take alone.
proof fn lemma_equal_takers(before: Seq<BookingLine>, after: Seq<BookingLine>, secs: int)
    requires
        before.len() == after.len(),
        forall|n: int|
            0 <= n < before.len() ==> can_take(#[trigger] after[n], secs) == can_take(
                before[n],
                secs,
            ),
    ensures
        first_taker(after, secs) == first_taker(before, secs),
{
    lemma_first_taker(before, secs);
    lemma_first_taker(after, secs);
    match (first_taker(before, secs), first_taker(after, secs)) {
        (Some(a), Some(b)) => {
            assert(can_take(after[a], secs));
            assert(can_take(after[b], secs));
            assert(b < a ==> can_take(before[b], secs));
        },
        (Some(a), None) => {
            assert(can_take(after[a], secs));
        },
        (None, Some(b)) => {
            assert(can_take(after[b], secs));
            assert(can_take(before[b], secs));
        },
        (None, None) => {},
    }
}

proof fn lemma_five_minutes(secs: int)
    requires
        0 <= secs,
    ensures
        (secs / 60 + 4) / 5 * 300 % 300 == 0,
        0 <= (secs / 60 + 4) / 5 * 300,
        secs - 60 < (secs / 60 + 4) / 5 * 300 < secs + 300,
        secs % 300 < 60 ==> (secs / 60 + 4) / 5 * 300 == secs / 300 * 300,
        secs % 300 == 0 ==> (secs / 60 + 4) / 5 * 300 == secs,
{
    let minutes = secs / 60;
    assert(minutes / 5 == secs / 300);
    assert(secs % 300 < 60 ==> minutes % 5 == 0);
}

/// Rounding suggests whole multiples of five minutes, at most five minutes more and less than a
/// minute less than was worked, and for what is a multiple already exactly its whole minutes.
pub proof fn law_rounding(booking: BookingModel)
    ensures
        five_minutes(booking.duration) % 300 == 0,
        whole_secs(booking.duration) - 60 < five_minutes(booking.duration) < whole_secs(
            booking.duration,
        ) + 300,
        whole_secs(booking.duration) % 300 < 60 ==> five_minutes(booking.duration) == whole_secs(
            booking.duration,
        ) / 300 * 300,
        booking.normalized().normalized() == booking.normalized(),
        five_minutes(secs_nanos(five_minutes(booking.duration)) as nat) == five_minutes(
            booking.duration,
        ),
{
    let secs = whole_secs(booking.duration);
    lemma_five_minutes(secs);
    let rounded = five_minutes(booking.duration);
    assert(whole_secs(secs_nanos(rounded) as nat) == rounded);
    lemma_five_minutes(rounded);
}

/// No booking has a suggestion yet.
pub open spec fn fresh(bookings: Seq<BookingLine>) -> bool {
    forall|i: int|
        0 <= i < bookings.len() ==> (#[trigger] bookings[i]).1.suggested_duration is None
}

proof fn lemma_normalized_secs(bookings: Seq<BookingLine>)
    requires
        fresh(bookings),
    ensures
        total_secs(all_normalized(bookings)) == total_secs(bookings) - all_rounded_away(bookings),
    decreases bookings.len(),
{
    if bookings.len() > 0 {
        let front = bookings.drop_last();
        assert forall|i: int| 0 <= i < front.len() implies (
        #[trigger] front[i]).1.suggested_duration is None by {
            assert(bookings[i].1.suggested_duration is None);
        }
        lemma_normalized_secs(front);
        assert(all_normalized(bookings).drop_last() =~= all_normalized(front));
        assert(bookings[bookings.len() - 1].1.suggested_duration is None);
        let last = bookings.last();
        if last.0.bookable() {
            assert(all_normalized(bookings).last() == (last.0, last.1.normalized()));
            lemma_rounded_away(last.1);
            assert(whole_secs(last.1.normalized().effective()) == five_minutes(last.1.duration));
        } else {
            assert(all_normalized(bookings).last() == last);
        }
    }
}

/// What rounding takes away or adds is made up for on a side that is not booked: the whole
/// seconds of the day stay the same, as long as there is a side that can take the change and
/// nothing gets too long.
pub proof fn law_normalizing_keeps_seconds(day: DateModel)
    requires
        day.wf(),
        fresh(day.bookings),
        first_taker(all_normalized(day.bookings), all_rounded_away(day.bookings)) is Some,
        day.bookings[first_taker(
            all_normalized(day.bookings),
            all_rounded_away(day.bookings),
        )->0].1.duration + secs_nanos(all_rounded_away(day.bookings)) <= max_nanos(),
    ensures
        total_secs(day.normalized().bookings) == total_secs(day.bookings),
{
    let rounded = all_normalized(day.bookings);
    let secs = all_rounded_away(day.bookings);
    lemma_normalized_secs(day.bookings);
    lemma_first_taker(rounded, secs);
    let i = first_taker(rounded, secs)->0;
    assert(rounded[i] == day.bookings[i]);
    assert(day.bookings[i].1.suggested_duration is None);
    lemma_total_update(rounded, i, (rounded[i].0, rounded[i].1.shifted(secs, false)));
    let base = rounded[i].1.duration;
    assert(whole_secs((base + secs_nanos(secs)) as nat) == whole_secs(base) + secs);
}

/// A length of time that is suggested, or else the one that was worked.
pub open spec fn suggested_or_worked(suggested: Option<nat>, worked: nat) -> nat {
    if suggested is Some {
        suggested->0
    } else {
        worked
    }
}

/// More or less on the selected booking changes it by exactly that much, whether or not a side
/// can make up for it. Where there is less than is taken away, nothing is left.
pub proof fn law_shift_changes_selected(day: DateModel, secs: int)
    requires
        day.wf(),
        day.selected_key() matches Some(key) && key.bookable(),
    ensures
        ({
            let i = day.state.selected->0 as int;
            let before = day.bookings[i].1;
            let after = day.selected_shifted(secs).bookings[i].1;
            let length = suggested_or_worked(before.suggested_duration, before.duration);
            let target = length + secs * 1_000_000_000;
            &&& 0 <= target <= u64::MAX * 1_000_000_000 + 999_999_999 ==> suggested_or_worked(
                after.suggested_duration,
                after.duration,
            ) == target && after.suggested_duration == Some(target as nat)
            &&& secs < 0 && target < 0 ==> after.suggested_duration == Some(0nat)
            &&& after.duration == before.duration
            &&& after.based_on_entries == before.based_on_entries
            &&& day.selected_shifted(secs).bookings[i].0 == day.bookings[i].0
        }),
{
    let i = day.state.selected->0 as int;
    let key = day.list[i];
    assert(day.list[i] == day.bookings[i].0);
    lemma_place_of(day.bookings, i);
    let shifted = day.bookings.update(i, (key, day.bookings[i].1.shifted(secs, true)));
    lemma_first_taker(shifted, -secs);
}

/// A booking on which time is not booked, and which has more than some seconds to give.
pub open spec fn unbooked_with(booking: BookingLine, secs: int) -> bool {
    &&& booking.0 is Unknown
    &&& !booking.0->Unknown_1
    &&& suggested_or_worked(booking.1.suggested_duration, booking.1.duration) > secs * 1_000_000_000
}

/// Of all other bookings only one can change, and that by just as much the other way: the first
/// side on which time is not booked, for less on the selected booking, and the first of these that
/// has more than what it is to give, for more on it. What is selected, the day and the issues stay.
pub proof fn law_shift_leaves_others(day: DateModel, secs: int, n: int)
    requires
        day.wf(),
        day.selected_key() matches Some(key) && key.bookable(),
        0 <= n < day.bookings.len(),
        n != day.state.selected->0,
    ensures
        ({
            let i = day.state.selected->0 as int;
            let after = day.selected_shifted(secs);
            let selected = suggested_or_worked(
                day.bookings[i].1.suggested_duration,
                day.bookings[i].1.duration,
            );
            let length = suggested_or_worked(
                day.bookings[n].1.suggested_duration,
                day.bookings[n].1.duration,
            );
            let target = length - secs * 1_000_000_000;
            // as much as is to be taken away is there
            let possible = secs >= 0 || selected >= -secs * 1_000_000_000;
            // this is the first side that can make up for it
            let unbooked = day.bookings[n].0 == BookingKey::Unknown(
                day.bookings[n].0->Unknown_0,
                false,
            );
            let first = if secs > 0 {
                &&& unbooked_with(day.bookings[n], secs)
                &&& forall|j: int| 0 <= j < n ==> !unbooked_with(#[trigger] day.bookings[j], secs)
            } else {
                &&& unbooked
                &&& forall|j: int|
                    0 <= j < n ==> !(#[trigger] day.bookings[j].0 is Unknown
                        && !day.bookings[j].0->Unknown_1)
            };
            &&& after.bookings.len() == day.bookings.len()
            &&& after.date == day.date && after.total_duration == day.total_duration
            &&& after.actual_duration == day.actual_duration && after.jira_data == day.jira_data
            &&& after.list == day.list && after.state == day.state
            &&& !(possible && first) ==> after.bookings[n] == day.bookings[n]
            &&& possible && first ==> {
                &&& after.bookings[n].0 == day.bookings[n].0
                &&& after.bookings[n].1.duration == day.bookings[n].1.duration
                &&& after.bookings[n].1.based_on_entries == day.bookings[n].1.based_on_entries
                &&& 0 <= target <= u64::MAX * 1_000_000_000 + 999_999_999
                    ==> after.bookings[n].1.suggested_duration == Some(target as nat)
            }
        }),
{
    let i = day.state.selected->0 as int;
    let key = day.list[i];
    assert(day.list[i] == day.bookings[i].0);
    lemma_place_of(day.bookings, i);
    let shifted = day.bookings.update(i, (key, day.bookings[i].1.shifted(secs, true)));
    lemma_same_takers(day.bookings, shifted, i, -secs);
    lemma_first_taker(day.bookings, -secs);
    assert forall|j: int| 0 <= j < day.bookings.len() implies (secs > 0 ==> (can_take(
        #[trigger] day.bookings[j],
        -secs,
    ) <==> unbooked_with(day.bookings[j], secs))) && (secs <= 0 ==> (can_take(day.bookings[j], -secs)
        <==> day.bookings[j].0 is Unknown && !day.bookings[j].0->Unknown_1)) by {}
    let taker = first_taker(day.bookings, -secs);
    if taker == Some(n) {
        assert(can_take(day.bookings[n], -secs));
    } else if taker is Some {
        assert(can_take(day.bookings[taker->0], -secs));
        assert(n < taker->0 ==> !can_take(day.bookings[n], -secs));
    } else {
        assert(!can_take(day.bookings[n], -secs));
    }
}

/// Where nothing is selected, or something on which time is not booked, more and less change
/// nothing.
pub proof fn law_shift_needs_selection(day: DateModel, secs: int)
    requires
        match day.state.selected {
            Some(i) => i < day.list.len() ==> day.list[i as int] is Unknown
                && !day.list[i as int]->Unknown_1,
            None => true,
        },
    ensures
        day.selected_shifted(secs) == day,
{
}

/// The number of bookings on issues.
pub open spec fn issue_count(bookings: Seq<BookingLine>) -> nat
    decreases bookings.len(),
{
    if bookings.len() == 0 {
        0
    } else {
        issue_count(bookings.drop_last()) + if bookings.last().0 is Jira {
            1nat
        } else {
            0
        }
    }
}

/// What is suggested for an issue is what is booked on it, and what was worked only where nothing
/// is suggested: at the place of each booking on an issue among these, its issue and its length.
pub proof fn law_amounts_are_suggested(bookings: Seq<BookingLine>, i: int)
    requires
        0 <= i < bookings.len(),
        bookings[i].0 is Jira,
    ensures
        ({
            let at = issue_count(bookings.take(i)) as int;
            let booking = bookings[i].1;
            &&& jira_amounts(bookings).len() == issue_count(bookings)
            &&& at < jira_amounts(bookings).len()
            &&& jira_amounts(bookings)[at].0 == bookings[i].0->Jira_0
            &&& booking.suggested_duration matches Some(d) ==> jira_amounts(bookings)[at].1 == d
            &&& booking.suggested_duration is None ==> jira_amounts(bookings)[at].1
                == booking.duration
        }),
    decreases bookings.len(),
{
    lemma_amount_count(bookings);
    let front = bookings.drop_last();
    if i < front.len() {
        law_amounts_are_suggested(front, i);
        assert(front.take(i) =~= bookings.take(i));
    } else {
        assert(bookings.take(i) =~= front);
        lemma_amount_count(front);
    }
}

/// Nothing else is booked: there are as many amounts as bookings on issues.
pub proof fn law_only_issues_are_booked(bookings: Seq<BookingLine>)
    ensures
        jira_amounts(bookings).len() == issue_count(bookings),
        forall|k: int|
            0 <= k < jira_amounts(bookings).len() ==> exists|i: int|
                0 <= i < bookings.len() && (#[trigger] bookings[i]).0 == BookingKey::Jira(
                    (#[trigger] jira_amounts(bookings)[k]).0,
                ) && jira_amounts(bookings)[k].1 == suggested_or_worked(
                    bookings[i].1.suggested_duration,
                    bookings[i].1.duration,
                ),
    decreases bookings.len(),
{
    lemma_amount_count(bookings);
    if bookings.len() > 0 {
        let front = bookings.drop_last();
        law_only_issues_are_booked(front);
        let before = jira_amounts(front);
        let all = jira_amounts(bookings);
        assert forall|k: int| 0 <= k < all.len() implies exists|i: int|
            0 <= i < bookings.len() && (#[trigger] bookings[i]).0 == BookingKey::Jira(
                (#[trigger] all[k]).0,
            ) && all[k].1 == suggested_or_worked(
                bookings[i].1.suggested_duration,
                bookings[i].1.duration,
            ) by {
            if k < before.len() {
                assert(before[k] == all[k]);
                let i = choose|i: int|
                    0 <= i < front.len() && (#[trigger] front[i]).0 == BookingKey::Jira(before[k].0)
                        && before[k].1 == suggested_or_worked(
                        front[i].1.suggested_duration,
                        front[i].1.duration,
                    );
                assert(bookings[i] == front[i]);
            } else {
                assert(bookings[bookings.len() - 1].0 is Jira);
            }
        }
    }
}

proof fn lemma_amount_count(bookings: Seq<BookingLine>)
    ensures
        jira_amounts(bookings).len() == issue_count(bookings),
    decreases bookings.len(),
{
    if bookings.len() > 0 {
        lemma_amount_count(bookings.drop_last());
    }
}

/// One more booking adds its length, suggested or else worked, to the sum of the day.
pub proof fn law_total_adds_up(bookings: Seq<BookingLine>, added: BookingLine)
    ensures
        total_effective(Seq::empty()) == 0,
        total_effective(bookings.push(added)) == total_effective(bookings) + suggested_or_worked(
            added.1.suggested_duration,
            added.1.duration,
        ),
{
    assert(bookings.push(added).drop_last() =~= bookings);
}

/// Every booking on which time can be booked is suggested with whole multiples of five minutes:
/// its whole minutes if these are one, or else the next. What was worked on stays.
pub proof fn law_normalizing_rounds_all(day: DateModel, n: int)
    requires
        0 <= n < day.bookings.len(),
        day.bookings[n].0 is Jira || day.bookings[n].0->Unknown_1,
    ensures
        ({
            let before = day.bookings[n].1;
            let after = day.normalized().bookings[n].1;
            let minutes = before.duration / 60_000_000_000;
            &&& day.normalized().bookings.len() == day.bookings.len()
            &&& day.normalized().bookings[n].0 == day.bookings[n].0
            &&& after.suggested_duration is Some
            &&& after.suggested_duration->0 % 300_000_000_000 == 0
            &&& minutes % 5 == 0 ==> after.suggested_duration->0 == minutes * 60_000_000_000
            &&& minutes * 60_000_000_000 <= after.suggested_duration->0 < minutes * 60_000_000_000
                + 300_000_000_000
            &&& after.duration == before.duration
            &&& after.based_on_entries == before.based_on_entries
        }),
{
    let rounded = all_normalized(day.bookings);
    lemma_first_taker(rounded, all_rounded_away(day.bookings));
    assert(rounded[n] == (day.bookings[n].0, day.bookings[n].1.normalized()));
    let duration = day.bookings[n].1.duration;
    let secs = whole_secs(duration);
    assert(duration / 60_000_000_000 == secs / 60) by {
        assert(duration / 60_000_000_000 == duration / 1_000_000_000 / 60);
    }
    let minutes = secs / 60;
    let fives = (minutes + 4) / 5;
    assert(five_minutes(duration) == fives * 300);
    assert(5 * fives >= minutes && 5 * fives < minutes + 5);
    assert(minutes % 5 == 0 ==> 5 * fives == minutes);
}

/// A side on which time is not booked changes at most if it is the first that can take what
/// rounding leaves over, and then it has exactly that more than was worked.
pub proof fn law_normalizing_makes_up(day: DateModel, n: int)
    requires
        0 <= n < day.bookings.len(),
        day.bookings[n].0 is Unknown,
        !day.bookings[n].0->Unknown_1,
    ensures
        ({
            let change = all_rounded_away(day.bookings);
            let before = day.bookings[n].1;
            let after = day.normalized().bookings[n].1;
            let target = before.duration + change * 1_000_000_000;
            let first = if change < 0 {
                &&& unbooked_with(day.bookings[n], -change)
                &&& forall|j: int| 0 <= j < n ==> !unbooked_with(#[trigger] day.bookings[j], -change)
            } else {
                forall|j: int|
                    0 <= j < n ==> !(#[trigger] day.bookings[j].0 is Unknown
                        && !day.bookings[j].0->Unknown_1)
            };
            &&& day.normalized().bookings[n].0 == day.bookings[n].0
            &&& !first ==> after == before
            &&& first ==> after.duration == before.duration && after.based_on_entries
                == before.based_on_entries
            &&& first && 0 <= target <= u64::MAX * 1_000_000_000 + 999_999_999
                ==> after.suggested_duration == Some(target as nat)
        }),
{
    let change = all_rounded_away(day.bookings);
    let rounded = all_normalized(day.bookings);
    assert forall|j: int| 0 <= j < rounded.len() implies can_take(#[trigger] rounded[j], change)
        == can_take(day.bookings[j], change) by {}
    lemma_equal_takers(day.bookings, rounded, change);
    lemma_first_taker(day.bookings, change);
    assert(rounded[n] == day.bookings[n]);
    assert forall|j: int| 0 <= j < day.bookings.len() implies (change < 0 ==> (can_take(
        #[trigger] day.bookings[j],
        change,
    ) <==> unbooked_with(day.bookings[j], -change))) && (change >= 0 ==> (can_take(
        day.bookings[j],
        change,
    ) <==> day.bookings[j].0 is Unknown && !day.bookings[j].0->Unknown_1)) by {}
    let taker = first_taker(day.bookings, change);
    if taker == Some(n) {
        assert(can_take(day.bookings[n], change));
    } else if taker is Some {
        assert(can_take(day.bookings[taker->0], change));
        assert(n < taker->0 ==> !can_take(day.bookings[n], change));
    } else {
        assert(!can_take(day.bookings[n], change));
    }
}

/// What rounding leaves over adds up: of each booking on which time can be booked, its whole
/// seconds less those that are suggested.
pub proof fn law_rounding_adds_up(bookings: Seq<BookingLine>, added: BookingLine)
    ensures
        all_rounded_away(Seq::empty()) == 0,
        added.0 is Jira || added.0->Unknown_1 ==> all_rounded_away(bookings.push(added))
            == all_rounded_away(bookings) + added.1.duration / 1_000_000_000
            - added.1.normalized().suggested_duration->0 / 1_000_000_000,
        added.0 is Unknown && !added.0->Unknown_1 ==> all_rounded_away(bookings.push(added))
            == all_rounded_away(bookings),
{
    assert(bookings.push(added).drop_last() =~= bookings);
}

/// Issues come first, in the order of their keys; the sides follow by their number, and of one
/// side what is not booked comes before what is.
pub proof fn law_booking_order(a: Seq<char>, b: Seq<char>, f: u8, g: u8, x: bool, y: bool)
    ensures
        BookingKey::Jira(a).before(BookingKey::Jira(b)) <==> precedes(a, b),
        BookingKey::Jira(a).before(BookingKey::Unknown(f, x)),
        !BookingKey::Unknown(f, x).before(BookingKey::Jira(a)),
        BookingKey::Unknown(f, x).before(BookingKey::Unknown(g, y)) <==> f < g || (f == g && !x
            && y),
        BookingKey::Jira(a).bookable(),
        BookingKey::Unknown(f, x).bookable() == x,
{
}

/// More or less is counted from what is suggested, or else from what was worked; and from what
/// was worked alone, if it does not come on top of a suggestion. A suggestion of less than
/// nothing is none.
pub proof fn law_shift_of_booking(booking: BookingModel, secs: int)
    ensures
        ({
            let top = booking.shifted(secs, true);
            let anew = booking.shifted(secs, false);
            let from = suggested_or_worked(booking.suggested_duration, booking.duration);
            &&& top.duration == booking.duration && anew.duration == booking.duration
            &&& top.based_on_entries == booking.based_on_entries
            &&& anew.based_on_entries == booking.based_on_entries
            &&& from + secs * 1_000_000_000 < 0 ==> top.suggested_duration is None
            &&& booking.duration + secs * 1_000_000_000 < 0 ==> anew.suggested_duration is None
            &&& 0 <= from + secs * 1_000_000_000 <= u64::MAX * 1_000_000_000 + 999_999_999
                ==> top.suggested_duration == Some((from + secs * 1_000_000_000) as nat)
            &&& 0 <= booking.duration + secs * 1_000_000_000 <= u64::MAX * 1_000_000_000
                + 999_999_999 ==> anew.suggested_duration == Some(
                (booking.duration + secs * 1_000_000_000) as nat,
            )
        }),
{
}

/// What rounding takes away are the whole seconds that were worked, less those that are
/// suggested then.
pub proof fn law_rounded_away(booking: BookingModel)
    ensures
        booking.normalized().suggested_duration is Some,
        booking.rounded_away() * 1_000_000_000 == booking.duration / 1_000_000_000 * 1_000_000_000
            - booking.normalized().suggested_duration->0,
        booking.normalized().duration == booking.duration,
        booking.normalized().based_on_entries == booking.based_on_entries,
{
    let minutes = whole_secs(booking.duration) / 60;
    assert((minutes + 4) / 5 * 300 >= 0);
}

/// A day of bookings can be rounded: nobody works longer on something than a day has hours.
pub proof fn law_days_can_be_rounded(bookings: Seq<BookingLine>)
    requires
        bookings.len() <= 1_000_000_000,
        forall|i: int|
            0 <= i < bookings.len() ==> (#[trigger] bookings[i]).1.duration
                <= 86_400_000_000_000,
    ensures
        can_normalize(bookings),
{
    assert forall|i: int|
        0 <= i < bookings.len() && (#[trigger] bookings[i]).0.bookable() implies can_round(
        bookings[i].1.duration,
    ) by {
        lemma_rounded_day(bookings[i].1.duration);
    }
    lemma_rounded_days(bookings);
}

proof fn lemma_rounded_day(nanos: nat)
    requires
        nanos <= 86_400_000_000_000,
    ensures
        0 <= five_minutes(nanos) <= 86_700,
{
    assert(whole_secs(nanos) <= 86_400);
}

proof fn lemma_rounded_days(bookings: Seq<BookingLine>)
    requires
        forall|i: int|
            0 <= i < bookings.len() ==> (#[trigger] bookings[i]).1.duration
                <= 86_400_000_000_000,
    ensures
        all_rounded(bookings) <= 86_700 * bookings.len(),
    decreases bookings.len(),
{
    if bookings.len() > 0 {
        let front = bookings.drop_last();
        assert forall|i: int| 0 <= i < front.len() implies (#[trigger] front[i]).1.duration
            <= 86_400_000_000_000 by {
            assert(front[i] == bookings[i]);
        }
        lemma_rounded_days(front);
        assert(bookings[bookings.len() - 1] == bookings.last());
        lemma_rounded_day(bookings.last().1.duration);
    }
}

/// Rounding changes nothing of a day but its bookings, and of these neither how many there are
/// nor what they are for.
pub proof fn law_rounding_keeps_day(day: DateModel)
    ensures
        day.normalized().date == day.date,
        day.normalized().total_duration == day.total_duration,
        day.normalized().actual_duration == day.actual_duration,
        day.normalized().jira_data == day.jira_data,
        day.normalized().list == day.list,
        day.normalized().state == day.state,
        day.normalized().bookings.len() == day.bookings.len(),
        forall|i: int|
            0 <= i < day.bookings.len() ==> (#[trigger] day.normalized().bookings[i]).0
                == day.bookings[i].0,
{
    lemma_first_taker(all_normalized(day.bookings), all_rounded_away(day.bookings));
}

} // verus!
