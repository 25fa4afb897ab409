//! Texts: decimal numbers, alignment, joining and ordering.

use vstd::prelude::*;

verus! {

/// The texts that a list of strings holds.
pub open spec fn texts(list: Seq<String>) -> Seq<Seq<char>> {
    list.map_values(|s: String| s@)
}

/// The character of a decimal digit.
pub open spec fn digit_char(d: nat) -> char {
    (48 + d) as char
}

/// A number in decimal, without leading zeros.
pub open spec fn decimal(n: nat) -> Seq<char>
    decreases n,
{
    if n < 10 {
        seq![digit_char(n)]
    } else {
        decimal(n / 10).push(digit_char(n % 10))
    }
}

/// A number in decimal, behind a minus if it is less than zero.
pub open spec fn signed(n: int) -> Seq<char> {
    if n < 0 {
        "-"@ + decimal((-n) as nat)
    } else {
        decimal(n as nat)
    }
}

/// `len` times the character `c`.
pub open spec fn repeated(c: char, len: nat) -> Seq<char> {
    Seq::new(len, |i: int| c)
}

/// The number of characters that `text` lacks to be `width` long.
pub open spec fn missing(text: Seq<char>, width: nat) -> nat {
    if text.len() < width {
        (width - text.len()) as nat
    } else {
        0
    }
}

/// A number in decimal, with zeros in front up to `width` digits.
pub open spec fn zero_padded(n: nat, width: nat) -> Seq<char> {
    repeated('0', missing(decimal(n), width)) + decimal(n)
}

/// `text` with spaces behind it up to `width` characters.
pub open spec fn left_aligned(text: Seq<char>, width: nat) -> Seq<char> {
    text + repeated(' ', missing(text, width))
}

/// `text` with spaces in front of it up to `width` characters.
pub open spec fn right_aligned(text: Seq<char>, width: nat) -> Seq<char> {
    repeated(' ', missing(text, width)) + text
}

/// The texts of `list`, with `separator` between each two.
pub open spec fn joined(list: Seq<Seq<char>>, separator: Seq<char>) -> Seq<char>
    decreases list.len(),
{
    if list.len() == 0 {
        Seq::empty()
    } else if list.len() == 1 {
        list[0]
    } else {
        joined(list.drop_last(), separator) + separator + list.last()
    }
}

/// Whether `a` comes before `b` in the order of their code points.
pub open spec fn precedes(a: Seq<char>, b: Seq<char>) -> bool
    decreases b.len(),
{
    if b.len() == 0 {
        false
    } else if a.len() == 0 {
        true
    } else if a[0] != b[0] {
        a[0] < b[0]
    } else {
        precedes(a.drop_first(), b.drop_first())
    }
}

/// The order of texts is irreflexive.
pub proof fn lemma_precedes_irreflexive(a: Seq<char>)
    ensures
        !precedes(a, a),
    decreases a.len(),
{
    if a.len() > 0 {
        lemma_precedes_irreflexive(a.drop_first());
    }
}

/// The order of texts is transitive.
pub proof fn lemma_precedes_transitive(a: Seq<char>, b: Seq<char>, c: Seq<char>)
    requires
        precedes(a, b),
        precedes(b, c),
    ensures
        precedes(a, c),
    decreases b.len(),
{
    if a.len() > 0 && a[0] == b[0] && b[0] == c[0] {
        lemma_precedes_transitive(a.drop_first(), b.drop_first(), c.drop_first());
    }
}

/// Two different texts are ordered one way or the other.
pub proof fn lemma_precedes_total(a: Seq<char>, b: Seq<char>)
    ensures
        a == b || precedes(a, b) || precedes(b, a),
    decreases a.len(),
{
    if a.len() > 0 && b.len() > 0 && a[0] == b[0] {
        lemma_precedes_total(a.drop_first(), b.drop_first());
        if a.drop_first() == b.drop_first() {
            assert(a =~= seq![a[0]] + a.drop_first());
            assert(b =~= seq![b[0]] + b.drop_first());
        }
    } else if a.len() == 0 && b.len() == 0 {
        assert(a =~= b);
    }
}

/// The text of one decimal digit.
fn digit_text(d: u64) -> (r: &'static str)
    requires
        d < 10,
    ensures
        r@ == seq![digit_char(d as nat)],
{
    proof {
        reveal_strlit("0");
        reveal_strlit("1");
        reveal_strlit("2");
        reveal_strlit("3");
        reveal_strlit("4");
        reveal_strlit("5");
        reveal_strlit("6");
        reveal_strlit("7");
        reveal_strlit("8");
        reveal_strlit("9");
    }
    if d == 0 {
        "0"
    } else if d == 1 {
        "1"
    } else if d == 2 {
        "2"
    } else if d == 3 {
        "3"
    } else if d == 4 {
        "4"
    } else if d == 5 {
        "5"
    } else if d == 6 {
        "6"
    } else if d == 7 {
        "7"
    } else if d == 8 {
        "8"
    } else {
        "9"
    }
}

/// `n` in decimal.
pub fn decimal_text(n: u64) -> (r: String)
    ensures
        r@ == decimal(n as nat),
    decreases n,
{
    if n < 10 {
        String::from_str(digit_text(n))
    } else {
        decimal_text(n / 10).concat(digit_text(n % 10))
    }
}

/// `n` in decimal, behind a minus if it is less than zero.
pub fn signed_text(n: i32) -> (r: String)
    ensures
        r@ == signed(n as int),
{
    if n < 0 {
        String::from_str("-").concat(decimal_text((-(n as i64)) as u64).as_str())
    } else {
        decimal_text(n as u64)
    }
}

/// `len` times the one character of `unit`.
fn repeated_text(unit: &str, len: usize) -> (r: String)
    requires
        unit@.len() == 1,
    ensures
        r@ == repeated(unit@[0], len as nat),
{
    let mut r = String::new();
    assert(r@ =~= repeated(unit@[0], 0));
    for i in 0..len
        invariant
            unit@.len() == 1,
            r@ == repeated(unit@[0], i as nat),
    {
        r.append(unit);
        assert(r@ =~= repeated(unit@[0], (i + 1) as nat));
    }
    r
}

/// `n` in decimal, with zeros in front up to `width` digits.
pub fn zero_padded_text(n: u64, width: usize) -> (r: String)
    ensures
        r@ == zero_padded(n as nat, width as nat),
{
    let digits = decimal_text(n);
    let len: usize = digits.as_str().unicode_len();
    let gap: usize = if len < width { width - len } else { 0 };
    proof {
        reveal_strlit("0");
    }
    repeated_text("0", gap).concat(digits.as_str())
}

/// `text` with spaces behind it up to `width` characters.
pub fn left_aligned_text(text: &str, width: usize) -> (r: String)
    ensures
        r@ == left_aligned(text@, width as nat),
{
    let len: usize = text.unicode_len();
    let gap: usize = if len < width { width - len } else { 0 };
    proof {
        reveal_strlit(" ");
    }
    String::from_str(text).concat(repeated_text(" ", gap).as_str())
}

/// `text` with spaces in front of it up to `width` characters.
pub fn right_aligned_text(text: &str, width: usize) -> (r: String)
    ensures
        r@ == right_aligned(text@, width as nat),
{
    let len: usize = text.unicode_len();
    let gap: usize = if len < width { width - len } else { 0 };
    proof {
        reveal_strlit(" ");
    }
    repeated_text(" ", gap).concat(text)
}

/// The strings of `list`, with `separator` between each two.
pub fn joined_text(list: &Vec<String>, separator: &str) -> (r: String)
    ensures
        r@ == joined(texts(list@), separator@),
{
    let mut r = String::new();
    let ghost all = texts(list@);
    assert(all.take(0).len() == 0);
    for i in 0..list.len()
        invariant
            all == texts(list@),
            r@ == joined(all.take(i as int), separator@),
    {
        if i > 0 {
            r.append(separator);
        }
        r.append(list[i].as_str());
        proof {
            assert(all.take(i + 1).drop_last() =~= all.take(i as int));
            assert(all.take(i + 1).last() == list@[i as int]@);
            if i == 0 {
                assert(all.take(0) =~= Seq::empty());
                assert(r@ =~= all.take(1)[0]);
            }
        }
    }
    assert(all.take(list.len() as int) =~= all);
    r
}

/// Whether `a` comes before `b` in the order of their code points.
pub fn text_precedes(a: &str, b: &str) -> (r: bool)
    ensures
        r == precedes(a@, b@),
{
    let a_len: usize = a.unicode_len();
    let b_len: usize = b.unicode_len();
    let mut i: usize = 0;
    assert(a@.skip(0) =~= a@);
    assert(b@.skip(0) =~= b@);
    while i < a_len && i < b_len
        invariant
            a_len == a@.len(),
            b_len == b@.len(),
            i <= a_len,
            i <= b_len,
            precedes(a@, b@) == precedes(a@.skip(i as int), b@.skip(i as int)),
        decreases a_len - i,
    {
        let x = a.get_char(i);
        let y = b.get_char(i);
        if x != y {
            return x < y;
        }
        assert(a@.skip(i as int).drop_first() =~= a@.skip(i + 1));
        assert(b@.skip(i as int).drop_first() =~= b@.skip(i + 1));
        i += 1;
    }
    i < b_len
}

/// The number that digits stand for.
pub open spec fn number_of(digits: Seq<char>) -> int
    decreases digits.len(),
{
    if digits.len() == 0 {
        0
    } else {
        number_of(digits.drop_last()) * 10 + (digits.last() as int - '0' as int)
    }
}

/// A number in decimal is made of digits, stands for the number, and starts with a zero only if
/// it is zero.
pub proof fn law_decimal(n: nat)
    ensures
        number_of(decimal(n)) == n,
        decimal(n).len() > 0,
        forall|i: int| 0 <= i < decimal(n).len() ==> '0' <= #[trigger] decimal(n)[i] <= '9',
        n > 0 ==> decimal(n)[0] != '0',
        n == 0 ==> decimal(n) == seq!['0'],
    decreases n,
{
    if n < 10 {
        assert(decimal(n) =~= seq![digit_char(n)]);
        assert(decimal(n).drop_last() =~= Seq::empty());
        assert(number_of(Seq::empty()) == 0);
        assert(number_of(decimal(n)) == decimal(n).last() as int - '0' as int);
    } else {
        law_decimal(n / 10);
        let front = decimal(n / 10);
        assert(decimal(n).drop_last() =~= front);
        assert(decimal(n)[0] == front[0]);
    }
}

/// Zeros in front do not change the number, and there are only as many as are missing.
pub proof fn law_zero_padded(n: nat, width: nat)
    ensures
        number_of(zero_padded(n, width)) == n,
        zero_padded(n, width).len() == if decimal(n).len() < width {
            width
        } else {
            decimal(n).len()
        },
        decimal(n).len() >= width ==> zero_padded(n, width) == decimal(n),
{
    law_decimal(n);
    lemma_leading_zeros(missing(decimal(n), width), decimal(n));
    assert(decimal(n).len() >= width ==> zero_padded(n, width) =~= decimal(n));
}

proof fn lemma_leading_zeros(zeros: nat, digits: Seq<char>)
    ensures
        number_of(repeated('0', zeros) + digits) == number_of(digits),
    decreases zeros + digits.len(),
{
    let all = repeated('0', zeros) + digits;
    if digits.len() > 0 {
        assert(all.drop_last() =~= repeated('0', zeros) + digits.drop_last());
        lemma_leading_zeros(zeros, digits.drop_last());
    } else if zeros > 0 {
        assert(all.drop_last() =~= repeated('0', (zeros - 1) as nat) + digits);
        lemma_leading_zeros((zeros - 1) as nat, digits);
    } else {
        assert(all =~= digits);
    }
}

/// A text that is aligned is as wide as asked, or as it is, and has nothing but spaces beside it:
/// behind it on the left, in front of it on the right.
pub proof fn law_aligned(text: Seq<char>, width: nat)
    ensures
        ({
            let left = left_aligned(text, width);
            let right = right_aligned(text, width);
            let len = if text.len() < width {
                width
            } else {
                text.len()
            };
            &&& left.len() == len && right.len() == len
            &&& left.take(text.len() as int) == text
            &&& right.skip(len - text.len()) == text
            &&& forall|i: int| text.len() <= i < len ==> #[trigger] left[i] == ' '
            &&& forall|i: int| 0 <= i < len - text.len() ==> #[trigger] right[i] == ' '
        }),
{
    let len = if text.len() < width {
        width
    } else {
        text.len()
    };
    assert(left_aligned(text, width).take(text.len() as int) =~= text);
    assert(right_aligned(text, width).skip(len - text.len()) =~= text);
}

/// Joining a text to others puts the separator between, unless it is the only one.
pub proof fn law_joined(list: Seq<Seq<char>>, text: Seq<char>, separator: Seq<char>)
    ensures
        joined(Seq::empty(), separator) == Seq::<char>::empty(),
        joined(seq![text], separator) == text,
        list.len() > 0 ==> joined(list.push(text), separator) == joined(list, separator)
            + separator + text,
{
    assert(list.push(text).drop_last() =~= list);
}

/// A text comes before another exactly if it is a beginning of it, or if it has the smaller
/// character where they first differ.
pub proof fn law_text_order(a: Seq<char>, b: Seq<char>, k: int)
    requires
        0 <= k <= a.len(),
        k <= b.len(),
        a.take(k) == b.take(k),
        k < a.len() && k < b.len() ==> a[k] != b[k],
    ensures
        precedes(a, b) <==> (k == a.len() && k < b.len()) || (k < a.len() && k < b.len() && a[k]
            < b[k]),
    decreases k,
{
    if k > 0 {
        assert(a[0] == a.take(k)[0]);
        assert(b[0] == b.take(k)[0]);
        assert(a.drop_first().take(k - 1) =~= a.take(k).drop_first());
        assert(b.drop_first().take(k - 1) =~= b.take(k).drop_first());
        law_text_order(a.drop_first(), b.drop_first(), k - 1);
    }
}

/// A number less than zero is written as the number without its sign behind a minus.
pub proof fn law_signed(n: int)
    ensures
        n >= 0 ==> signed(n) == decimal(n as nat),
        n < 0 ==> signed(n) == "-"@ + decimal((-n) as nat),
{
}

} // verus!
