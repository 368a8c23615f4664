//! Text operations on paths and arguments: containment, prefixes, case
//! folding and decimal numbers.

use vstd::prelude::*;

verus! {

/// Whether `needle` stands in `hay` at position `at`.
pub open spec fn occurs_at(hay: Seq<char>, needle: Seq<char>, at: int) -> bool {
    &&& 0 <= at
    &&& at + needle.len() <= hay.len()
    &&& hay.subrange(at, at + needle.len()) == needle
}

/// Whether `needle` is a contiguous part of `hay`.
pub open spec fn contains(hay: Seq<char>, needle: Seq<char>) -> bool {
    exists|at: int| occurs_at(hay, needle, at)
}

/// The lower-case form of `text`, as `str::to_lowercase` computes it.
pub uninterp spec fn lowercase(text: Seq<char>) -> Seq<char>;

/// Calls `str::to_lowercase`, which folds by Unicode's rules for lower case
/// and may change the number of characters. Nothing is claimed of the result
/// but that it depends on the text alone.
#[verifier::external_body]
pub(crate) fn to_lowercase(text: &str) -> (r: String)
    ensures
        r@ == lowercase(text@),
{
    text.to_lowercase()
}

/// Calls `str::contains` with a string pattern: true exactly when the pattern
/// occurs somewhere in the text as a contiguous run of characters.
#[verifier::external_body]
pub(crate) fn has_part(hay: &str, needle: &str) -> (r: bool)
    ensures
        r == contains(hay@, needle@),
{
    hay.contains(needle)
}

/// Whether `text` begins with `prefix`.
pub fn starts_with(text: &str, prefix: &str) -> (r: bool)
    ensures
        r == prefix@.is_prefix_of(text@),
{
    let n: usize = prefix.unicode_len();
    if text.unicode_len() < n {
        return false;
    }
    let mut i: usize = 0;
    while i < n
        invariant
            i <= n,
            n == prefix@.len(),
            n <= text@.len(),
            forall|k: int| 0 <= k < i ==> text@[k] == prefix@[k],
        decreases n - i,
    {
        if text.get_char(i) != prefix.get_char(i) {
            return false;
        }
        i += 1;
    }
    assert(text@.subrange(0, n as int) =~= prefix@);
    true
}

/// Whether the two texts are the same.
pub fn same(a: &str, b: &str) -> (r: bool)
    ensures
        r == (a@ == b@),
{
    if a.unicode_len() != b.unicode_len() {
        return false;
    }
    let r = starts_with(a, b);
    assert(a@.subrange(0, b@.len() as int) =~= a@);
    r
}

/// Whether `c` is one of the ten decimal digits.
pub open spec fn is_digit(c: char) -> bool {
    '0' <= c <= '9'
}

/// The number that the digit `c` stands for.
pub open spec fn digit_value(c: char) -> nat
    recommends
        is_digit(c),
{
    (c as int - '0' as int) as nat
}

/// Whether `text` holds decimal digits only.
pub open spec fn all_digits(text: Seq<char>) -> bool {
    forall|i: int| 0 <= i < text.len() ==> is_digit(#[trigger] text[i])
}

/// The number that a run of decimal digits stands for.
pub open spec fn decimal(digits: Seq<char>) -> nat
    decreases digits.len(),
{
    if digits.len() == 0 {
        0
    } else {
        decimal(digits.drop_last()) * 10 + digit_value(digits.last())
    }
}

/// `text` without a leading plus sign.
pub open spec fn unsigned_part(text: Seq<char>) -> Seq<char> {
    if text.len() > 0 && text[0] == '+' {
        text.skip(1)
    } else {
        text
    }
}

/// The count that `text` spells: an optional plus sign, then at least one
/// decimal digit and nothing else, with a value that fits the machine word.
pub open spec fn count_of(text: Seq<char>) -> Option<usize> {
    let digits = unsigned_part(text);
    if digits.len() > 0 && all_digits(digits) && decimal(digits) <= usize::MAX {
        Some(decimal(digits) as usize)
    } else {
        None
    }
}

/// A longer run of digits stands for no smaller number than its beginning.
proof fn lemma_decimal_grows(digits: Seq<char>, k: int)
    requires
        0 <= k <= digits.len(),
    ensures
        decimal(digits.take(k)) <= decimal(digits),
    decreases digits.len() - k,
{
    if k == digits.len() {
        assert(digits.take(k) =~= digits);
    } else {
        lemma_decimal_grows(digits.drop_last(), k);
        assert(digits.drop_last().take(k) =~= digits.take(k));
    }
}

/// Reads a count from `text`.
pub fn parse_count(text: &str) -> (r: Option<usize>)
    ensures
        r == count_of(text@),
{
    let n: usize = text.unicode_len();
    if n == 0 {
        return None;
    }
    let start: usize = if text.get_char(0) == '+' { 1 } else { 0 };
    if start == n {
        return None;
    }
    let ghost digits = unsigned_part(text@);
    let mut value: usize = 0;
    let mut i: usize = start;
    while i < n
        invariant
            start <= i <= n,
            n == text@.len(),
            digits == text@.skip(start as int),
            digits == unsigned_part(text@),
            all_digits(digits.take(i - start)),
            value == decimal(digits.take(i - start)),
        decreases n - i,
    {
        let c: char = text.get_char(i);
        let ghost upto = digits.take(i - start + 1);
        assert(upto.drop_last() =~= digits.take(i - start));
        assert(upto.last() == c);
        if c < '0' || c > '9' {
            assert(!is_digit(digits[i - start]));
            return None;
        }
        let d: usize = (c as u32 - '0' as u32) as usize;
        if value > (usize::MAX - d) / 10 {
            proof {
                assert(decimal(upto) == value * 10 + d);
                lemma_decimal_grows(digits, i - start + 1);
            }
            return None;
        }
        value = value * 10 + d;
        i += 1;
    }
    assert(digits.take(n - start) =~= digits);
    Some(value)
}

} // verus!
