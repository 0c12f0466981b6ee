use vstd::prelude::*;

verus! {

/// Whether a character beyond ASCII has the Unicode `Alphabetic` property.
/// Named, not written out: the property is a function of the character
/// alone, and `char::is_alphabetic` is where the library learns it.
pub uninterp spec fn alphabetic_beyond_ascii(c: char) -> bool;

/// Whether a character beyond ASCII is Unicode-numeric (general categories
/// `Nd`, `Nl`, `No`), as `char::is_numeric` decides it.
pub uninterp spec fn numeric_beyond_ascii(c: char) -> bool;

/// The Unicode `Alphabetic` property. Within ASCII it holds exactly for the
/// letters; beyond ASCII the library takes `char::is_alphabetic`'s word.
pub open spec fn alphabetic(c: char) -> bool {
    if (c as u32) < 128 {
        (97 <= c as u32 && c as u32 <= 122) || (65 <= c as u32 && c as u32 <= 90)
    } else {
        alphabetic_beyond_ascii(c)
    }
}

/// Unicode-numeric. Within ASCII it holds exactly for the decimal digits.
pub open spec fn numeric(c: char) -> bool {
    if (c as u32) < 128 {
        48 <= c as u32 && c as u32 <= 57
    } else {
        numeric_beyond_ascii(c)
    }
}

/// Relies on char::is_alphabetic: the Unicode `Alphabetic` property, which
/// within ASCII holds exactly for `a`-`z` and `A`-`Z`.
#[verifier::external_body]
pub(crate) fn char_is_alphabetic(c: char) -> (r: bool)
    ensures
        r == alphabetic(c),
        (c as u32) >= 128 ==> r == alphabetic_beyond_ascii(c),
{
    c.is_alphabetic()
}

/// Relies on char::is_numeric: the Unicode numeric general categories, which
/// within ASCII hold exactly for `0`-`9`.
#[verifier::external_body]
pub(crate) fn char_is_numeric(c: char) -> (r: bool)
    ensures
        r == numeric(c),
        (c as u32) >= 128 ==> r == numeric_beyond_ascii(c),
{
    c.is_numeric()
}

/// An ASCII decimal digit.
pub open spec fn decimal_digit(c: char) -> bool {
    48 <= c as u32 && c as u32 <= 57
}

/// The value of an ASCII decimal digit.
pub open spec fn digit_value(c: char) -> int {
    c as u32 - 48
}

/// Every character of `s` is an ASCII decimal digit.
pub open spec fn all_decimal_digits(s: Seq<char>) -> bool {
    forall|k: int| 0 <= k < s.len() ==> decimal_digit(#[trigger] s[k])
}

/// The numeric value of a run of decimal digits, most significant first.
/// The empty run has value zero.
pub open spec fn decimal_value(s: Seq<char>) -> int
    decreases s.len(),
{
    if s.len() == 0 {
        0
    } else {
        decimal_value(s.drop_last()) * 10 + digit_value(s.last())
    }
}

pub proof fn lemma_decimal_value_nonneg(s: Seq<char>)
    requires
        all_decimal_digits(s),
    ensures
        decimal_value(s) >= 0,
    decreases s.len(),
{
    if s.len() > 0 {
        assert(all_decimal_digits(s.drop_last())) by {
            assert(forall|k: int|
                0 <= k < s.len() - 1 ==> s.drop_last()[k] == #[trigger] s[k]);
        }
        lemma_decimal_value_nonneg(s.drop_last());
    }
}

/// Appending further digits never shrinks the value: the value of a prefix
/// of a digit run is at most the value of the whole run.
pub proof fn lemma_decimal_prefix_le(s: Seq<char>, k: int)
    requires
        all_decimal_digits(s),
        0 <= k <= s.len(),
    ensures
        decimal_value(s.take(k)) <= decimal_value(s),
    decreases s.len() - k,
{
    if k < s.len() {
        assert(s.take(k + 1).drop_last() =~= s.take(k));
        assert(s.take(k + 1).last() == s[k]);
        assert(all_decimal_digits(s.take(k))) by {
            assert(forall|m: int| 0 <= m < k ==> s.take(k)[m] == #[trigger] s[m]);
        }
        lemma_decimal_value_nonneg(s.take(k));
        assert(decimal_value(s.take(k + 1)) == decimal_value(s.take(k)) * 10 + digit_value(s[k]));
        lemma_decimal_prefix_le(s, k + 1);
    } else {
        assert(s.take(k) =~= s);
    }
}

/// Relies on str::chars: the characters of the string in order, which is
/// also what vstd takes as the string's view.
#[verifier::external_body]
pub(crate) fn str_chars(s: &str) -> (r: Vec<char>)
    ensures
        r@ == s@,
{
    s.chars().collect()
}

/// Relies on String's FromIterator impl: collecting characters builds the
/// string of exactly those characters in order.
#[verifier::external_body]
pub(crate) fn chars_to_string(v: &Vec<char>) -> (r: String)
    ensures
        r@ == v@,
{
    v.iter().collect()
}

} // verus!
