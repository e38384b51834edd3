//! The scalar literals of the format: which text denotes an integer of 64
//! bits with a sign, which one is a decimal literal, and which word is a
//! boolean.

use vstd::prelude::*;
use crate::chars::{ascii_digit, is_ascii_digit};

verus! {

/// The number that a decimal digit stands for.
pub open spec fn digit_value(c: char) -> int {
    c as int - '0' as int
}

/// Whether `s` is made of decimal digits only. The empty text is.
pub open spec fn all_digits(s: Seq<char>) -> bool {
    forall|i: int| 0 <= i < s.len() ==> is_ascii_digit(#[trigger] s[i])
}

/// The number that a text of decimal digits denotes, the first digit being the
/// most significant one. The empty text denotes zero.
pub open spec fn decimal_value(digits: Seq<char>) -> int
    decreases digits.len(),
{
    if digits.len() == 0 {
        0
    } else {
        decimal_value(digits.drop_last()) * 10 + digit_value(digits.last())
    }
}

/// The text without its sign.
pub open spec fn unsigned_part(text: Seq<char>) -> Seq<char> {
    if text.len() > 0 && text[0] == '-' {
        text.drop_first()
    } else {
        text
    }
}

/// The number that a signed text denotes, whatever its size: the value of the
/// digits, negated where the text begins with `-`.
pub open spec fn signed_value(text: Seq<char>) -> int {
    if text.len() > 0 && text[0] == '-' {
        -decimal_value(text.drop_first())
    } else {
        decimal_value(text)
    }
}

/// The integer that `text` denotes: an optional `-`, then one decimal digit or
/// more, nothing else, and a value that fits in 64 bits with a sign. Any other
/// text denotes none.
pub open spec fn integer_value(text: Seq<char>) -> Option<int> {
    let digits = unsigned_part(text);
    if digits.len() > 0 && all_digits(digits) && i64::MIN <= signed_value(text) <= i64::MAX {
        Some(signed_value(text))
    } else {
        None
    }
}

/// Whether `text` is a decimal literal: an optional `-`, then decimal digits
/// with at most one `.` before, among or behind them, and one digit at least.
pub open spec fn is_decimal_literal(text: Seq<char>) -> bool {
    let body = unsigned_part(text);
    &&& forall|i: int| 0 <= i < body.len() ==> is_ascii_digit(#[trigger] body[i]) || body[i] == '.'
    &&& exists|i: int| 0 <= i < body.len() && is_ascii_digit(#[trigger] body[i])
    &&& forall|i: int, j: int|
        0 <= i < j < body.len() ==> !(#[trigger] body[i] == '.' && #[trigger] body[j] == '.')
}

/// The word `true`.
pub open spec fn word_true() -> Seq<char> {
    seq!['t', 'r', 'u', 'e']
}

/// The word `false`.
pub open spec fn word_false() -> Seq<char> {
    seq!['f', 'a', 'l', 's', 'e']
}

/// The boolean that `word` denotes: `true` and `false` denote themselves, and
/// no other word denotes one.
pub open spec fn boolean_value(word: Seq<char>) -> Option<bool> {
    if word == word_true() {
        Some(true)
    } else if word == word_false() {
        Some(false)
    } else {
        None
    }
}

/// The value of digits is not negative.
pub proof fn lemma_decimal_value_nonnegative(digits: Seq<char>)
    requires
        all_digits(digits),
    ensures
        decimal_value(digits) >= 0,
    decreases digits.len(),
{
    if digits.len() > 0 {
        lemma_decimal_value_nonnegative(digits.drop_last());
    }
}

/// Reading one more digit multiplies the value by ten and adds the digit.
pub proof fn lemma_decimal_value_step(digits: Seq<char>, k: int)
    requires
        0 <= k < digits.len(),
    ensures
        decimal_value(digits.take(k + 1)) == decimal_value(digits.take(k)) * 10 + digit_value(
            digits[k],
        ),
{
    assert(digits.take(k + 1).drop_last() =~= digits.take(k));
}

/// Further digits never make the value smaller.
pub proof fn lemma_decimal_value_grows(digits: Seq<char>, k: int)
    requires
        all_digits(digits),
        0 <= k <= digits.len(),
    ensures
        0 <= decimal_value(digits.take(k)) <= decimal_value(digits),
    decreases digits.len() - k,
{
    lemma_decimal_value_nonnegative(digits.take(k));
    if k == digits.len() {
        assert(digits.take(k) =~= digits);
    } else {
        lemma_decimal_value_step(digits, k);
        lemma_decimal_value_grows(digits, k + 1);
    }
}

/// Reads `text` as a decimal integer of 64 bits with a sign.
pub fn integer_from_text(text: &[char]) -> (r: Option<i64>)
    ensures
        match r {
            Some(v) => integer_value(text@) == Some(v as int),
            None => integer_value(text@) is None,
        },
{
    let negative = text.len() > 0 && text[0] == '-';
    let start: usize = if negative { 1 } else { 0 };
    if text.len() == start {
        return None;
    }
    let limit: u64 = if negative { 0x8000_0000_0000_0000 } else { 0x7fff_ffff_ffff_ffff };
    let ghost digits = unsigned_part(text@);
    let mut magnitude: u64 = 0;
    let mut i: usize = start;
    while i < text.len()
        invariant
            start <= i <= text.len(),
            negative == (text@.len() > 0 && text@[0] == '-'),
            digits == unsigned_part(text@),
            digits == text@.skip(start as int),
            all_digits(digits.take(i - start)),
            magnitude == decimal_value(digits.take(i - start)),
            magnitude <= limit,
            limit == if negative { 0x8000_0000_0000_0000u64 } else { 0x7fff_ffff_ffff_ffffu64 },
        decreases text.len() - i,
    {
        let c = text[i];
        if !ascii_digit(c) {
            assert(digits[i - start] == c);
            return None;
        }
        let d: u64 = (c as u64) - ('0' as u64);
        proof {
            lemma_decimal_value_step(digits, i - start);
        }
        if magnitude > (limit - d) / 10 {
            proof {
                if all_digits(digits) {
                    lemma_decimal_value_grows(digits, i - start + 1);
                }
            }
            return None;
        }
        magnitude = magnitude * 10 + d;
        i += 1;
    }
    assert(digits.take(i - start) =~= digits);
    if negative {
        if magnitude == 0x8000_0000_0000_0000 {
            Some(i64::MIN)
        } else {
            Some(-(magnitude as i64))
        }
    } else {
        Some(magnitude as i64)
    }
}

/// Tells whether `text` is a decimal literal.
pub fn decimal_literal(text: &[char]) -> (b: bool)
    ensures
        b == is_decimal_literal(text@),
{
    let start: usize = if text.len() > 0 && text[0] == '-' { 1 } else { 0 };
    let ghost body = unsigned_part(text@);
    let mut seen_digit = false;
    let mut seen_point = false;
    let mut i: usize = start;
    while i < text.len()
        invariant
            start <= i <= text.len(),
            body == unsigned_part(text@),
            body == text@.skip(start as int),
            forall|j: int| 0 <= j < i - start ==> is_ascii_digit(#[trigger] body[j]) || body[j] == '.',
            seen_digit <==> exists|j: int| 0 <= j < i - start && is_ascii_digit(#[trigger] body[j]),
            seen_point <==> exists|j: int| 0 <= j < i - start && #[trigger] body[j] == '.',
            forall|j: int, k: int|
                0 <= j < k < i - start ==> !(#[trigger] body[j] == '.' && #[trigger] body[k] == '.'),
        decreases text.len() - i,
    {
        let c = text[i];
        assert(body[i - start] == c);
        if ascii_digit(c) {
            seen_digit = true;
        } else if c == '.' {
            if seen_point {
                return false;
            }
            seen_point = true;
        } else {
            return false;
        }
        i += 1;
    }
    seen_digit
}

/// Reads `word` as a boolean.
pub fn boolean_from_word(word: &[char]) -> (r: Option<bool>)
    ensures
        r == boolean_value(word@),
{
    if word.len() == 4 && word[0] == 't' && word[1] == 'r' && word[2] == 'u' && word[3] == 'e' {
        assert(word@ =~= word_true());
        Some(true)
    } else if word.len() == 5 && word[0] == 'f' && word[1] == 'a' && word[2] == 'l' && word[3]
        == 's' && word[4] == 'e' {
        assert(word@ =~= word_false());
        Some(false)
    } else {
        None
    }
}

} // verus!
