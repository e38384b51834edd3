//! Character classes of the format: which scalar values separate tokens and
//! which ones may stand inside a number, a word or an identifier.

use vstd::prelude::*;

verus! {

/// The Unicode `Alphabetic` property, as the standard library's tables have it.
pub uninterp spec fn unicode_alphabetic(c: char) -> bool;

/// The union of the Unicode `Alphabetic` property and the numeric general
/// categories, as the standard library's tables have it.
pub uninterp spec fn unicode_alphanumeric(c: char) -> bool;

/// `char::is_alphabetic` of the standard library. The property takes a table of
/// several hundred ranges to write down, so the contract only gives the answer
/// a name: it is a fixed function of the character.
pub assume_specification[ char::is_alphabetic ](c: char) -> (b: bool)
    ensures
        b == unicode_alphabetic(c),
;

/// `char::is_alphanumeric` of the standard library: true of the characters that
/// are alphabetic or numeric. As for `char::is_alphabetic`, the contract only
/// names the answer.
pub assume_specification[ char::is_alphanumeric ](c: char) -> (b: bool)
    ensures
        b == unicode_alphanumeric(c),
;

/// The ten decimal digits `0` to `9`.
pub open spec fn is_ascii_digit(c: char) -> bool {
    '0' <= c <= '9'
}

/// The fifty-two letters `A` to `Z` and `a` to `z`.
pub open spec fn is_ascii_letter(c: char) -> bool {
    ('a' <= c <= 'z') || ('A' <= c <= 'Z')
}

/// The characters with the Unicode `White_Space` property: the separators of
/// the format.
pub open spec fn is_whitespace(c: char) -> bool {
    ||| '\u{9}' <= c <= '\u{d}'
    ||| c == ' '
    ||| c == '\u{85}'
    ||| c == '\u{a0}'
    ||| c == '\u{1680}'
    ||| '\u{2000}' <= c <= '\u{200a}'
    ||| c == '\u{2028}'
    ||| c == '\u{2029}'
    ||| c == '\u{202f}'
    ||| c == '\u{205f}'
    ||| c == '\u{3000}'
}

/// The characters of a word: the ASCII letters, and beyond ASCII whatever is
/// alphabetic and not a separator.
pub open spec fn is_alphabetic(c: char) -> bool {
    if c <= '\u{7f}' {
        is_ascii_letter(c)
    } else {
        !is_whitespace(c) && unicode_alphabetic(c)
    }
}

/// The characters of a name: the ASCII letters and digits, and beyond ASCII
/// whatever is alphabetic or numeric and not a separator.
pub open spec fn is_alphanumeric(c: char) -> bool {
    if c <= '\u{7f}' {
        is_ascii_letter(c) || is_ascii_digit(c)
    } else {
        !is_whitespace(c) && unicode_alphanumeric(c)
    }
}

/// A set of characters that a token is made of. A token is always a maximal
/// run of characters of one class.
#[derive(Clone, Copy, Debug, PartialEq, Eq)]
pub enum CharClass {
    /// Separators: see [`is_whitespace`].
    Whitespace,
    /// The decimal digits.
    Digit,
    /// What an integer literal is cut from: the decimal digits and `-`.
    IntegerText,
    /// What a decimal literal is cut from: the decimal digits, `.` and `-`.
    DecimalText,
    /// What the word after `~` is cut from: see [`is_alphabetic`].
    Alphabetic,
    /// See [`is_alphanumeric`].
    Alphanumeric,
    /// What an object key is cut from: alphanumeric characters and `_`.
    Identifier,
    /// What may stand inside a string literal: anything but `"`.
    Verbatim,
}

impl CharClass {
    /// Whether `c` belongs to the class.
    pub open spec fn contains(self, c: char) -> bool {
        match self {
            CharClass::Whitespace => is_whitespace(c),
            CharClass::Digit => is_ascii_digit(c),
            CharClass::IntegerText => is_ascii_digit(c) || c == '-',
            CharClass::DecimalText => is_ascii_digit(c) || c == '.' || c == '-',
            CharClass::Alphabetic => is_alphabetic(c),
            CharClass::Alphanumeric => is_alphanumeric(c),
            CharClass::Identifier => is_alphanumeric(c) || c == '_',
            CharClass::Verbatim => c != '"',
        }
    }

    /// Tests whether `c` belongs to the class.
    pub fn accepts(&self, c: char) -> (b: bool)
        ensures
            b == self.contains(c),
    {
        match self {
            CharClass::Whitespace => whitespace(c),
            CharClass::Digit => ascii_digit(c),
            CharClass::IntegerText => ascii_digit(c) || c == '-',
            CharClass::DecimalText => ascii_digit(c) || c == '.' || c == '-',
            CharClass::Alphabetic => alphabetic(c),
            CharClass::Alphanumeric => alphanumeric(c),
            CharClass::Identifier => alphanumeric(c) || c == '_',
            CharClass::Verbatim => c != '"',
        }
    }
}

/// Tests for a decimal digit.
pub fn ascii_digit(c: char) -> (b: bool)
    ensures
        b == is_ascii_digit(c),
{
    '0' <= c && c <= '9'
}

/// Tests for a separator.
pub fn whitespace(c: char) -> (b: bool)
    ensures
        b == is_whitespace(c),
{
    if c <= '\u{7f}' {
        ('\u{9}' <= c && c <= '\u{d}') || c == ' '
    } else {
        c == '\u{85}' || c == '\u{a0}' || c == '\u{1680}' || ('\u{2000}' <= c && c <= '\u{200a}')
            || c == '\u{2028}' || c == '\u{2029}' || c == '\u{202f}' || c == '\u{205f}' || c
            == '\u{3000}'
    }
}

/// Tests for a character of a word. Separators are ruled out before the
/// standard library's table is asked, so a separator never continues a word.
pub fn alphabetic(c: char) -> (b: bool)
    ensures
        b == is_alphabetic(c),
{
    if c <= '\u{7f}' {
        ('a' <= c && c <= 'z') || ('A' <= c && c <= 'Z')
    } else if whitespace(c) {
        false
    } else {
        c.is_alphabetic()
    }
}

/// Tests for a character of a name. Separators are ruled out before the
/// standard library's table is asked, so a separator never continues a name.
pub fn alphanumeric(c: char) -> (b: bool)
    ensures
        b == is_alphanumeric(c),
{
    if c <= '\u{7f}' {
        ('a' <= c && c <= 'z') || ('A' <= c && c <= 'Z') || ('0' <= c && c <= '9')
    } else if whitespace(c) {
        false
    } else {
        c.is_alphanumeric()
    }
}

/// Whitespace is part of no number, word or key, and it neither opens nor
/// closes anything.
pub proof fn lemma_whitespace_ends_tokens(c: char)
    requires
        is_whitespace(c),
    ensures
        !CharClass::Digit.contains(c),
        !CharClass::IntegerText.contains(c),
        !CharClass::DecimalText.contains(c),
        !CharClass::Alphabetic.contains(c),
        !CharClass::Alphanumeric.contains(c),
        !CharClass::Identifier.contains(c),
        c != '"' && c != '#' && c != '^' && c != '*' && c != '~' && c != '?',
        c != '[' && c != ']' && c != '{' && c != '}',
{
}

} // verus!
