//! The ways in which a text can fail to parse.

use vstd::prelude::*;

verus! {

/// Why a parse stopped. The first failure ends the parse: nothing is
/// collected, nothing is skipped, and no partial tree is handed out.
#[derive(Clone, Copy, Debug, PartialEq, Eq)]
pub enum ParseError {
    /// The input ended where a value was required.
    UnexpectedEndOfInput,
    /// A string literal was opened and never closed.
    UnterminatedString,
    /// The text of an integer literal is not a decimal number that fits in
    /// 64 bits with a sign.
    InvalidInteger,
    /// The text of a double literal is not a decimal number.
    InvalidDouble,
    /// The word after `~` is neither `true` nor `false`.
    InvalidBoolean,
    /// The character begins no value.
    UnexpectedCharacter(char),
    /// An object key was required and no identifier was found.
    ExpectedIdentifier,
    /// Something other than whitespace follows the root value.
    TrailingCharacters,
}

} // verus!
