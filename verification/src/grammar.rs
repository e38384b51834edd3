//! The grammar of the format, as functions from the text that remains to the
//! value that is read and the text behind it.
//!
//! A value is introduced by its first character. Values inside an array, and
//! keys and values inside an object, are separated by whitespace or by
//! nothing at all; no delimiter character exists.

use vstd::prelude::*;
use crate::chars::{is_ascii_digit, CharClass};
use crate::element::{Member, Tree};
use crate::error::ParseError;
use crate::literal::{boolean_value, integer_value, is_decimal_literal};
use crate::scan::{after_run, lemma_after_run_idempotent, lemma_run_len, run};

verus! {

/// What reading one production from a text gives: the value or the failure,
/// and the text that is left behind the last character consumed.
pub struct Parsed<T> {
    pub result: Result<T, ParseError>,
    pub rest: Seq<char>,
}

/// What a list yields once `prefix` has been read and `others` is the outcome
/// of reading on: the whole list, or the failure.
pub open spec fn following<T>(prefix: Seq<T>, others: Result<Seq<T>, ParseError>) -> Result<
    Seq<T>,
    ParseError,
> {
    match others {
        Ok(more) => Ok(prefix + more),
        Err(e) => Err(e),
    }
}

/// The text behind its leading whitespace.
pub open spec fn skip_whitespace(s: Seq<char>) -> Seq<char> {
    after_run(s, CharClass::Whitespace)
}

/// A string literal behind its opening quote: everything up to the next `"`,
/// taken verbatim. The closing quote is consumed. A text without a closing
/// quote is consumed whole and fails.
pub open spec fn string_literal(body: Seq<char>) -> Parsed<Tree> {
    let closing = after_run(body, CharClass::Verbatim);
    if closing.len() == 0 {
        Parsed { result: Err(ParseError::UnterminatedString), rest: closing }
    } else {
        Parsed {
            result: Ok(Tree::String(run(body, CharClass::Verbatim))),
            rest: closing.drop_first(),
        }
    }
}

/// An integer literal, with or without a sigil in front of it: the longest
/// run of digits and `-`, read as a decimal number of 64 bits with a sign.
pub open spec fn integer_literal(s: Seq<char>) -> Parsed<Tree> {
    Parsed {
        result: match integer_value(run(s, CharClass::IntegerText)) {
            Some(v) => Ok(Tree::Integer(v)),
            None => Err(ParseError::InvalidInteger),
        },
        rest: after_run(s, CharClass::IntegerText),
    }
}

/// A double literal behind its sigil: the longest run of digits, `.` and `-`,
/// which has to be a decimal literal.
pub open spec fn double_literal(s: Seq<char>) -> Parsed<Tree> {
    let text = run(s, CharClass::DecimalText);
    Parsed {
        result: if is_decimal_literal(text) {
            Ok(Tree::Double(text))
        } else {
            Err(ParseError::InvalidDouble)
        },
        rest: after_run(s, CharClass::DecimalText),
    }
}

/// A boolean literal behind its sigil: the longest run of alphabetic
/// characters, which has to be `true` or `false`.
pub open spec fn boolean_literal(s: Seq<char>) -> Parsed<Tree> {
    Parsed {
        result: match boolean_value(run(s, CharClass::Alphabetic)) {
            Some(b) => Ok(Tree::Boolean(b)),
            None => Err(ParseError::InvalidBoolean),
        },
        rest: after_run(s, CharClass::Alphabetic),
    }
}

/// An object key: the longest run of alphanumeric characters and `_`, which
/// must not be empty.
pub open spec fn identifier(s: Seq<char>) -> Parsed<Seq<char>> {
    let name = run(s, CharClass::Identifier);
    Parsed {
        result: if name.len() > 0 {
            Ok(name)
        } else {
            Err(ParseError::ExpectedIdentifier)
        },
        rest: after_run(s, CharClass::Identifier),
    }
}

/// The array that the items are, once the closing bracket has been read.
pub open spec fn array_value(items: Parsed<Seq<Tree>>) -> Parsed<Tree> {
    Parsed {
        result: match items.result {
            Ok(trees) => Ok(Tree::Array(trees)),
            Err(e) => Err(e),
        },
        rest: items.rest,
    }
}

/// The object that the members are, once the closing bracket has been read.
pub open spec fn object_value(members: Parsed<Seq<Member>>) -> Parsed<Tree> {
    Parsed {
        result: match members.result {
            Ok(pairs) => Ok(Tree::Object(pairs)),
            Err(e) => Err(e),
        },
        rest: members.rest,
    }
}

/// Whether `c` begins a value: the sigils, the two opening brackets, the
/// digits and `-`.
pub open spec fn begins_value(c: char) -> bool {
    c == '"' || c == '#' || c == '^' || c == '*' || c == '~' || c == '?' || c == '[' || c == '{'
        || is_ascii_digit(c) || c == '-'
}

/// One value: whitespace is skipped, and the first character behind it
/// decides which production reads on.
pub open spec fn element(s: Seq<char>) -> Parsed<Tree>
    decreases s.len(), 0int,
{
    let t = skip_whitespace(s);
    if t.len() == 0 {
        Parsed { result: Err(ParseError::UnexpectedEndOfInput), rest: t }
    } else {
        let c = t[0];
        let body = t.drop_first();
        if c == '"' {
            string_literal(body)
        } else if c == '#' {
            integer_literal(body)
        } else if c == '^' || c == '*' {
            double_literal(body)
        } else if c == '~' {
            boolean_literal(body)
        } else if c == '?' {
            Parsed { result: Ok(Tree::Null), rest: body }
        } else if c == '[' {
            proof {
                lemma_run_len(s, CharClass::Whitespace);
            }
            array_value(array_items(body))
        } else if c == '{' {
            proof {
                lemma_run_len(s, CharClass::Whitespace);
            }
            object_value(object_members(body))
        } else if is_ascii_digit(c) || c == '-' {
            integer_literal(t)
        } else {
            Parsed { result: Err(ParseError::UnexpectedCharacter(c)), rest: t }
        }
    }
}

/// The items of an array behind its `[`: whitespace is skipped, then either a
/// `]` closes the array or one more value is read in front of the items that
/// follow it.
pub open spec fn array_items(s: Seq<char>) -> Parsed<Seq<Tree>>
    decreases s.len(), 1int,
{
    let t = skip_whitespace(s);
    if t.len() > 0 && t[0] == ']' {
        Parsed { result: Ok(Seq::empty()), rest: t.drop_first() }
    } else {
        proof {
            lemma_run_len(s, CharClass::Whitespace);
        }
        let first = element(t);
        match first.result {
            Err(e) => Parsed { result: Err(e), rest: first.rest },
            Ok(item) => {
                if first.rest.len() < t.len() {
                    let others = array_items(first.rest);
                    Parsed { result: following(seq![item], others.result), rest: others.rest }
                } else {
                    // A value consumes one character at least, so this is never reached.
                    Parsed { result: Err(ParseError::UnexpectedEndOfInput), rest: first.rest }
                }
            },
        }
    }
}

/// The members of an object behind its `{`: whitespace is skipped, then
/// either a `}` closes the object or a key and its value are read in front of
/// the members that follow them. No key is looked up among the others: every
/// occurrence gives a member of its own.
pub open spec fn object_members(s: Seq<char>) -> Parsed<Seq<Member>>
    decreases s.len(), 1int,
{
    let t = skip_whitespace(s);
    if t.len() > 0 && t[0] == '}' {
        Parsed { result: Ok(Seq::empty()), rest: t.drop_first() }
    } else {
        proof {
            lemma_run_len(s, CharClass::Whitespace);
            lemma_run_len(t, CharClass::Identifier);
        }
        let name = identifier(t);
        match name.result {
            Err(e) => Parsed { result: Err(e), rest: name.rest },
            Ok(key) => {
                let first = element(name.rest);
                match first.result {
                    Err(e) => Parsed { result: Err(e), rest: first.rest },
                    Ok(value) => {
                        if first.rest.len() < t.len() {
                            let others = object_members(first.rest);
                            Parsed {
                                result: following(seq![Member { key, value }], others.result),
                                rest: others.rest,
                            }
                        } else {
                            // A key consumes one character at least, so this is never reached.
                            Parsed {
                                result: Err(ParseError::UnexpectedEndOfInput),
                                rest: first.rest,
                            }
                        }
                    },
                }
            },
        }
    }
}

/// A whole document: one value, and nothing but whitespace behind it.
pub open spec fn document(s: Seq<char>) -> Result<Tree, ParseError> {
    let root = element(s);
    match root.result {
        Err(e) => Err(e),
        Ok(tree) => if skip_whitespace(root.rest).len() == 0 {
            Ok(tree)
        } else {
            Err(ParseError::TrailingCharacters)
        },
    }
}

/// Skipping whitespace twice is skipping it once.
pub proof fn lemma_skip_whitespace_idempotent(s: Seq<char>)
    ensures
        skip_whitespace(skip_whitespace(s)) == skip_whitespace(s),
        skip_whitespace(s).len() <= s.len(),
{
    lemma_after_run_idempotent(s, CharClass::Whitespace);
    lemma_run_len(s, CharClass::Whitespace);
}

/// Whitespace in front of a value, of the items of an array or of the members
/// of an object is read over: each of the three reads the same from a text
/// and from what is left of it behind its leading whitespace.
pub proof fn lemma_leading_whitespace_skipped(s: Seq<char>)
    ensures
        element(skip_whitespace(s)) == element(s),
        array_items(skip_whitespace(s)) == array_items(s),
        object_members(skip_whitespace(s)) == object_members(s),
{
    lemma_skip_whitespace_idempotent(s);
}

/// A value that is read consumes one character at least, and so do the items
/// of an array and the members of an object, closing bracket included. What
/// fails consumes no more than there is.
pub proof fn lemma_progress(s: Seq<char>)
    ensures
        element(s).rest.len() <= s.len(),
        array_items(s).rest.len() <= s.len(),
        object_members(s).rest.len() <= s.len(),
        element(s).result is Ok ==> element(s).rest.len() < s.len(),
        array_items(s).result is Ok ==> array_items(s).rest.len() < s.len(),
        object_members(s).result is Ok ==> object_members(s).rest.len() < s.len(),
    decreases s.len(),
{
    let t = skip_whitespace(s);
    lemma_run_len(s, CharClass::Whitespace);
    lemma_skip_whitespace_idempotent(s);
    if t.len() > 0 {
        let body = t.drop_first();
        lemma_run_len(body, CharClass::Verbatim);
        lemma_run_len(body, CharClass::IntegerText);
        lemma_run_len(body, CharClass::DecimalText);
        lemma_run_len(body, CharClass::Alphabetic);
        lemma_run_len(t, CharClass::IntegerText);
        lemma_progress(body);
    }
    // The items: one value, then the items behind it.
    lemma_run_len(t, CharClass::Identifier);
    if !(t.len() > 0 && t[0] == ']') {
        if t.len() < s.len() {
            lemma_progress(t);
        }
        let first = element(t);
        if first.result is Ok && first.rest.len() < t.len() {
            lemma_progress(first.rest);
        }
    }
    // The members: a key, its value, then the members behind them.
    if !(t.len() > 0 && t[0] == '}') {
        let name = identifier(t);
        if name.result is Ok {
            lemma_progress(name.rest);
            let first = element(name.rest);
            if first.result is Ok && first.rest.len() < t.len() {
                lemma_progress(first.rest);
            }
        }
    }
}

} // verus!
