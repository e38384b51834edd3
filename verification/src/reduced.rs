//! The reduced dialect: strings, integers, booleans and lists, and a
//! document that is a sequence of such values.
//!
//! It shares the cursor, the string literal and the lists in brackets with
//! the full grammar. It has neither objects nor doubles nor null; it reads no
//! `#` in front of an integer, takes the sign of an integer only in front of
//! its digits, and takes digits as part of the word behind `~`.

use vstd::prelude::*;
use crate::chars::{ascii_digit, is_ascii_digit, CharClass};
use crate::element::Tree;
use crate::error::ParseError;
use crate::grammar::{
    array_value, following, lemma_skip_whitespace_idempotent, string_literal, Parsed,
};
use crate::grammar;
use crate::literal::{boolean_from_word, boolean_value, integer_from_text, integer_value};
use crate::parser::Parser;
use crate::scan::{after_run, lemma_run_len, run, run_len};
use crate::text::string_from_chars;

verus! {

/// One value of the reduced dialect.
#[derive(Debug, PartialEq)]
pub enum XferValue {
    /// `"text"`, taken verbatim.
    String(String),
    /// `42` or `-5`.
    Integer(i64),
    /// `~true` or `~false`.
    Bool(bool),
    /// `[a b c]`, in the order of the text.
    List(Vec<XferValue>),
}

/// A document of the reduced dialect: its values, in the order of the text.
#[derive(Debug, PartialEq)]
pub struct XferDocument {
    pub values: Vec<XferValue>,
}

impl View for XferValue {
    type V = Tree;

    /// A value of the reduced dialect is the tree that the same literal
    /// denotes in the full grammar.
    open spec fn view(&self) -> Tree
        decreases self,
    {
        match self {
            XferValue::String(text) => Tree::String(text@),
            XferValue::Integer(i) => Tree::Integer(*i as int),
            XferValue::Bool(b) => Tree::Boolean(*b),
            XferValue::List(items) => Tree::Array(
                Seq::new(
                    items@.len(),
                    |i: int|
                        if 0 <= i < items@.len() {
                            items@[i].view()
                        } else {
                            Tree::Null
                        },
                ),
            ),
        }
    }
}

impl View for XferDocument {
    type V = Seq<Tree>;

    open spec fn view(&self) -> Seq<Tree> {
        value_trees(self.values@)
    }
}

/// The trees of a sequence of values, in order.
pub open spec fn value_trees(items: Seq<XferValue>) -> Seq<Tree> {
    Seq::new(items.len(), |i: int| items[i]@)
}

/// The tree of a list lists the trees of its items.
pub proof fn lemma_list_view(items: Vec<XferValue>)
    ensures
        XferValue::List(items)@ == Tree::Array(value_trees(items@)),
{
    assert(XferValue::List(items)@->Array_0 =~= value_trees(items@));
}

/// The outcome of reading one value, with the value taken by its tree.
pub open spec fn value_tree_of(r: Result<XferValue, ParseError>) -> Result<Tree, ParseError> {
    match r {
        Ok(v) => Ok(v@),
        Err(x) => Err(x),
    }
}

/// The outcome of reading a document, with the document taken by the trees
/// of its values.
pub open spec fn document_trees_of(r: Result<XferDocument, ParseError>) -> Result<
    Seq<Tree>,
    ParseError,
> {
    match r {
        Ok(doc) => Ok(doc@),
        Err(x) => Err(x),
    }
}

/// How many characters the text of an integer takes: a `-`, if the text
/// begins with one, and the digits that follow.
pub open spec fn integer_len(s: Seq<char>) -> nat {
    if s.len() > 0 && s[0] == '-' {
        1 + run_len(s.drop_first(), CharClass::Digit)
    } else {
        run_len(s, CharClass::Digit)
    }
}

/// An integer: an optional `-` and the digits behind it, read as a decimal
/// number of 64 bits with a sign.
pub open spec fn integer(s: Seq<char>) -> Parsed<Tree> {
    Parsed {
        result: match integer_value(s.take(integer_len(s) as int)) {
            Some(v) => Ok(Tree::Integer(v)),
            None => Err(ParseError::InvalidInteger),
        },
        rest: s.skip(integer_len(s) as int),
    }
}

/// A boolean behind its `~`: the longest run of alphanumeric characters,
/// which has to be `true` or `false`.
pub open spec fn boolean(s: Seq<char>) -> Parsed<Tree> {
    Parsed {
        result: match boolean_value(run(s, CharClass::Alphanumeric)) {
            Some(b) => Ok(Tree::Boolean(b)),
            None => Err(ParseError::InvalidBoolean),
        },
        rest: after_run(s, CharClass::Alphanumeric),
    }
}

/// One value. No whitespace is skipped: the first character of the text
/// decides.
pub open spec fn value(s: Seq<char>) -> Parsed<Tree>
    decreases s.len(), 0int,
{
    if s.len() == 0 {
        Parsed { result: Err(ParseError::UnexpectedEndOfInput), rest: s }
    } else {
        let c = s[0];
        if c == '"' {
            string_literal(s.drop_first())
        } else if c == '~' {
            boolean(s.drop_first())
        } else if c == '[' {
            array_value(list_items(s.drop_first()))
        } else if is_ascii_digit(c) || c == '-' {
            integer(s)
        } else {
            Parsed { result: Err(ParseError::UnexpectedCharacter(c)), rest: s }
        }
    }
}

/// The items of a list behind its `[`: whitespace is skipped, then either a
/// `]` closes the list or one more value is read in front of the items that
/// follow it.
pub open spec fn list_items(s: Seq<char>) -> Parsed<Seq<Tree>>
    decreases s.len(), 1int,
{
    let t = grammar::skip_whitespace(s);
    if t.len() > 0 && t[0] == ']' {
        Parsed { result: Ok(Seq::empty()), rest: t.drop_first() }
    } else {
        proof {
            lemma_run_len(s, CharClass::Whitespace);
        }
        let first = value(t);
        match first.result {
            Err(e) => Parsed { result: Err(e), rest: first.rest },
            Ok(item) => {
                if first.rest.len() < t.len() {
                    let others = list_items(first.rest);
                    Parsed { result: following(seq![item], others.result), rest: others.rest }
                } else {
                    // A value consumes one character at least, so this is never reached.
                    Parsed { result: Err(ParseError::UnexpectedEndOfInput), rest: first.rest }
                }
            },
        }
    }
}

/// A whole document: values up to the end of the text, with any whitespace
/// or none between them.
pub open spec fn values(s: Seq<char>) -> Result<Seq<Tree>, ParseError>
    decreases s.len(), 1int,
{
    let t = grammar::skip_whitespace(s);
    if t.len() == 0 {
        Ok(Seq::empty())
    } else {
        proof {
            lemma_run_len(s, CharClass::Whitespace);
        }
        let first = value(t);
        match first.result {
            Err(e) => Err(e),
            Ok(item) => {
                if first.rest.len() < t.len() {
                    following(seq![item], values(first.rest))
                } else {
                    // A value consumes one character at least, so this is never reached.
                    Err(ParseError::UnexpectedEndOfInput)
                }
            },
        }
    }
}

/// A value that is read consumes one character at least, and so do the items
/// of a list, closing bracket included. What fails consumes no more than
/// there is.
pub proof fn lemma_value_progress(s: Seq<char>)
    ensures
        value(s).rest.len() <= s.len(),
        list_items(s).rest.len() <= s.len(),
        value(s).result is Ok ==> value(s).rest.len() < s.len(),
        list_items(s).result is Ok ==> list_items(s).rest.len() < s.len(),
    decreases s.len(),
{
    if s.len() > 0 {
        let body = s.drop_first();
        lemma_run_len(body, CharClass::Verbatim);
        lemma_run_len(body, CharClass::Alphanumeric);
        lemma_run_len(body, CharClass::Digit);
        lemma_run_len(s, CharClass::Digit);
        lemma_value_progress(body);
    }
    let t = grammar::skip_whitespace(s);
    lemma_run_len(s, CharClass::Whitespace);
    if !(t.len() > 0 && t[0] == ']') {
        if t.len() < s.len() {
            lemma_value_progress(t);
        } else {
            assert(t =~= s);
        }
        let first = value(t);
        if first.result is Ok && first.rest.len() < t.len() {
            lemma_value_progress(first.rest);
        }
    }
}

/// Whitespace in front of the items of a list or of the values of a document
/// is read over.
pub proof fn lemma_whitespace_skipped(s: Seq<char>)
    ensures
        list_items(grammar::skip_whitespace(s)) == list_items(s),
        values(grammar::skip_whitespace(s)) == values(s),
{
    lemma_skip_whitespace_idempotent(s);
}

/// Consumes the whitespace in front of the next value, if there is any.
pub fn skip_whitespace(chars: &mut Parser)
    ensures
        final(chars)@ == grammar::skip_whitespace(old(chars)@),
{
    chars.skip_whitespace();
}

/// Reads one value, whatever its kind. The cursor has to stand on its first
/// character: whitespace in front of it is not skipped.
pub fn parse_value(chars: &mut Parser) -> (r: Result<XferValue, ParseError>)
    ensures
        final(chars)@ == value(old(chars)@).rest,
        value_tree_of(r) == value(old(chars)@).result,
    decreases old(chars)@.len(), 1int,
{
    match chars.peek() {
        None => Err(ParseError::UnexpectedEndOfInput),
        Some(c) => {
            if c == '"' {
                parse_string(chars)
            } else if c == '~' {
                parse_bool(chars)
            } else if c == '[' {
                parse_list(chars)
            } else if ascii_digit(c) || c == '-' {
                parse_integer(chars)
            } else {
                Err(ParseError::UnexpectedCharacter(c))
            }
        },
    }
}

/// Reads a string literal. The cursor has to stand on its opening quote.
pub fn parse_string(chars: &mut Parser) -> (r: Result<XferValue, ParseError>)
    requires
        old(chars)@.len() > 0,
        old(chars)@[0] == '"',
    ensures
        final(chars)@ == value(old(chars)@).rest,
        value_tree_of(r) == value(old(chars)@).result,
{
    chars.next_char();
    let text = chars.take_run(CharClass::Verbatim);
    match chars.next_char() {
        Some(_) => Ok(XferValue::String(string_from_chars(text.as_slice()))),
        None => Err(ParseError::UnterminatedString),
    }
}

/// Reads a boolean literal. The cursor has to stand on its `~`.
pub fn parse_bool(chars: &mut Parser) -> (r: Result<XferValue, ParseError>)
    requires
        old(chars)@.len() > 0,
        old(chars)@[0] == '~',
    ensures
        final(chars)@ == value(old(chars)@).rest,
        value_tree_of(r) == value(old(chars)@).result,
{
    chars.next_char();
    let word = chars.take_run(CharClass::Alphanumeric);
    match boolean_from_word(word.as_slice()) {
        Some(b) => Ok(XferValue::Bool(b)),
        None => Err(ParseError::InvalidBoolean),
    }
}

/// Reads an integer: a `-`, if the cursor stands on one, and the digits
/// behind it.
pub fn parse_integer(chars: &mut Parser) -> (r: Result<XferValue, ParseError>)
    ensures
        final(chars)@ == integer(old(chars)@).rest,
        value_tree_of(r) == integer(old(chars)@).result,
{
    let mut text: Vec<char> = Vec::new();
    if let Some('-') = chars.peek() {
        text.push('-');
        chars.next_char();
    }
    let ghost behind_sign = chars@;
    let mut digits = chars.take_run(CharClass::Digit);
    text.append(&mut digits);
    proof {
        lemma_run_len(behind_sign, CharClass::Digit);
        assert(text@ =~= old(chars)@.take(integer_len(old(chars)@) as int));
    }
    match integer_from_text(text.as_slice()) {
        Some(v) => Ok(XferValue::Integer(v)),
        None => Err(ParseError::InvalidInteger),
    }
}

/// Reads a list. The cursor has to stand on its `[`.
pub fn parse_list(chars: &mut Parser) -> (r: Result<XferValue, ParseError>)
    requires
        old(chars)@.len() > 0,
        old(chars)@[0] == '[',
    ensures
        final(chars)@ == value(old(chars)@).rest,
        value_tree_of(r) == value(old(chars)@).result,
    decreases old(chars)@.len(), 0int,
{
    chars.next_char();
    let ghost start = chars@;
    let mut items: Vec<XferValue> = Vec::new();
    loop
        invariant
            chars@.len() < old(chars)@.len(),
            old(chars)@[0] == '[',
            start == old(chars)@.drop_first(),
            list_items(start).rest == list_items(chars@).rest,
            list_items(start).result == following(value_trees(items@), list_items(chars@).result),
        decreases chars@.len(),
    {
        let ghost here = chars@;
        skip_whitespace(chars);
        proof {
            lemma_skip_whitespace_idempotent(here);
            lemma_whitespace_skipped(here);
        }
        let ghost t = chars@;
        if let Some(']') = chars.peek() {
            chars.next_char();
            proof {
                lemma_list_view(items);
            }
            return Ok(XferValue::List(items));
        }
        match parse_value(chars) {
            Err(e) => {
                return Err(e);
            },
            Ok(item) => {
                proof {
                    lemma_value_progress(t);
                    assert(value_trees(items@.push(item)) =~= value_trees(items@) + seq![item@]);
                    if let Ok(more) = list_items(chars@).result {
                        assert((value_trees(items@) + seq![item@]) + more =~= value_trees(items@)
                            + (seq![item@] + more));
                    }
                }
                items.push(item);
            },
        }
    }
}

/// Parses `input` as a document of the reduced dialect: any number of
/// values, none included.
pub fn parse_document(input: &str) -> (r: Result<XferDocument, ParseError>)
    ensures
        document_trees_of(r) == values(input@),
{
    let mut chars = Parser::new(input);
    let mut items: Vec<XferValue> = Vec::new();
    loop
        invariant
            values(input@) == following(value_trees(items@), values(chars@)),
        decreases chars@.len(),
    {
        let ghost here = chars@;
        skip_whitespace(&mut chars);
        proof {
            lemma_skip_whitespace_idempotent(here);
            lemma_whitespace_skipped(here);
        }
        let ghost t = chars@;
        if chars.peek().is_none() {
            return Ok(XferDocument { values: items });
        }
        match parse_value(&mut chars) {
            Err(e) => {
                return Err(e);
            },
            Ok(item) => {
                proof {
                    lemma_value_progress(t);
                    assert(value_trees(items@.push(item)) =~= value_trees(items@) + seq![item@]);
                    if let Ok(more) = values(chars@) {
                        assert((value_trees(items@) + seq![item@]) + more =~= value_trees(items@)
                            + (seq![item@] + more));
                    }
                }
                items.push(item);
            },
        }
    }
}

} // verus!
