//! The character cursor and the recursive-descent parser that reads through
//! it.

use vstd::prelude::*;
use crate::canonical::{lemma_document_is_well_formed, well_formed};
use crate::chars::{ascii_digit, whitespace, CharClass};
use crate::element::{
    lemma_array_view, lemma_object_view, members, trees, Document, Element, Member, Tree,
};
use crate::error::ParseError;
use crate::grammar;
use crate::grammar::{
    array_value, following, lemma_leading_whitespace_skipped, lemma_progress,
    lemma_skip_whitespace_idempotent, object_value,
};
use crate::literal::{boolean_from_word, decimal_literal, integer_from_text};
use crate::scan::{after_run, all_in, lemma_run_len, lemma_run_len_unique, run};
use crate::text::string_from_chars;

verus! {

/// A cursor over the Unicode scalar values of an input, with one slot of
/// lookahead. Its view is the text that has not been consumed yet.
pub struct Parser {
    chars: Vec<char>,
    /// How many scalar values have been pulled from `chars`.
    pos: usize,
    /// The lookahead slot: `None` while nothing has been pulled ahead,
    /// `Some(None)` once the end of the input has been seen.
    peeked: Option<Option<char>>,
}

impl View for Parser {
    type V = Seq<char>;

    closed spec fn view(&self) -> Seq<char> {
        match self.peeked {
            Some(Some(c)) => seq![c] + self.chars@.skip(self.pos as int),
            Some(None) => Seq::empty(),
            None => self.chars@.skip(self.pos as int),
        }
    }
}

impl Parser {
    #[verifier::type_invariant]
    spec fn well_formed(self) -> bool {
        &&& self.pos <= self.chars.len()
        &&& self.peeked == Some(None::<char>) ==> self.pos == self.chars.len()
    }

    /// A cursor in front of the first scalar value of `input`.
    pub fn new(input: &str) -> (parser: Parser)
        ensures
            parser@ == input@,
    {
        let mut chars: Vec<char> = Vec::new();
        for c in it: input.chars()
            invariant
                chars@ == it.seq().take(it.index() as int),
                it.seq() == input@,
        {
            chars.push(c);
        }
        Parser { chars, pos: 0, peeked: None }
    }

    /// Pulls the next scalar value from the input, behind the lookahead slot.
    fn pull(&mut self) -> (c: Option<char>)
        requires
            old(self).peeked is None,
        ensures
            final(self).peeked is None,
            c is None ==> final(self).pos == final(self).chars.len(),
            match c {
                Some(x) => old(self)@.len() > 0 && x == old(self)@[0] && final(self)@ == old(
                    self,
                )@.drop_first(),
                None => old(self)@.len() == 0 && final(self)@.len() == 0,
            },
    {
        proof {
            use_type_invariant(&*self);
        }
        if self.pos < self.chars.len() {
            let c = self.chars[self.pos];
            self.pos += 1;
            Some(c)
        } else {
            None
        }
    }

    /// The next scalar value, which stays in the input. Asking again gives the
    /// same answer.
    pub fn peek(&mut self) -> (c: Option<char>)
        ensures
            final(self)@ == old(self)@,
            c == if old(self)@.len() > 0 {
                Some(old(self)@[0])
            } else {
                None
            },
    {
        proof {
            use_type_invariant(&*self);
        }
        match self.peeked {
            Some(c) => c,
            None => {
                let c = self.pull();
                proof {
                    use_type_invariant(&*self);
                }
                self.peeked = Some(c);
                c
            },
        }
    }

    /// Consumes the next scalar value and returns it; `None` at the end of the
    /// input, where nothing is consumed.
    pub fn next_char(&mut self) -> (c: Option<char>)
        ensures
            match c {
                Some(x) => old(self)@.len() > 0 && x == old(self)@[0] && final(self)@ == old(
                    self,
                )@.drop_first(),
                None => old(self)@.len() == 0 && final(self)@.len() == 0,
            },
    {
        proof {
            use_type_invariant(&*self);
        }
        match self.peeked {
            Some(c) => {
                self.peeked = None;
                c
            },
            None => self.pull(),
        }
    }

    /// Consumes the longest run of characters of `class` and returns it.
    pub fn take_run(&mut self, class: CharClass) -> (text: Vec<char>)
        ensures
            text@ == run(old(self)@, class),
            final(self)@ == after_run(old(self)@, class),
    {
        let mut text: Vec<char> = Vec::new();
        loop
            invariant
                text@.len() <= old(self)@.len(),
                text@ == old(self)@.take(text@.len() as int),
                self@ == old(self)@.skip(text@.len() as int),
                forall|i: int| 0 <= i < text@.len() ==> class.contains(#[trigger] text@[i]),
            ensures
                text@ == run(old(self)@, class),
                self@ == after_run(old(self)@, class),
            decreases self@.len(),
        {
            match self.peek() {
                Some(c) if class.accepts(c) => {
                    text.push(c);
                    self.next_char();
                },
                _ => {
                    proof {
                        lemma_run_len_unique(old(self)@, class, text@.len() as int);
                    }
                    break;
                },
            }
        }
        text
    }

    /// Consumes the whitespace in front of the next token, if there is any.
    pub fn skip_whitespace(&mut self)
        ensures
            final(self)@ == grammar::skip_whitespace(old(self)@),
    {
        let ghost mut n: int = 0;
        loop
            invariant
                0 <= n <= old(self)@.len(),
                self@ == old(self)@.skip(n),
                all_in(old(self)@.take(n), CharClass::Whitespace),
            ensures
                self@ == grammar::skip_whitespace(old(self)@),
            decreases self@.len(),
        {
            match self.peek() {
                Some(c) if whitespace(c) => {
                    self.next_char();
                    proof {
                        n = n + 1;
                    }
                },
                _ => {
                    proof {
                        lemma_run_len_unique(old(self)@, CharClass::Whitespace, n);
                    }
                    break;
                },
            }
        }
    }

    /// Reads an object key: an identifier, which must not be empty. Where
    /// none is found, nothing is consumed.
    pub fn parse_identifier(&mut self) -> (r: Result<String, ParseError>)
        ensures
            final(self)@ == grammar::identifier(old(self)@).rest,
            name_of(r) == grammar::identifier(old(self)@).result,
    {
        let name = self.take_run(CharClass::Identifier);
        if name.len() == 0 {
            Err(ParseError::ExpectedIdentifier)
        } else {
            Ok(string_from_chars(name.as_slice()))
        }
    }

    /// Reads one value, whatever its kind, behind any whitespace.
    pub fn parse_element(&mut self) -> (r: Result<Element, ParseError>)
        ensures
            final(self)@ == grammar::element(old(self)@).rest,
            tree_of(r) == grammar::element(old(self)@).result,
        decreases old(self)@.len(), 1int,
    {
        self.skip_whitespace();
        proof {
            lemma_skip_whitespace_idempotent(old(self)@);
        }
        match self.peek() {
            None => Err(ParseError::UnexpectedEndOfInput),
            Some(c) => {
                if c == '"' {
                    self.parse_string()
                } else if c == '#' {
                    self.parse_integer()
                } else if c == '^' || c == '*' {
                    self.parse_double()
                } else if c == '~' {
                    self.parse_bool()
                } else if c == '?' {
                    self.next_char();
                    Ok(Element::Null)
                } else if c == '[' {
                    self.parse_array()
                } else if c == '{' {
                    self.parse_object()
                } else if ascii_digit(c) || c == '-' {
                    self.parse_integer_implicit()
                } else {
                    Err(ParseError::UnexpectedCharacter(c))
                }
            },
        }
    }

    /// Reads a string literal, the cursor standing on its opening quote.
    fn parse_string(&mut self) -> (r: Result<Element, ParseError>)
        requires
            old(self)@.len() > 0,
        ensures
            final(self)@ == grammar::string_literal(old(self)@.drop_first()).rest,
            tree_of(r) == grammar::string_literal(old(self)@.drop_first()).result,
    {
        self.next_char();
        let text = self.take_run(CharClass::Verbatim);
        match self.next_char() {
            Some(_) => Ok(Element::String(string_from_chars(text.as_slice()))),
            None => Err(ParseError::UnterminatedString),
        }
    }

    /// Reads an integer literal, the cursor standing on its sigil.
    fn parse_integer(&mut self) -> (r: Result<Element, ParseError>)
        requires
            old(self)@.len() > 0,
        ensures
            final(self)@ == grammar::integer_literal(old(self)@.drop_first()).rest,
            tree_of(r) == grammar::integer_literal(old(self)@.drop_first()).result,
    {
        self.next_char();
        self.parse_integer_implicit()
    }

    /// Reads an integer literal that no sigil introduces.
    fn parse_integer_implicit(&mut self) -> (r: Result<Element, ParseError>)
        ensures
            final(self)@ == grammar::integer_literal(old(self)@).rest,
            tree_of(r) == grammar::integer_literal(old(self)@).result,
    {
        let text = self.take_run(CharClass::IntegerText);
        match integer_from_text(text.as_slice()) {
            Some(v) => Ok(Element::Integer(v)),
            None => Err(ParseError::InvalidInteger),
        }
    }

    /// Reads a double literal, the cursor standing on its sigil.
    fn parse_double(&mut self) -> (r: Result<Element, ParseError>)
        requires
            old(self)@.len() > 0,
        ensures
            final(self)@ == grammar::double_literal(old(self)@.drop_first()).rest,
            tree_of(r) == grammar::double_literal(old(self)@.drop_first()).result,
    {
        self.next_char();
        let text = self.take_run(CharClass::DecimalText);
        if decimal_literal(text.as_slice()) {
            Ok(Element::Double(string_from_chars(text.as_slice())))
        } else {
            Err(ParseError::InvalidDouble)
        }
    }

    /// Reads a boolean literal, the cursor standing on its sigil.
    fn parse_bool(&mut self) -> (r: Result<Element, ParseError>)
        requires
            old(self)@.len() > 0,
        ensures
            final(self)@ == grammar::boolean_literal(old(self)@.drop_first()).rest,
            tree_of(r) == grammar::boolean_literal(old(self)@.drop_first()).result,
    {
        self.next_char();
        let word = self.take_run(CharClass::Alphabetic);
        match boolean_from_word(word.as_slice()) {
            Some(b) => Ok(Element::Boolean(b)),
            None => Err(ParseError::InvalidBoolean),
        }
    }

    /// Reads an array, the cursor standing on its `[`.
    fn parse_array(&mut self) -> (r: Result<Element, ParseError>)
        requires
            old(self)@.len() > 0,
        ensures
            final(self)@ == array_value(grammar::array_items(old(self)@.drop_first())).rest,
            tree_of(r) == array_value(grammar::array_items(old(self)@.drop_first())).result,
        decreases old(self)@.len(), 0int,
    {
        self.next_char();
        let ghost start = self@;
        let mut items: Vec<Element> = Vec::new();
        loop
            invariant
                self@.len() < old(self)@.len(),
                start == old(self)@.drop_first(),
                grammar::array_items(start).rest == grammar::array_items(self@).rest,
                grammar::array_items(start).result == following(
                    trees(items@),
                    grammar::array_items(self@).result,
                ),
            decreases self@.len(),
        {
            let ghost here = self@;
            self.skip_whitespace();
            proof {
                lemma_skip_whitespace_idempotent(here);
                lemma_leading_whitespace_skipped(here);
            }
            let ghost t = self@;
            if let Some(']') = self.peek() {
                self.next_char();
                proof {
                    lemma_array_view(items);
                }
                return Ok(Element::Array(items));
            }
            match self.parse_element() {
                Err(e) => {
                    return Err(e);
                },
                Ok(item) => {
                    proof {
                        lemma_progress(t);
                        assert(trees(items@.push(item)) =~= trees(items@) + seq![item@]);
                        if let Ok(more) = grammar::array_items(self@).result {
                            assert((trees(items@) + seq![item@]) + more =~= trees(items@) + (seq![
                                item@,
                            ] + more));
                        }
                    }
                    items.push(item);
                },
            }
        }
    }

    /// Reads an object, the cursor standing on its `{`.
    fn parse_object(&mut self) -> (r: Result<Element, ParseError>)
        requires
            old(self)@.len() > 0,
        ensures
            final(self)@ == object_value(grammar::object_members(old(self)@.drop_first())).rest,
            tree_of(r) == object_value(grammar::object_members(old(self)@.drop_first())).result,
        decreases old(self)@.len(), 0int,
    {
        self.next_char();
        let ghost start = self@;
        let mut pairs: Vec<(String, Element)> = Vec::new();
        loop
            invariant
                self@.len() < old(self)@.len(),
                start == old(self)@.drop_first(),
                grammar::object_members(start).rest == grammar::object_members(self@).rest,
                grammar::object_members(start).result == following(
                    members(pairs@),
                    grammar::object_members(self@).result,
                ),
            decreases self@.len(),
        {
            let ghost here = self@;
            self.skip_whitespace();
            proof {
                lemma_skip_whitespace_idempotent(here);
                lemma_leading_whitespace_skipped(here);
            }
            let ghost t = self@;
            if let Some('}') = self.peek() {
                self.next_char();
                proof {
                    lemma_object_view(pairs);
                }
                return Ok(Element::Object(pairs));
            }
            let key = match self.parse_identifier() {
                Err(e) => {
                    return Err(e);
                },
                Ok(key) => key,
            };
            proof {
                lemma_run_len(t, CharClass::Identifier);
            }
            let ghost behind_key = self@;
            self.skip_whitespace();
            proof {
                lemma_skip_whitespace_idempotent(behind_key);
                lemma_leading_whitespace_skipped(behind_key);
            }
            match self.parse_element() {
                Err(e) => {
                    return Err(e);
                },
                Ok(value) => {
                    proof {
                        lemma_progress(behind_key);
                        let member = Member { key: key@, value: value@ };
                        assert(members(pairs@.push((key, value))) =~= members(pairs@) + seq![
                            member,
                        ]);
                        if let Ok(more) = grammar::object_members(self@).result {
                            assert((members(pairs@) + seq![member]) + more =~= members(pairs@) + (
                            seq![member] + more));
                        }
                    }
                    pairs.push((key, value));
                },
            }
        }
    }
}

/// The outcome of reading one value, with the element taken by its tree.
pub open spec fn tree_of(r: Result<Element, ParseError>) -> Result<Tree, ParseError> {
    match r {
        Ok(e) => Ok(e@),
        Err(x) => Err(x),
    }
}

/// The outcome of reading one key, with the key taken by its characters.
pub open spec fn name_of(r: Result<String, ParseError>) -> Result<Seq<char>, ParseError> {
    match r {
        Ok(key) => Ok(key@),
        Err(x) => Err(x),
    }
}

/// The outcome of reading a document, with the document taken by its tree.
pub open spec fn document_tree_of(r: Result<Document, ParseError>) -> Result<Tree, ParseError> {
    match r {
        Ok(doc) => Ok(doc@),
        Err(x) => Err(x),
    }
}

/// Parses `input` as one document: a single value, with nothing but
/// whitespace around it. The document is the one that the grammar gives for
/// the text, and so is the failure; a document that is returned is well
/// formed.
///
/// Arrays and objects are read by recursion, one call deep for each level of
/// nesting: no depth is refused, so the depth that can be read is that of
/// the call stack. A caller that reads untrusted text bounds its length.
pub fn parse(input: &str) -> (r: Result<Document, ParseError>)
    ensures
        document_tree_of(r) == grammar::document(input@),
        r matches Ok(doc) ==> well_formed(doc@),
{
    proof {
        lemma_document_is_well_formed(input@);
    }
    let mut parser = Parser::new(input);
    let root = match parser.parse_element() {
        Err(e) => {
            return Err(e);
        },
        Ok(root) => root,
    };
    parser.skip_whitespace();
    if parser.peek().is_some() {
        return Err(ParseError::TrailingCharacters);
    }
    Ok(Document { root })
}

} // verus!
