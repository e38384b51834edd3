//! What holds of the grammar as a whole: which first character gives which
//! kind of value, how each production fails, that the two sigils of a double
//! are one, that leading whitespace is read over, and that arrays and
//! objects keep every item and every member.

use vstd::prelude::*;
use crate::canonical::{all_members_well_formed, lemma_canonical_text_is_read, members_text};
use crate::chars::{is_ascii_digit, CharClass};
use crate::element::{Member, Tree};
use crate::error::ParseError;
use crate::grammar::{
    array_items, begins_value, document, double_literal, element, identifier,
    lemma_leading_whitespace_skipped, lemma_progress, object_members, skip_whitespace,
};
use crate::scan::{all_in, lemma_run_len, lemma_run_len_prefix};

verus! {

/// The first character behind the leading whitespace decides the kind of the
/// value, and the kind of a value tells that character: a string comes from
/// `"` and from nothing else, an integer from `#`, a digit or `-`, a double
/// from `^` or `*`, a boolean from `~`, null from `?`, an array from `[` and an
/// object from `{`.
pub proof fn lemma_sigil_decides_variant(s: Seq<char>)
    requires
        element(s).result is Ok,
    ensures
        ({
            let t = skip_whitespace(s);
            let tree = element(s).result->Ok_0;
            &&& t.len() > 0
            &&& tree is String <==> t[0] == '"'
            &&& tree is Integer <==> t[0] == '#' || is_ascii_digit(t[0]) || t[0] == '-'
            &&& tree is Double <==> t[0] == '^' || t[0] == '*'
            &&& tree is Boolean <==> t[0] == '~'
            &&& tree is Null <==> t[0] == '?'
            &&& tree is Array <==> t[0] == '['
            &&& tree is Object <==> t[0] == '{'
        }),
{
}

/// Each production fails in one way only, and the table of first characters
/// is complete: at the end of the text nothing is read, a character that
/// begins no value is reported as such, `?` never fails, and a scalar whose
/// text is malformed fails with the error of its own kind. An array or an
/// object fails with the first failure inside it.
pub proof fn lemma_failures_by_production(s: Seq<char>)
    ensures
        ({
            let t = skip_whitespace(s);
            let r = element(s).result;
            &&& t.len() == 0 ==> r == Err::<Tree, _>(ParseError::UnexpectedEndOfInput)
            &&& t.len() > 0 && !begins_value(t[0]) ==> r == Err::<Tree, _>(
                ParseError::UnexpectedCharacter(t[0]),
            )
            &&& t.len() > 0 && t[0] == '?' ==> r == Ok::<_, ParseError>(Tree::Null)
            &&& t.len() > 0 && t[0] == '"' ==> r is Ok || r == Err::<Tree, _>(
                ParseError::UnterminatedString,
            )
            &&& t.len() > 0 && (t[0] == '#' || is_ascii_digit(t[0]) || t[0] == '-') ==> r is Ok
                || r == Err::<Tree, _>(ParseError::InvalidInteger)
            &&& t.len() > 0 && (t[0] == '^' || t[0] == '*') ==> r is Ok || r == Err::<Tree, _>(
                ParseError::InvalidDouble,
            )
            &&& t.len() > 0 && t[0] == '~' ==> r is Ok || r == Err::<Tree, _>(
                ParseError::InvalidBoolean,
            )
            &&& r != Err::<Tree, _>(ParseError::TrailingCharacters)
        }),
{
    lemma_never_trailing(s);
}

/// Reading a value never reports trailing characters: only a document does.
pub proof fn lemma_never_trailing(s: Seq<char>)
    ensures
        element(s).result != Err::<Tree, _>(ParseError::TrailingCharacters),
        array_items(s).result != Err::<Seq<Tree>, _>(ParseError::TrailingCharacters),
        object_members(s).result != Err::<Seq<Member>, _>(ParseError::TrailingCharacters),
    decreases s.len(),
{
    let t = skip_whitespace(s);
    lemma_run_len(s, CharClass::Whitespace);
    if t.len() > 0 {
        lemma_never_trailing(t.drop_first());
    }
    lemma_run_len(t, CharClass::Identifier);
    if !(t.len() > 0 && t[0] == ']') {
        if t.len() < s.len() {
            lemma_never_trailing(t);
        } else {
            assert(t =~= s);
        }
        let first = element(t);
        if first.result is Ok && first.rest.len() < t.len() {
            lemma_never_trailing(first.rest);
        }
    }
    if !(t.len() > 0 && t[0] == '}') {
        let name = identifier(t);
        if name.result is Ok {
            lemma_never_trailing(name.rest);
            let first = element(name.rest);
            if first.result is Ok && first.rest.len() < t.len() {
                lemma_never_trailing(first.rest);
            }
        }
    }
}

/// `^` and `*` are one sigil: in front of the same text they give the same
/// value and leave the same text behind.
pub proof fn lemma_double_sigils_agree(s: Seq<char>)
    ensures
        element(seq!['^'] + s) == element(seq!['*'] + s),
        element(seq!['^'] + s) == double_literal(s),
        document(seq!['^'] + s) == document(seq!['*'] + s),
{
    let a = seq!['^'] + s;
    let b = seq!['*'] + s;
    assert(a.skip(0) =~= a);
    assert(b.skip(0) =~= b);
    assert(a.drop_first() =~= s);
    assert(b.drop_first() =~= s);
}

/// Whitespace in front of a value, of the items of an array, of the members of
/// an object or of a document changes nothing: not the outcome, and not the
/// text that is left.
pub proof fn lemma_leading_whitespace(ws: Seq<char>, s: Seq<char>)
    requires
        all_in(ws, CharClass::Whitespace),
    ensures
        element(ws + s) == element(s),
        array_items(ws + s) == array_items(s),
        object_members(ws + s) == object_members(s),
        document(ws + s) == document(s),
{
    lemma_run_len_prefix(ws, s, CharClass::Whitespace);
    lemma_leading_whitespace_skipped(ws + s);
    lemma_leading_whitespace_skipped(s);
}

/// An object keeps every member. Where the text behind `{` does not close the
/// object at once and the members are read, the first key and its value make
/// the first member, and the members that follow are those of the text
/// behind that value, all of them: one more than there are behind it, whether
/// or not the first key occurs again among them.
pub proof fn lemma_object_keeps_every_member(s: Seq<char>)
    requires
        object_members(s).result is Ok,
        skip_whitespace(s).len() == 0 || skip_whitespace(s)[0] != '}',
    ensures
        ({
            let key = identifier(skip_whitespace(s));
            let value = element(key.rest);
            let others = object_members(value.rest);
            &&& key.result is Ok
            &&& value.result is Ok
            &&& others.result is Ok
            &&& object_members(s).rest == others.rest
            &&& object_members(s).result->Ok_0 == seq![
                Member { key: key.result->Ok_0, value: value.result->Ok_0 },
            ] + others.result->Ok_0
            &&& object_members(s).result->Ok_0.len() == 1 + others.result->Ok_0.len()
        }),
{
    let t = skip_whitespace(s);
    lemma_run_len(s, CharClass::Whitespace);
    lemma_run_len(t, CharClass::Identifier);
    let key = identifier(t);
    lemma_progress(key.rest);
}

/// An array keeps every item, in the order of the text: where the text behind
/// `[` does not close the array at once and the items are read, the first
/// value is the first item and the items of the text behind it follow.
pub proof fn lemma_array_keeps_every_item(s: Seq<char>)
    requires
        array_items(s).result is Ok,
        skip_whitespace(s).len() == 0 || skip_whitespace(s)[0] != ']',
    ensures
        ({
            let first = element(skip_whitespace(s));
            let others = array_items(first.rest);
            &&& first.result is Ok
            &&& others.result is Ok
            &&& array_items(s).rest == others.rest
            &&& array_items(s).result->Ok_0 == seq![first.result->Ok_0] + others.result->Ok_0
            &&& array_items(s).result->Ok_0.len() == 1 + others.result->Ok_0.len()
        }),
{
    let t = skip_whitespace(s);
    lemma_run_len(s, CharClass::Whitespace);
    lemma_progress(t);
}

/// However often a key occurs among them, members written out one after
/// another between `{` and `}` are read as an object with exactly these
/// members: as many as were written, in the order in which they were
/// written, none merged with another and none dropped.
pub proof fn lemma_repeated_keys_are_kept(members: Seq<Member>)
    requires
        all_members_well_formed(members),
    ensures
        document(seq!['{'] + members_text(members, 0) + seq!['}']) == Ok::<_, ParseError>(
            Tree::Object(members),
        ),
{
    lemma_canonical_text_is_read(Tree::Object(members));
}

} // verus!
