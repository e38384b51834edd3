//! Every tree has a text: the trees that the grammar can yield are told apart
//! from the others, and each of them is read back from its canonical text.

use vstd::prelude::*;
use crate::chars::{is_ascii_digit, is_whitespace, lemma_whitespace_ends_tokens, CharClass};
use crate::element::{Member, Tree};
use crate::error::ParseError;
use crate::grammar::{
    array_items, begins_value, document, element, identifier, lemma_leading_whitespace_skipped,
    object_members, skip_whitespace, Parsed,
};
use crate::literal::{
    all_digits, decimal_value, digit_value, integer_value, is_decimal_literal, unsigned_part,
    word_false, word_true,
};
use crate::scan::{after_run, all_in, lemma_run_len, lemma_run_len_prefix, run, run_len};

verus! {

/// Whether `name` can stand as an object key: one character or more, each
/// alphanumeric or `_`.
pub open spec fn is_identifier(name: Seq<char>) -> bool {
    name.len() > 0 && all_in(name, CharClass::Identifier)
}

/// Whether the grammar can yield `tree`: its integers fit in 64 bits with a
/// sign, its doubles are decimal literals, its strings hold no `"`, its keys
/// are identifiers, and the same holds of every tree inside it.
pub open spec fn well_formed(tree: Tree) -> bool
    decreases tree,
{
    match tree {
        Tree::Null => true,
        Tree::Boolean(_) => true,
        Tree::Integer(v) => i64::MIN <= v <= i64::MAX,
        Tree::Double(text) => is_decimal_literal(text),
        Tree::String(text) => all_in(text, CharClass::Verbatim),
        Tree::Array(items) => forall|i: int|
            0 <= i < items.len() ==> well_formed(#[trigger] items[i]),
        Tree::Object(members) => forall|i: int|
            0 <= i < members.len() ==> is_identifier((#[trigger] members[i]).key) && well_formed(
                members[i].value,
            ),
    }
}

/// Whether each of `items` is well formed.
pub open spec fn all_well_formed(items: Seq<Tree>) -> bool {
    forall|i: int| 0 <= i < items.len() ==> well_formed(#[trigger] items[i])
}

/// Whether each of `members` has an identifier for its key and a well-formed
/// value.
pub open spec fn all_members_well_formed(members: Seq<Member>) -> bool {
    forall|i: int|
        0 <= i < members.len() ==> is_identifier((#[trigger] members[i]).key) && well_formed(
            members[i].value,
        )
}

/// Whatever is read is well formed: values, the items of an array and the
/// members of an object.
pub proof fn lemma_parsed_is_well_formed(s: Seq<char>)
    ensures
        element(s).result matches Ok(tree) ==> well_formed(tree),
        array_items(s).result matches Ok(items) ==> all_well_formed(items),
        object_members(s).result matches Ok(members) ==> all_members_well_formed(members),
    decreases s.len(),
{
    let t = skip_whitespace(s);
    lemma_run_len(s, CharClass::Whitespace);
    if t.len() > 0 {
        let body = t.drop_first();
        lemma_run_len(body, CharClass::Verbatim);
        lemma_parsed_is_well_formed(body);
    }
    lemma_run_len(t, CharClass::Identifier);
    if !(t.len() > 0 && t[0] == ']') {
        if t.len() < s.len() {
            lemma_parsed_is_well_formed(t);
        } else {
            assert(t =~= s);
        }
        let first = element(t);
        if first.result is Ok && first.rest.len() < t.len() {
            lemma_parsed_is_well_formed(first.rest);
            if let Ok(others) = array_items(first.rest).result {
                let item = first.result->Ok_0;
                let all = seq![item] + others;
                assert forall|i: int| 0 <= i < all.len() implies well_formed(#[trigger] all[i]) by {
                    if i > 0 {
                        assert(all[i] == others[i - 1]);
                    }
                }
            }
        }
    }
    if !(t.len() > 0 && t[0] == '}') {
        let name = identifier(t);
        if name.result is Ok {
            lemma_parsed_is_well_formed(name.rest);
            let first = element(name.rest);
            if first.result is Ok && first.rest.len() < t.len() {
                lemma_parsed_is_well_formed(first.rest);
                if let Ok(others) = object_members(first.rest).result {
                    let member = Member { key: name.result->Ok_0, value: first.result->Ok_0 };
                    let all = seq![member] + others;
                    assert forall|i: int| 0 <= i < all.len() implies is_identifier(
                        (#[trigger] all[i]).key,
                    ) && well_formed(all[i].value) by {
                        if i > 0 {
                            assert(all[i] == others[i - 1]);
                        }
                    }
                }
            }
        }
    }
}

/// A document that is read is well formed.
pub proof fn lemma_document_is_well_formed(s: Seq<char>)
    ensures
        document(s) matches Ok(tree) ==> well_formed(tree),
{
    lemma_parsed_is_well_formed(s);
}

/// The character that stands for a digit's number.
pub open spec fn digit_char(d: int) -> char {
    if d == 0 {
        '0'
    } else if d == 1 {
        '1'
    } else if d == 2 {
        '2'
    } else if d == 3 {
        '3'
    } else if d == 4 {
        '4'
    } else if d == 5 {
        '5'
    } else if d == 6 {
        '6'
    } else if d == 7 {
        '7'
    } else if d == 8 {
        '8'
    } else {
        '9'
    }
}

/// The decimal digits of a number that is not negative, without leading
/// zeros.
pub open spec fn digits_of(n: int) -> Seq<char>
    decreases n,
{
    if n < 10 {
        seq![digit_char(n)]
    } else {
        digits_of(n / 10).push(digit_char(n % 10))
    }
}

/// The decimal text of an integer: its digits, behind a `-` where it is
/// negative.
pub open spec fn integer_text(v: int) -> Seq<char> {
    if v < 0 {
        seq!['-'] + digits_of(-v)
    } else {
        digits_of(v)
    }
}

/// The canonical text of a tree: each value behind its sigil, integers behind
/// `#` and doubles behind `^`, and one space behind every item of an array and
/// behind every key and every value of an object.
pub open spec fn text_of(tree: Tree) -> Seq<char>
    decreases tree, 0int,
{
    match tree {
        Tree::Null => seq!['?'],
        Tree::Boolean(b) => seq!['~'] + if b {
            word_true()
        } else {
            word_false()
        },
        Tree::Integer(v) => seq!['#'] + integer_text(v),
        Tree::Double(text) => seq!['^'] + text,
        Tree::String(text) => seq!['"'] + text + seq!['"'],
        Tree::Array(items) => seq!['['] + items_text(items, 0) + seq![']'],
        Tree::Object(members) => seq!['{'] + members_text(members, 0) + seq!['}'],
    }
}

/// The canonical text of the items of an array from the one at `from` on.
pub open spec fn items_text(items: Seq<Tree>, from: int) -> Seq<char>
    decreases items, items.len() - from,
{
    if 0 <= from < items.len() {
        text_of(items[from]) + seq![' '] + items_text(items, from + 1)
    } else {
        Seq::empty()
    }
}

/// The canonical text of the members of an object from the one at `from` on.
pub open spec fn members_text(members: Seq<Member>, from: int) -> Seq<char>
    decreases members, members.len() - from,
{
    if 0 <= from < members.len() {
        members[from].key + seq![' '] + text_of(members[from].value) + seq![' '] + members_text(
            members,
            from + 1,
        )
    } else {
        Seq::empty()
    }
}

/// The digits of a number denote that number.
pub proof fn lemma_digits_of(n: int)
    requires
        n >= 0,
    ensures
        digits_of(n).len() > 0,
        all_digits(digits_of(n)),
        decimal_value(digits_of(n)) == n,
    decreases n,
{
    if n < 10 {
        let d = digits_of(n);
        assert(d.drop_last() =~= Seq::<char>::empty());
        assert(decimal_value(d.drop_last()) == 0);
        assert(digit_value(d.last()) == n);
    } else {
        lemma_digits_of(n / 10);
        let d = digits_of(n);
        assert(d.drop_last() =~= digits_of(n / 10));
        assert(digit_value(d.last()) == n % 10);
        assert forall|i: int| 0 <= i < d.len() implies is_ascii_digit(#[trigger] d[i]) by {
            if i < d.len() - 1 {
                assert(d[i] == digits_of(n / 10)[i]);
            }
        }
    }
}

/// The text of an integer of 64 bits with a sign denotes that integer, and is
/// made of digits and `-` only.
pub proof fn lemma_integer_text(v: int)
    requires
        i64::MIN <= v <= i64::MAX,
    ensures
        integer_value(integer_text(v)) == Some(v),
        integer_text(v).len() > 0,
        all_in(integer_text(v), CharClass::IntegerText),
{
    let text = integer_text(v);
    if v < 0 {
        lemma_digits_of(-v);
        assert(text.drop_first() =~= digits_of(-v));
        assert forall|i: int| 0 <= i < text.len() implies CharClass::IntegerText.contains(
            #[trigger] text[i],
        ) by {
            if i > 0 {
                assert(text[i] == digits_of(-v)[i - 1]);
            }
        }
    } else {
        lemma_digits_of(v);
        assert(text[0] != '-');
    }
}

/// Whether a value can end in front of `tail`: at the end of the text, in
/// front of whitespace or in front of a closing bracket.
pub open spec fn ends_value(tail: Seq<char>) -> bool {
    tail.len() == 0 || is_whitespace(tail[0]) || tail[0] == ']' || tail[0] == '}'
}

/// A text made of characters of one class, in front of a tail that does not
/// continue it, is the run of that class.
pub proof fn lemma_run_of_token(text: Seq<char>, tail: Seq<char>, class: CharClass)
    requires
        all_in(text, class),
        tail.len() > 0 ==> !class.contains(tail[0]),
    ensures
        run(text + tail, class) == text,
        after_run(text + tail, class) == tail,
        run_len(text + tail, class) == text.len(),
{
    lemma_run_len_prefix(text, tail, class);
    assert(tail.skip(0) =~= tail);
    assert((text + tail).take(text.len() as int) =~= text);
}

/// The canonical text of a tree begins with the character that introduces
/// its kind of value.
pub proof fn lemma_text_begins_value(tree: Tree)
    ensures
        text_of(tree).len() > 0,
        begins_value(text_of(tree)[0]),
        !is_whitespace(text_of(tree)[0]),
        text_of(tree)[0] != ']',
{
}

/// One space in front of a text is read over.
pub proof fn lemma_space_skipped(s: Seq<char>)
    ensures
        element(seq![' '] + s) == element(s),
        array_items(seq![' '] + s) == array_items(s),
        object_members(seq![' '] + s) == object_members(s),
{
    lemma_run_len_prefix(seq![' '], s, CharClass::Whitespace);
    lemma_leading_whitespace_skipped(seq![' '] + s);
    lemma_leading_whitespace_skipped(s);
}

/// A text that does not begin with whitespace has none to skip.
pub proof fn lemma_nothing_to_skip(s: Seq<char>)
    requires
        s.len() > 0,
        !is_whitespace(s[0]),
    ensures
        skip_whitespace(s) == s,
{
    assert(s.skip(0) =~= s);
}

/// Null is read back from `?`.
pub proof fn lemma_null_reads_back(tail: Seq<char>)
    ensures
        element(text_of(Tree::Null) + tail) == (Parsed { result: Ok(Tree::Null), rest: tail }),
{
    let s = text_of(Tree::Null) + tail;
    assert(s[0] == '?');
    lemma_nothing_to_skip(s);
    assert(s.drop_first() =~= tail);
}

/// A boolean is read back from `~` and its word.
pub proof fn lemma_boolean_reads_back(b: bool, tail: Seq<char>)
    requires
        ends_value(tail),
    ensures
        element(text_of(Tree::Boolean(b)) + tail) == (Parsed {
            result: Ok(Tree::Boolean(b)),
            rest: tail,
        }),
{
    let s = text_of(Tree::Boolean(b)) + tail;
    let word = if b {
        word_true()
    } else {
        word_false()
    };
    assert(s[0] == '~');
    lemma_nothing_to_skip(s);
    assert(s.drop_first() =~= word + tail);
    if tail.len() > 0 && is_whitespace(tail[0]) {
        lemma_whitespace_ends_tokens(tail[0]);
    }
    lemma_run_of_token(word, tail, CharClass::Alphabetic);
}

/// An integer of 64 bits with a sign is read back from `#` and its decimal
/// text.
pub proof fn lemma_integer_reads_back(v: int, tail: Seq<char>)
    requires
        i64::MIN <= v <= i64::MAX,
        ends_value(tail),
    ensures
        element(text_of(Tree::Integer(v)) + tail) == (Parsed {
            result: Ok(Tree::Integer(v)),
            rest: tail,
        }),
{
    let s = text_of(Tree::Integer(v)) + tail;
    assert(s[0] == '#');
    lemma_nothing_to_skip(s);
    assert(s.drop_first() =~= integer_text(v) + tail);
    if tail.len() > 0 && is_whitespace(tail[0]) {
        lemma_whitespace_ends_tokens(tail[0]);
    }
    lemma_integer_text(v);
    lemma_run_of_token(integer_text(v), tail, CharClass::IntegerText);
}

/// A decimal literal is made of digits, `.` and `-` only.
pub proof fn lemma_decimal_literal_chars(text: Seq<char>)
    requires
        is_decimal_literal(text),
    ensures
        all_in(text, CharClass::DecimalText),
{
    assert forall|i: int| 0 <= i < text.len() implies CharClass::DecimalText.contains(
        #[trigger] text[i],
    ) by {
        if text[0] == '-' {
            if i > 0 {
                assert(text[i] == unsigned_part(text)[i - 1]);
            }
        } else {
            assert(text[i] == unsigned_part(text)[i]);
        }
    }
}

/// A double is read back from `^` and its literal.
pub proof fn lemma_double_reads_back(text: Seq<char>, tail: Seq<char>)
    requires
        is_decimal_literal(text),
        ends_value(tail),
    ensures
        element(text_of(Tree::Double(text)) + tail) == (Parsed {
            result: Ok(Tree::Double(text)),
            rest: tail,
        }),
{
    let s = text_of(Tree::Double(text)) + tail;
    assert(s[0] == '^');
    lemma_nothing_to_skip(s);
    assert(s.drop_first() =~= text + tail);
    if tail.len() > 0 && is_whitespace(tail[0]) {
        lemma_whitespace_ends_tokens(tail[0]);
    }
    lemma_decimal_literal_chars(text);
    lemma_run_of_token(text, tail, CharClass::DecimalText);
}

/// A string without a quote in it is read back from its text between quotes.
pub proof fn lemma_string_reads_back(text: Seq<char>, tail: Seq<char>)
    requires
        all_in(text, CharClass::Verbatim),
    ensures
        element(text_of(Tree::String(text)) + tail) == (Parsed {
            result: Ok(Tree::String(text)),
            rest: tail,
        }),
{
    let s = text_of(Tree::String(text)) + tail;
    let closing = seq!['"'] + tail;
    assert(s[0] == '"');
    lemma_nothing_to_skip(s);
    assert(s.drop_first() =~= text + closing);
    assert(closing[0] == '"');
    lemma_run_of_token(text, closing, CharClass::Verbatim);
    assert(closing.drop_first() =~= tail);
}

/// A well-formed tree is read back from its canonical text, whatever follows
/// the text, provided that a value can end there; and what follows is left.
pub proof fn lemma_reads_back(tree: Tree, tail: Seq<char>)
    requires
        well_formed(tree),
        ends_value(tail),
    ensures
        element(text_of(tree) + tail) == (Parsed { result: Ok(tree), rest: tail }),
    decreases tree, 0int,
{
    match tree {
        Tree::Null => {
            lemma_null_reads_back(tail);
        },
        Tree::Boolean(b) => {
            lemma_boolean_reads_back(b, tail);
        },
        Tree::Integer(v) => {
            lemma_integer_reads_back(v, tail);
        },
        Tree::Double(text) => {
            lemma_double_reads_back(text, tail);
        },
        Tree::String(text) => {
            lemma_string_reads_back(text, tail);
        },
        Tree::Array(items) => {
            let s = text_of(tree) + tail;
            assert(s[0] == '[');
            lemma_nothing_to_skip(s);
            assert(s.drop_first() =~= items_text(items, 0) + (seq![']'] + tail));
            lemma_items_read_back(items, 0, tail);
            assert(items.skip(0) =~= items);
        },
        Tree::Object(members) => {
            let s = text_of(tree) + tail;
            assert(s[0] == '{');
            lemma_nothing_to_skip(s);
            assert(s.drop_first() =~= members_text(members, 0) + (seq!['}'] + tail));
            lemma_members_read_back(members, 0, tail);
            assert(members.skip(0) =~= members);
        },
    }
}

/// The items of an array are read back from their canonical text and the
/// closing bracket behind it.
pub proof fn lemma_items_read_back(items: Seq<Tree>, from: int, tail: Seq<char>)
    requires
        all_well_formed(items),
        0 <= from <= items.len(),
    ensures
        array_items(items_text(items, from) + (seq![']'] + tail)) == (Parsed {
            result: Ok(items.skip(from)),
            rest: tail,
        }),
    decreases items, items.len() - from,
{
    let s = items_text(items, from) + (seq![']'] + tail);
    if from == items.len() {
        assert(s =~= seq![']'] + tail);
        lemma_nothing_to_skip(s);
        assert(s.drop_first() =~= tail);
        assert(items.skip(from) =~= Seq::<Tree>::empty());
    } else {
        let item = items[from];
        let others = items_text(items, from + 1) + (seq![']'] + tail);
        let behind = seq![' '] + others;
        assert(s =~= text_of(item) + behind);
        lemma_text_begins_value(item);
        assert(s[0] == text_of(item)[0]);
        lemma_nothing_to_skip(s);
        assert(behind[0] == ' ');
        lemma_reads_back(item, behind);
        lemma_space_skipped(others);
        lemma_items_read_back(items, from + 1, tail);
        assert(seq![item] + items.skip(from + 1) =~= items.skip(from));
    }
}

/// The members of an object are read back from their canonical text and the
/// closing bracket behind it.
pub proof fn lemma_members_read_back(members: Seq<Member>, from: int, tail: Seq<char>)
    requires
        all_members_well_formed(members),
        0 <= from <= members.len(),
    ensures
        object_members(members_text(members, from) + (seq!['}'] + tail)) == (Parsed {
            result: Ok(members.skip(from)),
            rest: tail,
        }),
    decreases members, members.len() - from,
{
    let s = members_text(members, from) + (seq!['}'] + tail);
    if from == members.len() {
        assert(s =~= seq!['}'] + tail);
        lemma_nothing_to_skip(s);
        assert(s.drop_first() =~= tail);
        assert(members.skip(from) =~= Seq::<Member>::empty());
    } else {
        let member = members[from];
        let others = members_text(members, from + 1) + (seq!['}'] + tail);
        let behind_value = seq![' '] + others;
        let value_on = text_of(member.value) + behind_value;
        let behind_key = seq![' '] + value_on;
        assert(s =~= member.key + behind_key);
        assert(s[0] == member.key[0]);
        if is_whitespace(s[0]) {
            lemma_whitespace_ends_tokens(s[0]);
        }
        lemma_nothing_to_skip(s);
        assert(behind_key[0] == ' ');
        lemma_run_of_token(member.key, behind_key, CharClass::Identifier);
        lemma_space_skipped(value_on);
        assert(behind_value[0] == ' ');
        lemma_reads_back(member.value, behind_value);
        lemma_text_begins_value(member.value);
        lemma_space_skipped(others);
        lemma_members_read_back(members, from + 1, tail);
        assert(seq![member] + members.skip(from + 1) =~= members.skip(from));
    }
}

/// Every well-formed tree is the document of some text: its canonical text
/// is read as a document, and the document is the tree.
pub proof fn lemma_canonical_text_is_read(tree: Tree)
    requires
        well_formed(tree),
    ensures
        document(text_of(tree)) == Ok::<_, ParseError>(tree),
{
    lemma_reads_back(tree, Seq::empty());
    assert(text_of(tree) + Seq::<char>::empty() =~= text_of(tree));
    assert(skip_whitespace(Seq::<char>::empty()).len() == 0) by {
        lemma_run_len(Seq::<char>::empty(), CharClass::Whitespace);
    }
}

} // verus!
