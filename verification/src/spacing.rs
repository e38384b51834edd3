//! Whitespace between tokens does not matter: where a text is read as a
//! document, more whitespace at any gap gives the same document.
//!
//! A gap is a position between two tokens: in front of a value or behind it,
//! behind an opening bracket, in front of a closing bracket, or behind an
//! object key. The positions inside a string, a number, a word or a key, and
//! the one between a sigil and its literal, are no gaps.

use vstd::prelude::*;
use crate::chars::{lemma_whitespace_ends_tokens, CharClass};
use crate::grammar::{
    array_items, document, element, identifier, lemma_leading_whitespace_skipped, lemma_progress,
    object_members, skip_whitespace,
};
use crate::scan::{
    after_run, all_in, lemma_run_len, lemma_run_len_prefix, lemma_run_len_unique, run, run_len,
};

verus! {

/// The text `s` with `ws` put in at position `p`.
pub open spec fn insert(s: Seq<char>, p: int, ws: Seq<char>) -> Seq<char> {
    s.take(p) + ws + s.skip(p)
}

/// How many characters reading a value from `s` consumes.
pub open spec fn element_len(s: Seq<char>) -> int {
    s.len() - element(s).rest.len()
}

/// How many characters reading the items of an array from `s` consumes, the
/// closing bracket included.
pub open spec fn items_len(s: Seq<char>) -> int {
    s.len() - array_items(s).rest.len()
}

/// How many characters reading the members of an object from `s` consumes,
/// the closing bracket included.
pub open spec fn members_len(s: Seq<char>) -> int {
    s.len() - object_members(s).rest.len()
}

/// Whether position `p` of `s` is a gap for the value that is read from `s`:
/// it lies in the whitespace in front of the value or at its first
/// character, or behind the value, or at a gap between the brackets of the
/// array or object that the value is.
pub open spec fn element_gap(s: Seq<char>, p: int) -> bool
    decreases s.len(), 0int,
{
    let w = run_len(s, CharClass::Whitespace) as int;
    let t = skip_whitespace(s);
    ||| 0 <= p <= w
    ||| element_len(s) <= p <= s.len()
    ||| {
        proof {
            lemma_run_len(s, CharClass::Whitespace);
        }
        &&& t.len() > 0
        &&& w < p
        &&& {
            ||| t[0] == '[' && items_gap(t.drop_first(), p - w - 1)
            ||| t[0] == '{' && members_gap(t.drop_first(), p - w - 1)
        }
    }
}

/// Whether position `p` of `s` is a gap for the items that are read from `s`,
/// the text behind a `[`: it lies in the whitespace in front of the first
/// item or of the closing bracket, or behind that bracket, or it is a gap of
/// the first item, or a gap of the items behind the first.
pub open spec fn items_gap(s: Seq<char>, p: int) -> bool
    decreases s.len(), 1int,
{
    let w = run_len(s, CharClass::Whitespace) as int;
    let t = skip_whitespace(s);
    let first = element(t);
    let q = p - w;
    ||| 0 <= p <= w
    ||| items_len(s) <= p <= s.len()
    ||| {
        proof {
            lemma_run_len(s, CharClass::Whitespace);
        }
        &&& !(t.len() > 0 && t[0] == ']')
        &&& first.result is Ok
        &&& first.rest.len() < t.len()
        &&& 0 < q
        &&& {
            ||| q <= element_len(t) && element_gap(t, q)
            ||| element_len(t) <= q && items_gap(first.rest, q - element_len(t))
        }
    }
}

/// Whether position `p` of `s` is a gap for the members that are read from
/// `s`, the text behind a `{`: it lies in the whitespace in front of the first
/// key or of the closing bracket, or behind that bracket, or it is behind the
/// first key and a gap of its value, or a gap of the members behind them.
pub open spec fn members_gap(s: Seq<char>, p: int) -> bool
    decreases s.len(), 1int,
{
    let w = run_len(s, CharClass::Whitespace) as int;
    let t = skip_whitespace(s);
    let name = identifier(t);
    let k = run_len(t, CharClass::Identifier) as int;
    let value = element(name.rest);
    let q = p - w - k;
    ||| 0 <= p <= w
    ||| members_len(s) <= p <= s.len()
    ||| {
        proof {
            lemma_run_len(s, CharClass::Whitespace);
            lemma_run_len(t, CharClass::Identifier);
        }
        &&& !(t.len() > 0 && t[0] == '}')
        &&& name.result is Ok
        &&& value.result is Ok
        &&& value.rest.len() < t.len()
        &&& 0 <= q
        &&& {
            ||| q <= element_len(name.rest) && element_gap(name.rest, q)
            ||| element_len(name.rest) <= q && members_gap(value.rest, q - element_len(name.rest))
        }
    }
}

/// In front of position `k`, and from there on, an insertion at or behind `k`
/// is an insertion into what is left.
pub proof fn lemma_insert_skip(s: Seq<char>, p: int, ws: Seq<char>, k: int)
    requires
        0 <= k <= p <= s.len(),
    ensures
        insert(s, p, ws).take(k) == s.take(k),
        insert(s, p, ws).skip(k) == insert(s.skip(k), p - k, ws),
        insert(s, p, ws).len() == s.len() + ws.len(),
{
    assert(insert(s, p, ws).take(k) =~= s.take(k));
    assert(insert(s, p, ws).skip(k) =~= insert(s.skip(k), p - k, ws));
}

/// A run that ends in front of an insertion is not changed by it, provided
/// that what is put in does not continue the run.
pub proof fn lemma_run_insert_behind(s: Seq<char>, p: int, ws: Seq<char>, class: CharClass)
    requires
        run_len(s, class) <= p <= s.len(),
        p == run_len(s, class) && ws.len() > 0 ==> !class.contains(ws[0]),
    ensures
        run_len(insert(s, p, ws), class) == run_len(s, class),
        run(insert(s, p, ws), class) == run(s, class),
        after_run(insert(s, p, ws), class) == insert(
            after_run(s, class),
            p - run_len(s, class),
            ws,
        ),
{
    let n = run_len(s, class) as int;
    let s2 = insert(s, p, ws);
    lemma_run_len(s, class);
    lemma_insert_skip(s, p, ws, n);
    if n < s2.len() {
        if n < p {
            assert(s2[n] == s[n]);
        } else if ws.len() > 0 {
            assert(s2[n] == ws[0]);
        } else {
            assert(s2 =~= s);
        }
    }
    lemma_run_len_unique(s2, class, n);
}

/// More whitespace among the leading whitespace of a text is skipped with it.
pub proof fn lemma_insert_in_front(s: Seq<char>, p: int, ws: Seq<char>)
    requires
        all_in(ws, CharClass::Whitespace),
        0 <= p <= run_len(s, CharClass::Whitespace),
    ensures
        skip_whitespace(insert(s, p, ws)) == skip_whitespace(s),
        element(insert(s, p, ws)) == element(s),
        array_items(insert(s, p, ws)) == array_items(s),
        object_members(insert(s, p, ws)) == object_members(s),
{
    lemma_run_len(s, CharClass::Whitespace);
    let head = s.take(p) + ws;
    assert forall|i: int| 0 <= i < head.len() implies CharClass::Whitespace.contains(
        #[trigger] head[i],
    ) by {
        if i < p {
            assert(head[i] == run(s, CharClass::Whitespace)[i]);
        } else {
            assert(head[i] == ws[i - p]);
        }
    }
    assert forall|i: int| 0 <= i < s.take(p).len() implies CharClass::Whitespace.contains(
        #[trigger] s.take(p)[i],
    ) by {
        assert(s.take(p)[i] == run(s, CharClass::Whitespace)[i]);
    }
    lemma_run_len_prefix(head, s.skip(p), CharClass::Whitespace);
    lemma_run_len_prefix(s.take(p), s.skip(p), CharClass::Whitespace);
    assert(s.take(p) + s.skip(p) =~= s);
    assert(head + s.skip(p) =~= insert(s, p, ws));
    lemma_leading_whitespace_skipped(insert(s, p, ws));
    lemma_leading_whitespace_skipped(s);
}

/// More whitespace at a gap of a value that is read changes neither the
/// value nor, in front of the gap, the text that is left; a gap behind the
/// value stays where it was in the text that is left.
pub proof fn lemma_insert_element(s: Seq<char>, p: int, ws: Seq<char>)
    requires
        all_in(ws, CharClass::Whitespace),
        0 <= p <= s.len(),
        element(s).result is Ok,
        element_gap(s, p),
    ensures
        element(insert(s, p, ws)).result == element(s).result,
        element(insert(s, p, ws)).rest == if p >= element_len(s) {
            insert(element(s).rest, p - element_len(s), ws)
        } else {
            element(s).rest
        },
    decreases s.len(), 0int,
{
    let w = run_len(s, CharClass::Whitespace) as int;
    let t = skip_whitespace(s);
    let s2 = insert(s, p, ws);
    lemma_run_len(s, CharClass::Whitespace);
    lemma_leading_whitespace_skipped(s);
    lemma_progress(t);
    if p <= w {
        lemma_insert_in_front(s, p, ws);
    } else {
        lemma_run_insert_behind(s, p, ws, CharClass::Whitespace);
        let q = p - w;
        let t2 = skip_whitespace(s2);
        assert(t2 == insert(t, q, ws));
        assert(t2[0] == t[0]);
        let body = t.drop_first();
        let body2 = t2.drop_first();
        lemma_insert_skip(t, q, ws, 1);
        assert(body2 =~= insert(body, q - 1, ws));
        if ws.len() > 0 {
            lemma_whitespace_ends_tokens(ws[0]);
        }
        let c = t[0];
        if c == '"' {
            lemma_run_len(body, CharClass::Verbatim);
            lemma_run_insert_behind(body, q - 1, ws, CharClass::Verbatim);
            let n = run_len(body, CharClass::Verbatim) as int;
            lemma_insert_skip(after_run(body, CharClass::Verbatim), q - 1 - n, ws, 1);
            assert(after_run(body, CharClass::Verbatim).drop_first() =~= after_run(
                body,
                CharClass::Verbatim,
            ).skip(1));
            assert(after_run(body2, CharClass::Verbatim).drop_first() =~= after_run(
                body2,
                CharClass::Verbatim,
            ).skip(1));
        } else if c == '#' {
            lemma_run_len(body, CharClass::IntegerText);
            lemma_run_insert_behind(body, q - 1, ws, CharClass::IntegerText);
        } else if c == '^' || c == '*' {
            lemma_run_len(body, CharClass::DecimalText);
            lemma_run_insert_behind(body, q - 1, ws, CharClass::DecimalText);
        } else if c == '~' {
            lemma_run_len(body, CharClass::Alphabetic);
            lemma_run_insert_behind(body, q - 1, ws, CharClass::Alphabetic);
        } else if c == '[' {
            lemma_insert_items(body, q - 1, ws);
        } else if c == '{' {
            lemma_insert_members(body, q - 1, ws);
        } else if c != '?' {
            lemma_run_len(t, CharClass::IntegerText);
            lemma_run_insert_behind(t, q, ws, CharClass::IntegerText);
        }
    }
}

/// More whitespace at a gap of the items of an array that are read changes
/// neither the items nor, in front of the gap, the text that is left.
pub proof fn lemma_insert_items(s: Seq<char>, p: int, ws: Seq<char>)
    requires
        all_in(ws, CharClass::Whitespace),
        0 <= p <= s.len(),
        array_items(s).result is Ok,
        items_gap(s, p),
    ensures
        array_items(insert(s, p, ws)).result == array_items(s).result,
        array_items(insert(s, p, ws)).rest == if p >= items_len(s) {
            insert(array_items(s).rest, p - items_len(s), ws)
        } else {
            array_items(s).rest
        },
    decreases s.len(), 1int,
{
    let w = run_len(s, CharClass::Whitespace) as int;
    let t = skip_whitespace(s);
    let s2 = insert(s, p, ws);
    lemma_run_len(s, CharClass::Whitespace);
    lemma_leading_whitespace_skipped(s);
    lemma_progress(t);
    if p <= w {
        lemma_insert_in_front(s, p, ws);
    } else {
        lemma_run_insert_behind(s, p, ws, CharClass::Whitespace);
        let q = p - w;
        let t2 = skip_whitespace(s2);
        assert(t2 == insert(t, q, ws));
        if t.len() > 0 {
            assert(t2[0] == t[0]);
        }
        if t.len() > 0 && t[0] == ']' {
            lemma_insert_skip(t, q, ws, 1);
            assert(t2.drop_first() =~= insert(t.drop_first(), q - 1, ws));
        } else {
            let first = element(t);
            let c1 = element_len(t);
            lemma_progress(first.rest);
            lemma_progress(t2);
            if q <= c1 && element_gap(t, q) {
                lemma_insert_element(t, q, ws);
                if q == c1 {
                    assert(insert(first.rest, 0, ws) =~= ws + first.rest);
                    lemma_run_len_prefix(ws, first.rest, CharClass::Whitespace);
                    lemma_leading_whitespace_skipped(ws + first.rest);
                    lemma_leading_whitespace_skipped(first.rest);
                }
            } else {
                lemma_insert_element(t, q, ws);
                lemma_insert_items(first.rest, q - c1, ws);
            }
        }
    }
}

/// More whitespace at a gap of the members of an object that are read
/// changes neither the members nor, in front of the gap, the text that is
/// left.
pub proof fn lemma_insert_members(s: Seq<char>, p: int, ws: Seq<char>)
    requires
        all_in(ws, CharClass::Whitespace),
        0 <= p <= s.len(),
        object_members(s).result is Ok,
        members_gap(s, p),
    ensures
        object_members(insert(s, p, ws)).result == object_members(s).result,
        object_members(insert(s, p, ws)).rest == if p >= members_len(s) {
            insert(object_members(s).rest, p - members_len(s), ws)
        } else {
            object_members(s).rest
        },
    decreases s.len(), 1int,
{
    let w = run_len(s, CharClass::Whitespace) as int;
    let t = skip_whitespace(s);
    let s2 = insert(s, p, ws);
    lemma_run_len(s, CharClass::Whitespace);
    lemma_leading_whitespace_skipped(s);
    lemma_progress(t);
    if p <= w {
        lemma_insert_in_front(s, p, ws);
    } else {
        lemma_run_insert_behind(s, p, ws, CharClass::Whitespace);
        let t2 = skip_whitespace(s2);
        assert(t2 == insert(t, p - w, ws));
        if t.len() > 0 {
            assert(t2[0] == t[0]);
        }
        if t.len() > 0 && t[0] == '}' {
            lemma_insert_skip(t, p - w, ws, 1);
            assert(t2.drop_first() =~= insert(t.drop_first(), p - w - 1, ws));
        } else {
            let name = identifier(t);
            let k = run_len(t, CharClass::Identifier) as int;
            let value = element(name.rest);
            let cv = element_len(name.rest);
            let q = p - w - k;
            lemma_run_len(t, CharClass::Identifier);
            lemma_progress(name.rest);
            lemma_progress(value.rest);
            if ws.len() > 0 {
                lemma_whitespace_ends_tokens(ws[0]);
            }
            lemma_run_insert_behind(t, p - w, ws, CharClass::Identifier);
            let rest2 = identifier(t2).rest;
            assert(rest2 == insert(name.rest, q, ws));
            lemma_progress(rest2);
            if q <= cv && element_gap(name.rest, q) {
                lemma_insert_element(name.rest, q, ws);
                if q == cv {
                    assert(insert(value.rest, 0, ws) =~= ws + value.rest);
                    lemma_run_len_prefix(ws, value.rest, CharClass::Whitespace);
                    lemma_leading_whitespace_skipped(ws + value.rest);
                    lemma_leading_whitespace_skipped(value.rest);
                }
            } else {
                lemma_insert_element(name.rest, q, ws);
                lemma_insert_members(value.rest, q - cv, ws);
            }
        }
    }
}

/// Whether position `p` of `s` is a gap of the document that is read from
/// `s`: a gap of its root value, the whitespace behind it included.
pub open spec fn document_gap(s: Seq<char>, p: int) -> bool {
    0 <= p <= s.len() && element_gap(s, p)
}

/// More whitespace at a gap of a text that is read as a document gives the
/// same document.
pub proof fn lemma_whitespace_insensitive(s: Seq<char>, p: int, ws: Seq<char>)
    requires
        all_in(ws, CharClass::Whitespace),
        document(s) is Ok,
        document_gap(s, p),
    ensures
        document(insert(s, p, ws)) == document(s),
{
    lemma_insert_element(s, p, ws);
    let rest = element(s).rest;
    lemma_progress(s);
    if p >= element_len(s) {
        let q = p - element_len(s);
        let rest2 = insert(rest, q, ws);
        lemma_run_len(rest, CharClass::Whitespace);
        assert(run_len(rest, CharClass::Whitespace) == rest.len());
        assert forall|i: int| 0 <= i < rest2.len() implies CharClass::Whitespace.contains(
            #[trigger] rest2[i],
        ) by {
            if i < q {
                assert(rest2[i] == run(rest, CharClass::Whitespace)[i]);
            } else if i < q + ws.len() {
                assert(rest2[i] == ws[i - q]);
            } else {
                assert(rest2[i] == run(rest, CharClass::Whitespace)[i - ws.len()]);
            }
        }
        lemma_run_len_prefix(rest2, Seq::empty(), CharClass::Whitespace);
        assert(rest2 + Seq::<char>::empty() =~= rest2);
    }
}

/// Whitespace around the root value does not matter: in front of a text that
/// is read as a document, and behind it, any whitespace gives the same
/// document.
pub proof fn lemma_whitespace_around_root(before: Seq<char>, s: Seq<char>, after: Seq<char>)
    requires
        all_in(before, CharClass::Whitespace),
        all_in(after, CharClass::Whitespace),
        document(s) is Ok,
    ensures
        document(before + s + after) == document(s),
{
    lemma_progress(s);
    lemma_whitespace_insensitive(s, s.len() as int, after);
    assert(insert(s, s.len() as int, after) =~= s + after);
    lemma_whitespace_insensitive(s + after, 0, before);
    assert(insert(s + after, 0, before) =~= before + s + after);
}

} // verus!
