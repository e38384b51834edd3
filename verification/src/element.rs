//! The document tree and its mathematical model.

use vstd::prelude::*;

verus! {

/// One node of a parsed document.
#[derive(Debug, PartialEq)]
pub enum Element {
    /// `?`
    Null,
    /// `~true` or `~false`
    Boolean(bool),
    /// `#42`, or a bare `42`
    Integer(i64),
    /// `^1.5` or `*1.5`. The payload is the decimal literal as it was
    /// written, without the sigil: an optional `-`, then digits with at most
    /// one `.` among them. The library never rounds it to a binary
    /// floating-point number; that is left to the caller.
    Double(String),
    /// `"text"`, taken verbatim.
    String(String),
    /// `[a b c]`, in the order of the text.
    Array(Vec<Element>),
    /// `{k v k v}`, in the order of the text. A key may occur any number of
    /// times; every occurrence is kept.
    Object(Vec<(String, Element)>),
}

/// A parsed document: exactly one root element.
#[derive(Debug, PartialEq)]
pub struct Document {
    pub root: Element,
}

/// The mathematical value of an [`Element`].
pub enum Tree {
    Null,
    Boolean(bool),
    Integer(int),
    Double(Seq<char>),
    String(Seq<char>),
    Array(Seq<Tree>),
    Object(Seq<Member>),
}

/// One key of an object with the value that follows it.
pub struct Member {
    pub key: Seq<char>,
    pub value: Tree,
}

impl View for Element {
    type V = Tree;

    open spec fn view(&self) -> Tree
        decreases self,
    {
        match self {
            Element::Null => Tree::Null,
            Element::Boolean(b) => Tree::Boolean(*b),
            Element::Integer(i) => Tree::Integer(*i as int),
            Element::Double(text) => Tree::Double(text@),
            Element::String(text) => Tree::String(text@),
            Element::Array(items) => Tree::Array(
                Seq::new(
                    items@.len(),
                    |i: int|
                        if 0 <= i < items@.len() {
                            items@[i].view()
                        } else {
                            Tree::Null
                        },
                ),
            ),
            Element::Object(pairs) => Tree::Object(
                Seq::new(
                    pairs@.len(),
                    |i: int|
                        if 0 <= i < pairs@.len() {
                            Member { key: pairs@[i].0@, value: pairs@[i].1.view() }
                        } else {
                            Member { key: Seq::empty(), value: Tree::Null }
                        },
                ),
            ),
        }
    }
}

impl View for Document {
    type V = Tree;

    open spec fn view(&self) -> Tree {
        self.root@
    }
}

/// The trees of a sequence of elements, in order.
pub open spec fn trees(items: Seq<Element>) -> Seq<Tree> {
    Seq::new(items.len(), |i: int| items[i]@)
}

/// The members that a sequence of pairs stands for, in order.
pub open spec fn members(pairs: Seq<(String, Element)>) -> Seq<Member> {
    Seq::new(pairs.len(), |i: int| Member { key: pairs[i].0@, value: pairs[i].1@ })
}

/// The tree of an array lists the trees of its items.
pub proof fn lemma_array_view(items: Vec<Element>)
    ensures
        Element::Array(items)@ == Tree::Array(trees(items@)),
{
    assert(Element::Array(items)@->Array_0 =~= trees(items@));
}

/// The tree of an object lists its keys, each with the tree of its value.
pub proof fn lemma_object_view(pairs: Vec<(String, Element)>)
    ensures
        Element::Object(pairs)@ == Tree::Object(members(pairs@)),
{
    assert(Element::Object(pairs)@->Object_0 =~= members(pairs@));
}

impl Clone for Element {
    /// A copy with the same tree.
    #[verifier::loop_isolation(false)]
    fn clone(&self) -> (copy: Self)
        ensures
            copy@ == self@,
        decreases self,
    {
        match self {
            Element::Null => Element::Null,
            Element::Boolean(b) => Element::Boolean(*b),
            Element::Integer(i) => Element::Integer(*i),
            Element::Double(text) => Element::Double(text.clone()),
            Element::String(text) => Element::String(text.clone()),
            Element::Array(items) => {
                let mut copies: Vec<Element> = Vec::new();
                let mut i: usize = 0;
                while i < items.len()
                    invariant
                        i <= items.len(),
                        copies@.len() == i,
                        forall|j: int| 0 <= j < i ==> copies@[j]@ == items@[j]@,
                    decreases items.len() - i,
                {
                    copies.push(items[i].clone());
                    i += 1;
                }
                proof {
                    lemma_array_view(copies);
                    lemma_array_view(*items);
                    assert(trees(copies@) =~= trees(items@));
                }
                Element::Array(copies)
            },
            Element::Object(pairs) => {
                let mut copies: Vec<(String, Element)> = Vec::new();
                let mut i: usize = 0;
                while i < pairs.len()
                    invariant
                        i <= pairs.len(),
                        copies@.len() == i,
                        forall|j: int|
                            0 <= j < i ==> copies@[j].0@ == pairs@[j].0@ && copies@[j].1@
                                == pairs@[j].1@,
                    decreases pairs.len() - i,
                {
                    copies.push((pairs[i].0.clone(), pairs[i].1.clone()));
                    i += 1;
                }
                proof {
                    lemma_object_view(copies);
                    lemma_object_view(*pairs);
                    assert(members(copies@) =~= members(pairs@));
                }
                Element::Object(copies)
            },
        }
    }
}

impl Clone for Document {
    /// A copy with the same tree.
    fn clone(&self) -> (copy: Self)
        ensures
            copy@ == self@,
    {
        Document { root: self.root.clone() }
    }
}

} // verus!
