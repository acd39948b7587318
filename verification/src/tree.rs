//! The mathematical model of a JSON document, and its canonical text.

use vstd::prelude::*;
use vstd::utf8::*;
use crate::entries::{ascending, distinct_keys, sorted};
use crate::grammar::{comma_joined, decimal, quoted};

verus! {

/// A JSON document as a mathematical value.
pub enum Tree {
    Null,
    Bool(bool),
    /// An integer of any size.
    Integer(int),
    /// A number that is no integer of 64 bits, by its literal.
    Real(Seq<char>),
    String(Seq<char>),
    Array(Seq<Tree>),
    /// The entries of an object, in the order in which they were given.
    Object(Seq<(Seq<char>, Tree)>),
}

/// The first of the items that is not `None`, if there is one.
pub open spec fn first_some<T>(items: Seq<Option<T>>) -> Option<T>
    decreases items.len(),
{
    if items.len() == 0 {
        None
    } else if first_some(items.drop_last()) is Some {
        first_some(items.drop_last())
    } else {
        items.last()
    }
}

/// Where no item is `Some`, there is no first one; where there is one,
/// no item is `None` only.
pub proof fn lemma_first_some_none<T>(items: Seq<Option<T>>)
    ensures
        first_some(items) is None <==> forall|i: int|
            0 <= i < items.len() ==> #[trigger] items[i] is None,
    decreases items.len(),
{
    if items.len() > 0 {
        let front = items.drop_last();
        lemma_first_some_none(front);
        if first_some(front) is Some {
            let i = choose|i: int| 0 <= i < front.len() && #[trigger] front[i] is Some;
            assert(items[i] == front[i]);
        } else {
            assert forall|i: int| 0 <= i < items.len() - 1 implies #[trigger] items[i] is None by {
                assert(items[i] == front[i]);
            }
        }
    }
}

/// The first item that is `Some` is the one before which all are `None`.
pub proof fn lemma_first_some_at<T>(items: Seq<Option<T>>, at: int)
    requires
        0 <= at < items.len(),
        items[at] is Some,
        forall|i: int| 0 <= i < at ==> #[trigger] items[i] is None,
    ensures
        first_some(items) == items[at],
    decreases items.len(),
{
    let front = items.drop_last();
    if at == items.len() - 1 {
        lemma_first_some_none(front);
        assert forall|i: int| 0 <= i < front.len() implies #[trigger] front[i] is None by {
            assert(items[i] == front[i]);
        }
    } else {
        assert(front[at] == items[at]);
        assert forall|i: int| 0 <= i < at implies #[trigger] front[i] is None by {
            assert(items[i] == front[i]);
        }
        lemma_first_some_at(front, at);
    }
}

impl Tree {
    /// For each item of an array, what `rejected` says of it.
    pub open spec fn items_rejected(items: Seq<Tree>) -> Seq<Option<Seq<char>>>
        decreases items, 0int,
    {
        Seq::new(
            items.len(),
            |i: int| if 0 <= i < items.len() { items[i].rejected() } else { None },
        )
    }

    /// For each entry of an object, what `rejected` says of its value.
    pub open spec fn entries_rejected(entries: Seq<(Seq<char>, Tree)>) -> Seq<Option<Seq<char>>>
        decreases entries, 0int,
    {
        Seq::new(
            entries.len(),
            |i: int| if 0 <= i < entries.len() { entries[i].1.rejected() } else { None },
        )
    }

    /// The literal of the first number in the document, read from its
    /// start, that is no integer; `None` where every number is one.
    pub open spec fn rejected(self) -> Option<Seq<char>>
        decreases self, 1int,
    {
        match self {
            Tree::Real(literal) => Some(literal),
            Tree::Array(items) => first_some(Tree::items_rejected(items)),
            Tree::Object(entries) => first_some(Tree::entries_rejected(entries)),
            _ => None,
        }
    }

    /// The items of an array, each in normal form.
    pub open spec fn items_normal(items: Seq<Tree>) -> Seq<Tree>
        decreases items, 0int,
    {
        Seq::new(
            items.len(),
            |i: int| if 0 <= i < items.len() { items[i].normal_form() } else { Tree::Null },
        )
    }

    /// The entries of an object, each value in normal form.
    pub open spec fn entries_normal(entries: Seq<(Seq<char>, Tree)>) -> Seq<(Seq<char>, Tree)>
        decreases entries, 0int,
    {
        Seq::new(
            entries.len(),
            |i: int|
                if 0 <= i < entries.len() {
                    (entries[i].0, entries[i].1.normal_form())
                } else {
                    (Seq::empty(), Tree::Null)
                },
        )
    }

    /// The document with the entries of every object sorted by their
    /// keys; of two entries with one key the later one stays. Arrays keep
    /// their order.
    pub open spec fn normal_form(self) -> Tree
        decreases self, 1int,
    {
        match self {
            Tree::Array(items) => Tree::Array(Tree::items_normal(items)),
            Tree::Object(entries) => Tree::Object(sorted(Tree::entries_normal(entries))),
            _ => self,
        }
    }

    /// The document is in the canonical domain: every number is an
    /// integer, and the keys of every object stand in strictly ascending
    /// order.
    pub open spec fn is_canonical(self) -> bool
        decreases self,
    {
        match self {
            Tree::Real(_) => false,
            Tree::Array(items) => forall|i: int|
                0 <= i < items.len() ==> (#[trigger] items[i]).is_canonical(),
            Tree::Object(entries) => ascending(entries) && forall|i: int|
                0 <= i < entries.len() ==> (#[trigger] entries[i]).1.is_canonical(),
            _ => true,
        }
    }

    /// Among `others` stands an entry with the key of `entry` and a value
    /// that says the same as its value.
    pub open spec fn found_among(entry: (Seq<char>, Tree), others: Seq<(Seq<char>, Tree)>) -> bool
        decreases entry.1, 1int,
    {
        exists|j: int|
            0 <= j < others.len() && (#[trigger] others[j]).0 == entry.0 && entry.1.same_as(
                others[j].1,
            )
    }

    /// Among `entries` stands an entry with the key of `other` and a
    /// value that says the same as its value.
    pub open spec fn finds_among(entries: Seq<(Seq<char>, Tree)>, other: (Seq<char>, Tree)) -> bool
        decreases entries, 1int,
    {
        exists|i: int|
            0 <= i < entries.len() && (#[trigger] entries[i]).0 == other.0 && entries[i].1.same_as(
                other.1,
            )
    }

    /// The two documents say the same: they differ at most in the order
    /// in which the entries of their objects stand, and no object holds
    /// a key twice.
    pub open spec fn same_as(self, other: Tree) -> bool
        decreases self, 0int,
    {
        match self {
            Tree::Array(items) => other matches Tree::Array(others) && items.len() == others.len()
                && forall|i: int|
                0 <= i < items.len() ==> (#[trigger] items[i]).same_as(others[i]),
            Tree::Object(entries) => other matches Tree::Object(others) && distinct_keys(entries)
                && distinct_keys(others) && (forall|i: int|
                0 <= i < entries.len() ==> Tree::found_among(#[trigger] entries[i], others))
                && (forall|j: int|
                0 <= j < others.len() ==> Tree::finds_among(entries, #[trigger] others[j])),
            _ => self == other,
        }
    }

    /// The texts of the items of an array, one for each.
    pub open spec fn item_texts(items: Seq<Tree>) -> Seq<Seq<char>>
        decreases items, 0int,
    {
        Seq::new(
            items.len(),
            |i: int| if 0 <= i < items.len() { items[i].text() } else { Seq::empty() },
        )
    }

    /// The texts of the entries of an object: the key as a string
    /// literal, a colon, and the text of the value.
    pub open spec fn entry_texts(entries: Seq<(Seq<char>, Tree)>) -> Seq<Seq<char>>
        decreases entries, 0int,
    {
        Seq::new(
            entries.len(),
            |i: int|
                if 0 <= i < entries.len() {
                    quoted(entries[i].0) + seq![':'] + entries[i].1.text()
                } else {
                    Seq::empty()
                },
        )
    }

    /// The document written without any whitespace, its arrays and
    /// objects in the order that they have.
    pub open spec fn text(self) -> Seq<char>
        decreases self, 1int,
    {
        match self {
            Tree::Null => "null"@,
            Tree::Bool(b) => if b { "true"@ } else { "false"@ },
            Tree::Integer(n) => decimal(n),
            Tree::Real(literal) => literal,
            Tree::String(s) => quoted(s),
            Tree::Array(items) => seq!['['] + comma_joined(Tree::item_texts(items)) + seq![']'],
            Tree::Object(entries) => seq!['{'] + comma_joined(Tree::entry_texts(entries))
                + seq!['}'],
        }
    }

    /// The bytes of the text, in UTF-8.
    pub open spec fn bytes(self) -> Seq<u8> {
        encode_utf8(self.text())
    }
}

} // verus!
