//! JSON values as a general-purpose JSON library hands them over: any
//! number, objects in any order.

use vstd::prelude::*;
use crate::entries::Entries;
use crate::printers::{print_i64, print_u64};
use crate::tree::Tree;

verus! {

/// A JSON number.
#[derive(Debug, PartialEq, Eq)]
pub enum RawNumber {
    /// An integer that is not negative.
    Unsigned(u64),
    /// An integer, most often a negative one.
    Signed(i64),
    /// Any other number (one with a fraction or an exponent, one too
    /// large for 64 bits), by its literal.
    Real(String),
}

/// A JSON value of any kind.
#[derive(Debug, PartialEq, Eq)]
pub enum RawValue {
    Null,
    Bool(bool),
    Number(RawNumber),
    String(String),
    Array(Vec<RawValue>),
    /// The entries of an object, in the order in which they were given.
    Object(Vec<(String, RawValue)>),
}

impl View for RawNumber {
    type V = Tree;

    open spec fn view(&self) -> Tree {
        match self {
            RawNumber::Unsigned(n) => Tree::Integer(*n as int),
            RawNumber::Signed(n) => Tree::Integer(*n as int),
            RawNumber::Real(literal) => Tree::Real(literal@),
        }
    }
}

impl RawNumber {
    /// The number as an `i64`, where it is an integer that fits one.
    pub fn as_i64(&self) -> (r: Option<i64>)
        ensures
            r == match self@ {
                Tree::Integer(n) if i64::MIN <= n <= i64::MAX => Some(n as i64),
                _ => None,
            },
    {
        match self {
            RawNumber::Unsigned(n) => {
                if *n <= i64::MAX as u64 {
                    Some(*n as i64)
                } else {
                    None
                }
            },
            RawNumber::Signed(n) => Some(*n),
            RawNumber::Real(_) => None,
        }
    }

    /// The number as a `u64`, where it is an integer that fits one.
    pub fn as_u64(&self) -> (r: Option<u64>)
        ensures
            r == match self@ {
                Tree::Integer(n) if 0 <= n <= u64::MAX => Some(n as u64),
                _ => None,
            },
    {
        match self {
            RawNumber::Unsigned(n) => Some(*n),
            RawNumber::Signed(n) => {
                if *n >= 0 {
                    Some(*n as u64)
                } else {
                    None
                }
            },
            RawNumber::Real(_) => None,
        }
    }

    /// The number as it is written.
    pub fn literal(&self) -> (r: String)
        ensures
            r@ == self@.text(),
    {
        match self {
            RawNumber::Unsigned(n) => print_u64(*n),
            RawNumber::Signed(n) => print_i64(*n),
            RawNumber::Real(literal) => literal.clone(),
        }
    }
}

impl RawValue {
    /// The documents that the items of an array stand for.
    pub open spec fn items_tree(items: Seq<RawValue>) -> Seq<Tree>
        decreases items, 0int,
    {
        Seq::new(
            items.len(),
            |i: int| if 0 <= i < items.len() { items[i].tree() } else { Tree::Null },
        )
    }

    /// The entries of an object, as documents.
    pub open spec fn entries_tree(entries: Seq<(String, RawValue)>) -> Entries
        decreases entries, 0int,
    {
        Seq::new(
            entries.len(),
            |i: int|
                if 0 <= i < entries.len() {
                    (entries[i].0@, entries[i].1.tree())
                } else {
                    (Seq::empty(), Tree::Null)
                },
        )
    }

    /// The document that the value stands for.
    pub open spec fn tree(&self) -> Tree
        decreases self, 1int,
    {
        match self {
            RawValue::Null => Tree::Null,
            RawValue::Bool(b) => Tree::Bool(*b),
            RawValue::Number(n) => n@,
            RawValue::String(s) => Tree::String(s@),
            RawValue::Array(items) => Tree::Array(RawValue::items_tree(items@)),
            RawValue::Object(entries) => Tree::Object(RawValue::entries_tree(entries@)),
        }
    }
}

impl View for RawValue {
    type V = Tree;

    open spec fn view(&self) -> Tree {
        self.tree()
    }
}

} // verus!
