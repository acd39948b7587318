//! Canonical values and the writer that turns them into bytes.

use vstd::prelude::*;
use vstd::utf8::*;
use vstd::string::*;
use crate::entries::{ascending, Entries};
use crate::error::CanonError;
use crate::grammar::{
    comma_joined, lemma_comma_joined_next, lemma_encode_utf8_ascii, lemma_encode_utf8_concat,
    quoted,
};
use crate::printers::{print_i64, print_string, print_u64};
use crate::tree::Tree;

verus! {

/// An integer of the canonical domain.
#[derive(Clone, Copy, Debug, PartialEq, Eq)]
pub enum Number {
    I64(i64),
    U64(u64),
}

/// A value of the canonical domain.
#[derive(Debug, PartialEq, Eq)]
pub enum Value {
    Array(Vec<Value>),
    Bool(bool),
    Null,
    Number(Number),
    /// The entries of an object, in the order in which they are written.
    Object(Vec<(String, Value)>),
    String(String),
}

impl View for Number {
    type V = int;

    open spec fn view(&self) -> int {
        match *self {
            Number::I64(n) => n as int,
            Number::U64(n) => n as int,
        }
    }
}

impl Number {
    /// An integer that fits an `i64` is held as one.
    pub open spec fn wf(&self) -> bool {
        match *self {
            Number::I64(_) => true,
            Number::U64(n) => n > i64::MAX,
        }
    }
}

impl Value {
    /// The documents that the items of an array stand for.
    pub open spec fn items_tree(items: Seq<Value>) -> Seq<Tree>
        decreases items, 0int,
    {
        Seq::new(
            items.len(),
            |i: int| if 0 <= i < items.len() { items[i].tree() } else { Tree::Null },
        )
    }

    /// The entries of an object, as documents.
    pub open spec fn entries_tree(entries: Seq<(String, Value)>) -> Entries
        decreases entries, 0int,
    {
        Seq::new(
            entries.len(),
            |i: int|
                if 0 <= i < entries.len() {
                    (entries[i].0@, entries[i].1.tree())
                } else {
                    (Seq::empty(), Tree::Null)
                },
        )
    }

    /// The document that the value stands for.
    pub open spec fn tree(&self) -> Tree
        decreases self, 1int,
    {
        match self {
            Value::Null => Tree::Null,
            Value::Bool(b) => Tree::Bool(*b),
            Value::Number(n) => Tree::Integer(n@),
            Value::String(s) => Tree::String(s@),
            Value::Array(items) => Tree::Array(Value::items_tree(items@)),
            Value::Object(entries) => Tree::Object(Value::entries_tree(entries@)),
        }
    }

    /// The value is in canonical form: the keys of every object stand in
    /// strictly ascending order, and every integer that fits an `i64` is
    /// held as one.
    pub open spec fn wf(&self) -> bool
        decreases self,
    {
        match self {
            Value::Number(n) => n.wf(),
            Value::Array(items) => forall|i: int|
                0 <= i < items@.len() ==> (#[trigger] items@[i]).wf(),
            Value::Object(entries) => ascending(Value::entries_tree(entries@)) && forall|i: int|
                0 <= i < entries@.len() ==> (#[trigger] entries@[i]).1.wf(),
            _ => true,
        }
    }

    /// A value in canonical form stands for a document of the canonical
    /// domain.
    pub proof fn lemma_wf_canonical(&self)
        requires
            self.wf(),
        ensures
            self@.is_canonical(),
        decreases self,
    {
        match self {
            Value::Array(items) => {
                let trees = Value::items_tree(items@);
                assert forall|i: int| 0 <= i < trees.len() implies (#[trigger] trees[i])
                    .is_canonical() by {
                    items@[i].lemma_wf_canonical();
                }
            },
            Value::Object(entries) => {
                let trees = Value::entries_tree(entries@);
                assert forall|i: int| 0 <= i < trees.len() implies (#[trigger] trees[i]).1
                    .is_canonical() by {
                    entries@[i].1.lemma_wf_canonical();
                }
            },
            _ => {},
        }
    }
}

impl View for Value {
    type V = Tree;

    open spec fn view(&self) -> Tree {
        self.tree()
    }
}

/// Appends one character of ASCII.
fn put_ascii(buf: &mut Vec<u8>, c: char)
    requires
        (c as u32) < 0x80,
    ensures
        final(buf)@ == old(buf)@ + encode_utf8(seq![c]),
{
    proof {
        lemma_encode_utf8_ascii(c);
    }
    buf.push(c as u8);
    assert(buf@ == old(buf)@ + seq![c as u8]);
}

/// Appends a text, in UTF-8.
fn put_str(buf: &mut Vec<u8>, s: &str)
    ensures
        final(buf)@ == old(buf)@ + encode_utf8(s@),
{
    buf.extend_from_slice(s.as_bytes());
    assert(buf@ == old(buf)@ + encode_utf8(s@));
}

impl Value {
    /// Appends the canonical encoding of the value to `buf`: the text of
    /// the document that it stands for, in UTF-8. Writing into a vector
    /// in memory does not fail, so the result is always `Ok`.
    pub fn write(&self, buf: &mut Vec<u8>) -> (r: Result<(), CanonError>)
        ensures
            r is Ok,
            final(buf)@ == old(buf)@ + self@.bytes(),
        decreases self,
    {
        match self {
            Value::Null => {
                put_str(buf, "null");
                Ok(())
            },
            Value::Bool(true) => {
                put_str(buf, "true");
                Ok(())
            },
            Value::Bool(false) => {
                put_str(buf, "false");
                Ok(())
            },
            Value::Number(Number::I64(n)) => {
                let s = print_i64(*n);
                put_str(buf, s.as_str());
                Ok(())
            },
            Value::Number(Number::U64(n)) => {
                let s = print_u64(*n);
                put_str(buf, s.as_str());
                Ok(())
            },
            Value::String(s) => {
                match print_string(s) {
                    Ok(t) => {
                        put_str(buf, t.as_str());
                        Ok(())
                    },
                    Err(_) => Err(CanonError::EncodingFailure),
                }
            },
            Value::Array(arr) => {
                let ghost base = buf@;
                let ghost parts = Tree::item_texts(Value::items_tree(arr@));
                put_ascii(buf, '[');
                let mut first = true;
                let mut i: usize = 0;
                while i < arr.len()
                    invariant
                        i <= arr.len(),
                        first == (i == 0),
                        self matches Value::Array(a) && a == arr,
                        parts == Tree::item_texts(Value::items_tree(arr@)),
                        buf@ == base + encode_utf8(
                            seq!['['] + comma_joined(parts.take(i as int)),
                        ),
                    decreases arr.len() - i,
                {
                    let ghost before = seq!['['] + comma_joined(parts.take(i as int));
                    if !first {
                        put_ascii(buf, ',');
                        proof {
                            lemma_encode_utf8_concat(before, seq![',']);
                        }
                    }
                    first = false;
                    let ghost sep = if i == 0 {
                        before
                    } else {
                        before + seq![',']
                    };
                    arr[i].write(buf)?;
                    proof {
                        lemma_comma_joined_next(parts, i as int);
                        lemma_encode_utf8_concat(sep, parts[i as int]);
                        assert(parts.take(0) == Seq::<Seq<char>>::empty());
                        assert(sep + parts[i as int] == seq!['['] + comma_joined(
                            parts.take(i + 1),
                        ));
                    }
                    i += 1;
                }
                put_ascii(buf, ']');
                proof {
                    assert(parts.take(arr.len() as int) == parts);
                    lemma_encode_utf8_concat(seq!['['] + comma_joined(parts), seq![']']);
                }
                Ok(())
            },
            Value::Object(obj) => {
                let ghost base = buf@;
                let ghost parts = Tree::entry_texts(Value::entries_tree(obj@));
                put_ascii(buf, '{');
                let mut first = true;
                let mut i: usize = 0;
                while i < obj.len()
                    invariant
                        i <= obj.len(),
                        first == (i == 0),
                        self matches Value::Object(o) && o == obj,
                        parts == Tree::entry_texts(Value::entries_tree(obj@)),
                        buf@ == base + encode_utf8(
                            seq!['{'] + comma_joined(parts.take(i as int)),
                        ),
                    decreases obj.len() - i,
                {
                    let ghost before = seq!['{'] + comma_joined(parts.take(i as int));
                    if !first {
                        put_ascii(buf, ',');
                        proof {
                            lemma_encode_utf8_concat(before, seq![',']);
                        }
                    }
                    first = false;
                    let ghost sep = if i == 0 {
                        before
                    } else {
                        before + seq![',']
                    };
                    let ghost key = quoted(obj[i as int].0@);
                    match print_string(&obj[i].0) {
                        Ok(k) => {
                            put_str(buf, k.as_str());
                        },
                        Err(_) => {
                            return Err(CanonError::EncodingFailure);
                        },
                    }
                    put_ascii(buf, ':');
                    obj[i].1.write(buf)?;
                    proof {
                        let val = obj[i as int].1@.text();
                        lemma_comma_joined_next(parts, i as int);
                        lemma_encode_utf8_concat(sep, key);
                        lemma_encode_utf8_concat(sep + key, seq![':']);
                        lemma_encode_utf8_concat(sep + key + seq![':'], val);
                        assert(parts.take(0) == Seq::<Seq<char>>::empty());
                        assert(parts[i as int] == key + seq![':'] + val);
                        assert(sep + key + seq![':'] + val == seq!['{'] + comma_joined(
                            parts.take(i + 1),
                        ));
                    }
                    i += 1;
                }
                put_ascii(buf, '}');
                proof {
                    assert(parts.take(obj.len() as int) == parts);
                    lemma_encode_utf8_concat(seq!['{'] + comma_joined(parts), seq!['}']);
                }
                Ok(())
            },
        }
    }
}

} // verus!
