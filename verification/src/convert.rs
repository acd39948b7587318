//! From any JSON value to its canonical form, and on to bytes.

use vstd::prelude::*;
use crate::entries::{ascending, lemma_put_ascending, lemma_put_at, put, sorted};
use crate::error::CanonError;
use crate::order::{key_before, key_rank, Rank};
use crate::raw::RawValue;
use crate::tree::{lemma_first_some_at, lemma_first_some_none, Tree};
use crate::value::{Number, Value};

verus! {

/// Where a key belongs among ascending entries: the index behind the
/// last entry whose key comes before it or is the same, and whether
/// that entry has the same key.
fn find_slot(entries: &Vec<(String, Value)>, key: &str) -> (slot: (usize, bool))
    ensures
        slot.0 <= entries.len(),
        forall|i: int|
            slot.0 <= i < entries.len() ==> key_before(key@, (#[trigger] entries[i]).0@),
        slot.1 ==> slot.0 > 0 && entries[slot.0 - 1].0@ == key@,
        !slot.1 ==> slot.0 == 0 || key_before(entries[slot.0 - 1].0@, key@),
{
    let mut at: usize = entries.len();
    while at > 0
        invariant
            at <= entries.len(),
            forall|i: int| at <= i < entries.len() ==> key_before(key@, (#[trigger] entries[i]).0@),
        decreases at,
    {
        match key_rank(entries[at - 1].0.as_str(), key) {
            Rank::Before => {
                return (at, false);
            },
            Rank::Same => {
                return (at, true);
            },
            Rank::After => {
                at -= 1;
            },
        }
    }
    (at, false)
}

/// Puts an entry into ascending entries: in the place of the entry with
/// the same key, where there is one, or else where its key belongs.
fn insert_entry(entries: &mut Vec<(String, Value)>, key: String, value: Value)
    requires
        ascending(Value::entries_tree(old(entries)@)),
        forall|i: int| 0 <= i < old(entries).len() ==> (#[trigger] old(entries)[i]).1.wf(),
        value.wf(),
    ensures
        Value::entries_tree(final(entries)@) == put(
            Value::entries_tree(old(entries)@),
            key@,
            value@,
        ),
        ascending(Value::entries_tree(final(entries)@)),
        forall|i: int| 0 <= i < final(entries).len() ==> (#[trigger] final(entries)[i]).1.wf(),
{
    let (at, same) = find_slot(entries, key.as_str());
    let ghost before = Value::entries_tree(entries@);
    proof {
        assert forall|i: int| at <= i < before.len() implies key_before(
            key@,
            (#[trigger] before[i]).0,
        ) by {
            assert(before[i].0 == entries[i].0@);
        }
        lemma_put_at(before, key@, value@, at as int);
        lemma_put_ascending(before, key@, value@);
    }
    if same {
        entries[at - 1] = (key, value);
        assert(Value::entries_tree(entries@) == before.update(at - 1, (key@, value@)));
    } else {
        entries.insert(at, (key, value));
        assert(Value::entries_tree(entries@) == before.insert(at as int, (key@, value@)));
    }
}

/// Brings a value into canonical form.
///
/// Arrays keep their order; the entries of every object are sorted by
/// the bytes of their keys. An integer is held as an `i64` where it fits
/// one, else as a `u64`. The value is refused where it holds a number
/// that is not such an integer; the error names the first of them.
pub fn convert(raw: &RawValue) -> (r: Result<Value, CanonError>)
    ensures
        r is Ok <==> raw@.rejected() is None,
        r matches Ok(value) ==> value@ == raw@.normal_form() && value.wf() && value@.is_canonical(),
        r matches Err(e) ==> e matches CanonError::UnsupportedNumber(literal) && Some(literal@)
            == raw@.rejected(),
    decreases raw,
{
    match raw {
        RawValue::Null => Ok(Value::Null),
        RawValue::Bool(b) => Ok(Value::Bool(*b)),
        RawValue::Number(n) => match n.as_i64() {
            Some(i) => Ok(Value::Number(Number::I64(i))),
            None => match n.as_u64() {
                Some(u) => Ok(Value::Number(Number::U64(u))),
                None => Err(CanonError::UnsupportedNumber(n.literal())),
            },
        },
        RawValue::String(s) => Ok(Value::String(s.clone())),
        RawValue::Array(arr) => {
            let ghost verdicts = Tree::items_rejected(RawValue::items_tree(arr@));
            let mut out: Vec<Value> = Vec::new();
            let mut i: usize = 0;
            while i < arr.len()
                invariant
                    i <= arr.len(),
                    raw matches RawValue::Array(a) && a == arr,
                    verdicts == Tree::items_rejected(RawValue::items_tree(arr@)),
                    out.len() == i,
                    forall|j: int| 0 <= j < i ==> (#[trigger] verdicts[j]) is None,
                    forall|j: int|
                        0 <= j < i ==> (#[trigger] out[j])@ == arr[j]@.normal_form() && out[j].wf(),
                decreases arr.len() - i,
            {
                match convert(&arr[i]) {
                    Ok(value) => {
                        out.push(value);
                    },
                    Err(e) => {
                        proof {
                            lemma_first_some_at(verdicts, i as int);
                        }
                        return Err(e);
                    },
                }
                i += 1;
            }
            proof {
                lemma_first_some_none(verdicts);
                assert(Value::items_tree(out@) == Tree::items_normal(RawValue::items_tree(arr@)));
            }
            let value = Value::Array(out);
            proof {
                value.lemma_wf_canonical();
            }
            Ok(value)
        },
        RawValue::Object(obj) => {
            let ghost verdicts = Tree::entries_rejected(RawValue::entries_tree(obj@));
            let ghost given = Tree::entries_normal(RawValue::entries_tree(obj@));
            let mut out: Vec<(String, Value)> = Vec::new();
            let mut i: usize = 0;
            assert(given.take(0) == Seq::<(Seq<char>, Tree)>::empty());
            while i < obj.len()
                invariant
                    i <= obj.len(),
                    raw matches RawValue::Object(o) && o == obj,
                    verdicts == Tree::entries_rejected(RawValue::entries_tree(obj@)),
                    given == Tree::entries_normal(RawValue::entries_tree(obj@)),
                    forall|j: int| 0 <= j < i ==> (#[trigger] verdicts[j]) is None,
                    Value::entries_tree(out@) == sorted(given.take(i as int)),
                    ascending(Value::entries_tree(out@)),
                    forall|j: int| 0 <= j < out.len() ==> (#[trigger] out[j]).1.wf(),
                decreases obj.len() - i,
            {
                match convert(&obj[i].1) {
                    Ok(value) => {
                        proof {
                            assert(given.take(i + 1).drop_last() == given.take(i as int));
                        }
                        insert_entry(&mut out, obj[i].0.clone(), value);
                    },
                    Err(e) => {
                        proof {
                            lemma_first_some_at(verdicts, i as int);
                        }
                        return Err(e);
                    },
                }
                i += 1;
            }
            proof {
                lemma_first_some_none(verdicts);
                assert(given.take(obj.len() as int) == given);
            }
            let value = Value::Object(out);
            proof {
                value.lemma_wf_canonical();
            }
            Ok(value)
        },
    }
}

/// The canonical encoding of a value: its canonical form, written
/// without whitespace.
pub fn canonicalize(raw: &RawValue) -> (r: Result<Vec<u8>, CanonError>)
    ensures
        r is Ok <==> raw@.rejected() is None,
        r matches Ok(bytes) ==> bytes@ == raw@.normal_form().bytes(),
        r matches Err(e) ==> e matches CanonError::UnsupportedNumber(literal) && Some(literal@)
            == raw@.rejected(),
{
    match convert(raw) {
        Ok(converted) => {
            let mut buf: Vec<u8> = Vec::new();
            converted.write(&mut buf)?;
            Ok(buf)
        },
        Err(e) => Err(e),
    }
}

} // verus!
