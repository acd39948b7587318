//! The entries of an object, kept in the order of their keys.

use vstd::prelude::*;
use crate::order::{key_before, lemma_key_before_strict, lemma_key_before_transitive};
use crate::tree::Tree;

verus! {

/// The entries of an object: each a key and its value.
pub type Entries = Seq<(Seq<char>, Tree)>;

/// The keys stand in strictly ascending order, so that none occurs twice.
pub open spec fn ascending(entries: Entries) -> bool {
    forall|i: int, j: int|
        0 <= i < j < entries.len() ==> key_before(
            (#[trigger] entries[i]).0,
            (#[trigger] entries[j]).0,
        )
}

/// No key occurs twice.
pub open spec fn distinct_keys(entries: Entries) -> bool {
    forall|i: int, j: int|
        0 <= i < j < entries.len() ==> (#[trigger] entries[i]).0 != (#[trigger] entries[j]).0
}

/// The value that the entries give to a key: that of the last entry with
/// this key, if there is one.
pub open spec fn value_of(entries: Entries, key: Seq<char>) -> Option<Tree>
    decreases entries.len(),
{
    if entries.len() == 0 {
        None
    } else if entries.last().0 == key {
        Some(entries.last().1)
    } else {
        value_of(entries.drop_last(), key)
    }
}

/// Ascending entries with one more entry put in its place; an entry that
/// had the same key gives way to it.
pub open spec fn put(entries: Entries, key: Seq<char>, value: Tree) -> Entries
    decreases entries.len(),
{
    if entries.len() == 0 {
        seq![(key, value)]
    } else if key_before(entries.last().0, key) {
        entries.push((key, value))
    } else if entries.last().0 == key {
        entries.drop_last().push((key, value))
    } else {
        put(entries.drop_last(), key, value).push(entries.last())
    }
}

/// The entries in the order of their keys; of two entries with one key
/// the later one stays. They are put one after the other, from the
/// first to the last, into an object that was empty.
pub open spec fn sorted(entries: Entries) -> Entries
    decreases entries.len(),
{
    if entries.len() == 0 {
        Seq::empty()
    } else {
        put(sorted(entries.drop_last()), entries.last().0, entries.last().1)
    }
}

/// Ascending keys are distinct.
pub proof fn lemma_ascending_distinct(entries: Entries)
    requires
        ascending(entries),
    ensures
        distinct_keys(entries),
{
    assert forall|i: int, j: int| 0 <= i < j < entries.len() implies (#[trigger] entries[i]).0 != (
    #[trigger] entries[j]).0 by {
        lemma_key_before_strict(entries[i].0, entries[j].0);
    }
}

/// What `put` returns holds nothing but the new entry and entries that
/// were there.
pub proof fn lemma_put_members(entries: Entries, key: Seq<char>, value: Tree)
    ensures
        forall|i: int|
            0 <= i < put(entries, key, value).len() ==> {
                let e = #[trigger] put(entries, key, value)[i];
                e == (key, value) || entries.contains(e)
            },
    decreases entries.len(),
{
    let r = put(entries, key, value);
    if entries.len() == 0 {
    } else if key_before(entries.last().0, key) {
        assert forall|i: int| 0 <= i < r.len() implies (#[trigger] r[i] == (key, value)
            || entries.contains(r[i])) by {
            if i < entries.len() {
                assert(r[i] == entries[i]);
            }
        }
    } else if entries.last().0 == key {
        assert forall|i: int| 0 <= i < r.len() implies (#[trigger] r[i] == (key, value)
            || entries.contains(r[i])) by {
            if i < entries.len() - 1 {
                assert(r[i] == entries[i]);
            }
        }
    } else {
        let front = entries.drop_last();
        lemma_put_members(front, key, value);
        let inner = put(front, key, value);
        assert forall|i: int| 0 <= i < r.len() implies (#[trigger] r[i] == (key, value)
            || entries.contains(r[i])) by {
            if i < inner.len() {
                assert(r[i] == inner[i]);
                if inner[i] != (key, value) {
                    let m = choose|m: int| 0 <= m < front.len() && front[m] == inner[i];
                    assert(entries[m] == inner[i]);
                }
            } else {
                assert(r[i] == entries[entries.len() - 1]);
            }
        }
    }
}

/// `put` keeps ascending entries ascending.
pub proof fn lemma_put_ascending(entries: Entries, key: Seq<char>, value: Tree)
    requires
        ascending(entries),
    ensures
        ascending(put(entries, key, value)),
    decreases entries.len(),
{
    let r = put(entries, key, value);
    if entries.len() == 0 {
    } else if key_before(entries.last().0, key) {
        assert forall|i: int, j: int| 0 <= i < j < r.len() implies key_before(
            (#[trigger] r[i]).0,
            (#[trigger] r[j]).0,
        ) by {
            if j == entries.len() {
                if i < entries.len() - 1 {
                    assert(key_before(entries[i].0, entries[entries.len() - 1].0));
                    lemma_key_before_transitive(entries[i].0, entries.last().0, key);
                }
            } else {
                assert(r[i] == entries[i] && r[j] == entries[j]);
            }
        }
    } else if entries.last().0 == key {
        assert forall|i: int, j: int| 0 <= i < j < r.len() implies key_before(
            (#[trigger] r[i]).0,
            (#[trigger] r[j]).0,
        ) by {
            if j == entries.len() - 1 {
                assert(key_before(entries[i].0, entries[entries.len() - 1].0));
            } else {
                assert(r[i] == entries[i] && r[j] == entries[j]);
            }
        }
    } else {
        let front = entries.drop_last();
        let last = entries.last();
        assert(ascending(front)) by {
            assert forall|i: int, j: int| 0 <= i < j < front.len() implies key_before(
                (#[trigger] front[i]).0,
                (#[trigger] front[j]).0,
            ) by {
                assert(front[i] == entries[i] && front[j] == entries[j]);
            }
        }
        lemma_put_ascending(front, key, value);
        lemma_put_members(front, key, value);
        lemma_key_before_strict(last.0, key);
        let inner = put(front, key, value);
        assert forall|i: int, j: int| 0 <= i < j < r.len() implies key_before(
            (#[trigger] r[i]).0,
            (#[trigger] r[j]).0,
        ) by {
            if j == inner.len() {
                assert(r[i] == inner[i]);
                if inner[i] != (key, value) {
                    let m = choose|m: int| 0 <= m < front.len() && front[m] == inner[i];
                    assert(entries[m] == inner[i]);
                    assert(key_before(entries[m].0, entries[entries.len() - 1].0));
                }
            } else {
                assert(r[i] == inner[i] && r[j] == inner[j]);
            }
        }
    }
}

/// Where `put` places the new entry: after the entry at `at - 1`, whose
/// key comes before the new one or is the same, and before the entries
/// from `at` on, whose keys come after it.
pub proof fn lemma_put_at(entries: Entries, key: Seq<char>, value: Tree, at: int)
    requires
        0 <= at <= entries.len(),
        forall|i: int| at <= i < entries.len() ==> key_before(key, (#[trigger] entries[i]).0),
        at == 0 || key_before(entries[at - 1].0, key) || entries[at - 1].0 == key,
    ensures
        put(entries, key, value) == if at > 0 && entries[at - 1].0 == key {
            entries.update(at - 1, (key, value))
        } else {
            entries.insert(at, (key, value))
        },
    decreases entries.len(),
{
    if at < entries.len() {
        let front = entries.drop_last();
        let last = entries.last();
        assert(key_before(key, entries[entries.len() - 1].0));
        lemma_key_before_strict(key, last.0);
        assert forall|i: int| at <= i < front.len() implies key_before(
            key,
            (#[trigger] front[i]).0,
        ) by {
            assert(front[i] == entries[i]);
        }
        if at > 0 {
            assert(front[at - 1] == entries[at - 1]);
        }
        lemma_put_at(front, key, value, at);
        if at > 0 && entries[at - 1].0 == key {
            assert(front.update(at - 1, (key, value)).push(last) == entries.update(
                at - 1,
                (key, value),
            ));
        } else {
            assert(front.insert(at, (key, value)).push(last) == entries.insert(at, (key, value)));
        }
    } else if at > 0 {
        if key_before(entries.last().0, key) {
            lemma_key_before_strict(entries.last().0, key);
            assert(entries.push((key, value)) == entries.insert(at, (key, value)));
        } else {
            assert(entries.drop_last().push((key, value)) == entries.update(
                at - 1,
                (key, value),
            ));
        }
    } else {
        assert(seq![(key, value)] == entries.insert(0, (key, value)));
    }
}

/// Sorted entries are ascending, and each of them is one of the entries
/// that were given.
pub proof fn lemma_sorted_ascending(entries: Entries)
    ensures
        ascending(sorted(entries)),
        forall|i: int|
            0 <= i < sorted(entries).len() ==> entries.contains(#[trigger] sorted(entries)[i]),
    decreases entries.len(),
{
    if entries.len() > 0 {
        let front = entries.drop_last();
        let last = entries.last();
        lemma_sorted_ascending(front);
        lemma_put_ascending(sorted(front), last.0, last.1);
        lemma_put_members(sorted(front), last.0, last.1);
        let r = sorted(entries);
        assert forall|i: int| 0 <= i < r.len() implies entries.contains(#[trigger] r[i]) by {
            if r[i] == last {
                assert(entries[entries.len() - 1] == last);
            } else {
                let m = choose|m: int| 0 <= m < sorted(front).len() && sorted(front)[m] == r[i];
                let n = choose|n: int| 0 <= n < front.len() && front[n] == sorted(front)[m];
                assert(entries[n] == r[i]);
            }
        }
    }
}

/// Entries that are ascending already are left as they are.
pub proof fn lemma_sorted_fixed(entries: Entries)
    requires
        ascending(entries),
    ensures
        sorted(entries) == entries,
    decreases entries.len(),
{
    if entries.len() > 0 {
        let front = entries.drop_last();
        let last = entries.last();
        assert(ascending(front)) by {
            assert forall|i: int, j: int| 0 <= i < j < front.len() implies key_before(
                (#[trigger] front[i]).0,
                (#[trigger] front[j]).0,
            ) by {
                assert(front[i] == entries[i] && front[j] == entries[j]);
            }
        }
        lemma_sorted_fixed(front);
        if front.len() > 0 {
            assert(front.last() == entries[entries.len() - 2]);
            assert(key_before(entries[entries.len() - 2].0, entries[entries.len() - 1].0));
        }
        assert(front.push(last) == entries);
    }
}

/// After `put`, the key that was put has the new value and every other
/// key the value that it had.
pub proof fn lemma_put_value_of(entries: Entries, key: Seq<char>, value: Tree, other: Seq<char>)
    ensures
        value_of(put(entries, key, value), other) == if other == key {
            Some(value)
        } else {
            value_of(entries, other)
        },
    decreases entries.len(),
{
    let r = put(entries, key, value);
    if entries.len() == 0 {
        assert(r.drop_last() == entries);
    } else if key_before(entries.last().0, key) {
        assert(r.drop_last() == entries);
    } else if entries.last().0 == key {
        assert(r.drop_last() == entries.drop_last());
    } else {
        lemma_put_value_of(entries.drop_last(), key, value, other);
        assert(r.drop_last() == put(entries.drop_last(), key, value));
    }
}

/// Sorting changes the value of no key.
pub proof fn lemma_sorted_value_of(entries: Entries, key: Seq<char>)
    ensures
        value_of(sorted(entries), key) == value_of(entries, key),
    decreases entries.len(),
{
    if entries.len() > 0 {
        let front = entries.drop_last();
        let last = entries.last();
        lemma_sorted_value_of(front, key);
        lemma_put_value_of(sorted(front), last.0, last.1, key);
    }
}

/// A key that has a value stands in some entry with that value.
pub proof fn lemma_value_of_member(entries: Entries, key: Seq<char>)
    requires
        value_of(entries, key) is Some,
    ensures
        entries.contains((key, value_of(entries, key)->Some_0)),
    decreases entries.len(),
{
    if entries.last().0 == key {
        assert(entries[entries.len() - 1] == (key, value_of(entries, key)->Some_0));
    } else {
        lemma_value_of_member(entries.drop_last(), key);
        let e = (key, value_of(entries, key)->Some_0);
        let m = choose|m: int| 0 <= m < entries.drop_last().len() && entries.drop_last()[m] == e;
        assert(entries[m] == e);
    }
}

/// Where no key occurs twice, each entry gives its key its value.
pub proof fn lemma_member_value_of(entries: Entries, i: int)
    requires
        distinct_keys(entries),
        0 <= i < entries.len(),
    ensures
        value_of(entries, entries[i].0) == Some(entries[i].1),
    decreases entries.len(),
{
    if i < entries.len() - 1 {
        let front = entries.drop_last();
        assert(entries[i].0 != entries[entries.len() - 1].0);
        assert(distinct_keys(front)) by {
            assert forall|a: int, b: int| 0 <= a < b < front.len() implies (#[trigger] front[a]).0
                != (#[trigger] front[b]).0 by {
                assert(front[a] == entries[a] && front[b] == entries[b]);
            }
        }
        assert(front[i] == entries[i]);
        lemma_member_value_of(front, i);
    }
}

/// Two ascending lists of entries that give every key the same value are
/// the same list.
pub proof fn lemma_ascending_unique(a: Entries, b: Entries)
    requires
        ascending(a),
        ascending(b),
        forall|key: Seq<char>| value_of(a, key) == value_of(b, key),
    ensures
        a == b,
    decreases a.len(),
{
    lemma_ascending_distinct(a);
    lemma_ascending_distinct(b);
    if a.len() == 0 {
        if b.len() > 0 {
            lemma_member_value_of(b, 0);
            assert(value_of(a, b[0].0) == value_of(b, b[0].0));
        }
        assert(a == b);
    } else if b.len() == 0 {
        lemma_member_value_of(a, 0);
        assert(value_of(a, a[0].0) == value_of(b, a[0].0));
    } else {
        let la = a.last();
        let lb = b.last();
        lemma_member_value_of(a, a.len() - 1);
        lemma_member_value_of(b, b.len() - 1);
        assert(value_of(a, la.0) == value_of(b, la.0));
        assert(value_of(a, lb.0) == value_of(b, lb.0));
        lemma_value_of_member(b, la.0);
        lemma_value_of_member(a, lb.0);
        let ib = choose|m: int| 0 <= m < b.len() && b[m] == (la.0, value_of(b, la.0)->Some_0);
        let ia = choose|m: int| 0 <= m < a.len() && a[m] == (lb.0, value_of(a, lb.0)->Some_0);
        lemma_key_before_strict(la.0, lb.0);
        if ib < b.len() - 1 {
            assert(key_before(b[ib].0, b[b.len() - 1].0));
        }
        if ia < a.len() - 1 {
            assert(key_before(a[ia].0, a[a.len() - 1].0));
        }
        assert(la.0 == lb.0);
        assert(la == lb);
        let fa = a.drop_last();
        let fb = b.drop_last();
        assert(ascending(fa)) by {
            assert forall|i: int, j: int| 0 <= i < j < fa.len() implies key_before(
                (#[trigger] fa[i]).0,
                (#[trigger] fa[j]).0,
            ) by {
                assert(fa[i] == a[i] && fa[j] == a[j]);
            }
        }
        assert(ascending(fb)) by {
            assert forall|i: int, j: int| 0 <= i < j < fb.len() implies key_before(
                (#[trigger] fb[i]).0,
                (#[trigger] fb[j]).0,
            ) by {
                assert(fb[i] == b[i] && fb[j] == b[j]);
            }
        }
        assert forall|key: Seq<char>| value_of(fa, key) == value_of(fb, key) by {
            if key == la.0 {
                if value_of(fa, key) is Some {
                    lemma_value_of_member(fa, key);
                    let m = choose|m: int|
                        0 <= m < fa.len() && fa[m] == (key, value_of(fa, key)->Some_0);
                    assert(a[m] == fa[m]);
                    assert(key_before(a[m].0, a[a.len() - 1].0));
                    lemma_key_before_strict(a[m].0, la.0);
                }
                if value_of(fb, key) is Some {
                    lemma_value_of_member(fb, key);
                    let m = choose|m: int|
                        0 <= m < fb.len() && fb[m] == (key, value_of(fb, key)->Some_0);
                    assert(b[m] == fb[m]);
                    assert(key_before(b[m].0, b[b.len() - 1].0));
                    lemma_key_before_strict(b[m].0, lb.0);
                }
            } else {
                assert(value_of(a, key) == value_of(b, key));
            }
        }
        lemma_ascending_unique(fa, fb);
        assert(a == fa.push(la));
        assert(b == fb.push(lb));
    }
}

/// What sorting is: the sorted entries are the one ascending list that
/// gives every key the value that the given entries give it.
pub proof fn lemma_sorted_is_unique(entries: Entries, other: Entries)
    requires
        ascending(other),
        forall|key: Seq<char>| value_of(other, key) == value_of(entries, key),
    ensures
        other == sorted(entries),
{
    lemma_sorted_ascending(entries);
    assert forall|key: Seq<char>| value_of(other, key) == value_of(sorted(entries), key) by {
        lemma_sorted_value_of(entries, key);
    }
    lemma_ascending_unique(other, sorted(entries));
}

/// Entries with distinct keys that hold the same pairs give every key
/// the same value, in whatever order they stand.
pub proof fn lemma_same_pairs_same_values(a: Entries, b: Entries, key: Seq<char>)
    requires
        distinct_keys(a),
        distinct_keys(b),
        forall|e: (Seq<char>, Tree)| a.contains(e) <==> b.contains(e),
    ensures
        value_of(a, key) == value_of(b, key),
{
    if value_of(a, key) is Some {
        lemma_value_of_member(a, key);
        let e = (key, value_of(a, key)->Some_0);
        assert(b.contains(e));
        let m = choose|m: int| 0 <= m < b.len() && b[m] == e;
        lemma_member_value_of(b, m);
    } else if value_of(b, key) is Some {
        lemma_value_of_member(b, key);
        let e = (key, value_of(b, key)->Some_0);
        assert(a.contains(e));
        let m = choose|m: int| 0 <= m < a.len() && a[m] == e;
        lemma_member_value_of(a, m);
    }
}

} // verus!
