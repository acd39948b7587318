//! The order of object keys: by their bytes in UTF-8.

use vstd::prelude::*;
use vstd::utf8::*;
use vstd::string::*;
use crate::grammar::lemma_utf8_injective;

verus! {

/// `a` comes before `b`, byte by byte: `a` is `b` cut short, or at the
/// first place where the two differ `a` has the smaller byte.
pub open spec fn bytes_before(a: Seq<u8>, b: Seq<u8>) -> bool {
    exists|k: int|
        0 <= k <= a.len() && k < b.len() && #[trigger] a.take(k) == b.take(k) && (k == a.len()
            || a[k] < b[k])
}

/// The key `a` comes before the key `b`: so do their bytes in UTF-8.
pub open spec fn key_before(a: Seq<char>, b: Seq<char>) -> bool {
    bytes_before(encode_utf8(a), encode_utf8(b))
}

/// No byte string comes before itself, and of two at most one comes
/// before the other.
pub proof fn lemma_bytes_before_asymmetric(a: Seq<u8>, b: Seq<u8>)
    requires
        bytes_before(a, b),
    ensures
        !bytes_before(b, a),
        a != b,
{
    let k = choose|k: int|
        0 <= k <= a.len() && k < b.len() && #[trigger] a.take(k) == b.take(k) && (k == a.len()
            || a[k] < b[k]);
    if bytes_before(b, a) {
        let j = choose|j: int|
            0 <= j <= b.len() && j < a.len() && #[trigger] b.take(j) == a.take(j) && (j == b.len()
                || b[j] < a[j]);
        if j < k {
            assert(a.take(k)[j] == b.take(k)[j]);
        } else if k < j {
            assert(a.take(j)[k] == b.take(j)[k]);
        }
    }
}

/// The order of byte strings is transitive.
pub proof fn lemma_bytes_before_transitive(a: Seq<u8>, b: Seq<u8>, c: Seq<u8>)
    requires
        bytes_before(a, b),
        bytes_before(b, c),
    ensures
        bytes_before(a, c),
{
    let k = choose|k: int|
        0 <= k <= a.len() && k < b.len() && #[trigger] a.take(k) == b.take(k) && (k == a.len()
            || a[k] < b[k]);
    let j = choose|j: int|
        0 <= j <= b.len() && j < c.len() && #[trigger] b.take(j) == c.take(j) && (j == b.len()
            || b[j] < c[j]);
    let m = if k <= j {
        k
    } else {
        j
    };
    assert(a.take(m) == c.take(m)) by {
        assert forall|i: int| 0 <= i < m implies a[i] == c[i] by {
            assert(a.take(k)[i] == b.take(k)[i]);
            assert(b.take(j)[i] == c.take(j)[i]);
        }
    }
    if k < j {
        assert(b.take(j)[k] == c.take(j)[k]);
    } else if j < k {
        assert(a.take(k)[j] == b.take(k)[j]);
    }
}

/// Two byte strings that agree on their first `i` bytes are equal, or
/// one of them comes before the other.
proof fn lemma_bytes_before_total_from(a: Seq<u8>, b: Seq<u8>, i: int)
    requires
        0 <= i <= a.len(),
        i <= b.len(),
        a.take(i) == b.take(i),
    ensures
        a == b || bytes_before(a, b) || bytes_before(b, a),
    decreases a.len() - i,
{
    if i == a.len() {
        if i == b.len() {
            assert(a.take(i) == a);
            assert(b.take(i) == b);
        }
    } else if i == b.len() {
    } else if a[i] == b[i] {
        let n = i + 1;
        assert(a.take(n) == b.take(n)) by {
            assert forall|j: int| 0 <= j < n implies a.take(n)[j] == b.take(n)[j] by {
                if j < i {
                    assert(a.take(i)[j] == b.take(i)[j]);
                }
            }
        }
        lemma_bytes_before_total_from(a, b, i + 1);
    }
}

/// Of two different byte strings one comes before the other.
pub proof fn lemma_bytes_before_total(a: Seq<u8>, b: Seq<u8>)
    ensures
        a == b || bytes_before(a, b) || bytes_before(b, a),
{
    assert(a.take(0) == b.take(0));
    lemma_bytes_before_total_from(a, b, 0);
}

/// The order of keys is strict: of two keys exactly one holds, that the
/// first comes before the second, that they are equal, or that the
/// second comes before the first.
pub proof fn lemma_key_before_strict(a: Seq<char>, b: Seq<char>)
    ensures
        key_before(a, b) || a == b || key_before(b, a),
        key_before(a, b) ==> a != b && !key_before(b, a),
{
    lemma_bytes_before_total(encode_utf8(a), encode_utf8(b));
    if encode_utf8(a) == encode_utf8(b) {
        lemma_utf8_injective(a, b);
    }
    if key_before(a, b) {
        lemma_bytes_before_asymmetric(encode_utf8(a), encode_utf8(b));
    }
}

/// The order of keys is transitive.
pub proof fn lemma_key_before_transitive(a: Seq<char>, b: Seq<char>, c: Seq<char>)
    requires
        key_before(a, b),
        key_before(b, c),
    ensures
        key_before(a, c),
{
    lemma_bytes_before_transitive(encode_utf8(a), encode_utf8(b), encode_utf8(c));
}

/// Where one key stands with respect to another.
#[derive(Clone, Copy, Debug, PartialEq, Eq)]
pub enum Rank {
    Before,
    Same,
    After,
}

/// Where the key `a` stands with respect to the key `b`.
pub fn key_rank(a: &str, b: &str) -> (r: Rank)
    ensures
        r is Before <==> key_before(a@, b@),
        r is Same <==> a@ == b@,
        r is After <==> key_before(b@, a@),
{
    let x = a.as_bytes();
    let y = b.as_bytes();
    let mut i: usize = 0;
    while i < x.len() && i < y.len()
        invariant
            i <= x.len(),
            i <= y.len(),
            x@.take(i as int) == y@.take(i as int),
            x@ == encode_utf8(a@),
            y@ == encode_utf8(b@),
        decreases x.len() - i,
    {
        proof {
            lemma_key_before_strict(a@, b@);
            lemma_key_before_strict(b@, a@);
        }
        if x[i] < y[i] {
            return Rank::Before;
        }
        if x[i] > y[i] {
            return Rank::After;
        }
        assert(x@.take(i + 1) == y@.take(i + 1)) by {
            assert forall|j: int| 0 <= j < i + 1 implies x@[j] == y@[j] by {
                if j < i {
                    assert(x@.take(i as int)[j] == y@.take(i as int)[j]);
                }
            }
        }
        i += 1;
    }
    proof {
        lemma_key_before_strict(a@, b@);
        lemma_key_before_strict(b@, a@);
    }
    if x.len() < y.len() {
        Rank::Before
    } else if x.len() > y.len() {
        Rank::After
    } else {
        assert(x@.take(i as int) == x@);
        assert(y@.take(i as int) == y@);
        Rank::Same
    }
}

} // verus!
