//! The order in which keys are written out: byte by byte, a key before
//! every key that it is a proper prefix of.

use vstd::prelude::*;

verus! {

/// `a` and `b` agree on their first `i` bytes, and there `a` ends while `b`
/// goes on, or `a` has the smaller byte.
pub open spec fn parts_at(a: Seq<u8>, b: Seq<u8>, i: int) -> bool {
    &&& 0 <= i <= a.len()
    &&& i < b.len()
    &&& forall|j: int| 0 <= j < i ==> a[j] == b[j]
    &&& i < a.len() ==> a[i] < b[i]
}

/// `a` comes before `b` in byte-wise lexicographic order.
pub open spec fn key_before(a: Seq<u8>, b: Seq<u8>) -> bool {
    exists|i: int| parts_at(a, b, i)
}

/// Each key comes before every key behind it.
pub open spec fn ascending(keys: Seq<Seq<u8>>) -> bool {
    forall|i: int, j: int| 0 <= i < j < keys.len() ==> key_before(keys[i], keys[j])
}

/// No key comes before itself.
pub proof fn lemma_before_irreflexive(a: Seq<u8>)
    ensures
        !key_before(a, a),
{
}

/// The order is transitive.
pub proof fn lemma_before_transitive(a: Seq<u8>, b: Seq<u8>, c: Seq<u8>)
    requires
        key_before(a, b),
        key_before(b, c),
    ensures
        key_before(a, c),
{
    let i = choose|i: int| parts_at(a, b, i);
    let j = choose|j: int| parts_at(b, c, j);
    if i <= j {
        assert(parts_at(a, c, i));
    } else {
        assert(parts_at(a, c, j));
    }
}

/// Of two different keys, one comes before the other.
pub proof fn lemma_before_total(a: Seq<u8>, b: Seq<u8>)
    requires
        a != b,
    ensures
        key_before(a, b) || key_before(b, a),
{
    lemma_total_from(a, b, 0);
}

/// Two different keys that agree on their first `i` bytes part somewhere
/// behind them.
proof fn lemma_total_from(a: Seq<u8>, b: Seq<u8>, i: int)
    requires
        a != b,
        0 <= i <= a.len(),
        i <= b.len(),
        forall|j: int| 0 <= j < i ==> a[j] == b[j],
    ensures
        key_before(a, b) || key_before(b, a),
    decreases a.len() - i,
{
    if i == a.len() {
        if i == b.len() {
            assert(a =~= b);
        } else {
            assert(parts_at(a, b, i));
        }
    } else if i == b.len() {
        assert(parts_at(b, a, i));
    } else if a[i] < b[i] {
        assert(parts_at(a, b, i));
    } else if b[i] < a[i] {
        assert(parts_at(b, a, i));
    } else {
        lemma_total_from(a, b, i + 1);
    }
}

/// Of two keys, not both come before the other.
pub proof fn lemma_before_asymmetric(a: Seq<u8>, b: Seq<u8>)
    requires
        key_before(a, b),
    ensures
        !key_before(b, a),
{
    if key_before(b, a) {
        lemma_before_transitive(a, b, a);
    }
}

/// Whether `a` comes before `b` in byte-wise lexicographic order.
pub fn key_lt(a: &[u8], b: &[u8]) -> (r: bool)
    ensures
        r == key_before(a@, b@),
{
    let mut i: usize = 0;
    while i < a.len() && i < b.len()
        invariant
            0 <= i <= a.len(),
            i <= b.len(),
            forall|j: int| 0 <= j < i ==> a@[j] == b@[j],
        decreases a.len() - i,
    {
        if a[i] != b[i] {
            proof {
                if a@[i as int] < b@[i as int] {
                    assert(parts_at(a@, b@, i as int));
                } else {
                    assert(parts_at(b@, a@, i as int));
                    lemma_before_asymmetric(b@, a@);
                }
            }
            return a[i] < b[i];
        }
        i = i + 1;
    }
    proof {
        if i < b.len() {
            assert(parts_at(a@, b@, i as int));
        } else {
            if a@ != b@ {
                if i == a.len() {
                    assert(a@ =~= b@);
                }
                assert(parts_at(b@, a@, i as int));
                lemma_before_asymmetric(b@, a@);
            } else {
                lemma_before_irreflexive(a@);
            }
        }
    }
    i < b.len()
}

} // verus!
