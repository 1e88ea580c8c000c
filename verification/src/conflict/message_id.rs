//! Message ids are 32-byte arrays, ordered lexicographically byte by byte,
//! as `[u8; 32]` is ordered in Rust.
use vstd::prelude::*;

verus! {

/// `a` is below `b` at position `k`: they agree before `k` and `a[k] < b[k]`.
pub open spec fn lt_at(a: Seq<u8>, b: Seq<u8>, k: int) -> bool {
    &&& 0 <= k < a.len()
    &&& k < b.len()
    &&& forall|m: int| 0 <= m < k ==> a[m] == b[m]
    &&& a[k] < b[k]
}

/// Strict lexicographic order on byte sequences of the same length.
pub open spec fn id_lt(a: Seq<u8>, b: Seq<u8>) -> bool {
    exists|k: int| #[trigger] lt_at(a, b, k)
}

pub proof fn lemma_id_lt_irreflexive(a: Seq<u8>)
    ensures
        !id_lt(a, a),
{
}

pub proof fn lemma_id_lt_asymmetric(a: Seq<u8>, b: Seq<u8>)
    ensures
        id_lt(a, b) ==> !id_lt(b, a),
{
    if id_lt(a, b) && id_lt(b, a) {
        let k1 = choose|k: int| lt_at(a, b, k);
        let k2 = choose|k: int| lt_at(b, a, k);
        if k1 < k2 {
            assert(b[k1] == a[k1]);
        } else if k2 < k1 {
            assert(a[k2] == b[k2]);
        }
    }
}

pub proof fn lemma_id_lt_transitive(a: Seq<u8>, b: Seq<u8>, c: Seq<u8>)
    requires
        id_lt(a, b),
        id_lt(b, c),
    ensures
        id_lt(a, c),
{
    let k1 = choose|k: int| lt_at(a, b, k);
    let k2 = choose|k: int| lt_at(b, c, k);
    if k1 <= k2 {
        assert(lt_at(a, c, k1));
    } else {
        assert(lt_at(a, c, k2));
    }
}

/// Among positions up to `k` where `a` and `b` differ, there is a first one.
proof fn lemma_first_difference(a: Seq<u8>, b: Seq<u8>, k: int) -> (j: int)
    requires
        0 <= k < a.len(),
        k < b.len(),
        a[k] != b[k],
    ensures
        0 <= j <= k,
        forall|m: int| 0 <= m < j ==> a[m] == b[m],
        a[j] != b[j],
    decreases k,
{
    if forall|m: int| 0 <= m < k ==> a[m] == b[m] {
        k
    } else {
        let m = choose|m: int| 0 <= m < k && a[m] != b[m];
        lemma_first_difference(a, b, m)
    }
}

pub proof fn lemma_id_lt_total(a: Seq<u8>, b: Seq<u8>)
    requires
        a.len() == b.len(),
        a != b,
    ensures
        id_lt(a, b) || id_lt(b, a),
{
    if forall|m: int| 0 <= m < a.len() ==> a[m] == b[m] {
        assert(a =~= b);
    } else {
        let m = choose|m: int| 0 <= m < a.len() && a[m] != b[m];
        let j = lemma_first_difference(a, b, m);
        if a[j] < b[j] {
            assert(lt_at(a, b, j));
        } else {
            assert(lt_at(b, a, j));
        }
    }
}

/// `a` sorts strictly before `b` exactly when, at the first position where
/// they differ, `a` holds the smaller byte.
pub proof fn lemma_id_lt_is_lexicographic(a: Seq<u8>, b: Seq<u8>)
    ensures
        id_lt(a, b) <==> exists|k: int|
            0 <= k < a.len() && k < b.len() && #[trigger] a.take(k) == b.take(k) && a[k] < b[k],
{
    if id_lt(a, b) {
        let k = choose|k: int| lt_at(a, b, k);
        assert(a.take(k) =~= b.take(k));
    }
    if exists|k: int| 0 <= k < a.len() && k < b.len() && #[trigger] a.take(k) == b.take(k) && a[k] < b[k] {
        let k = choose|k: int| 0 <= k < a.len() && k < b.len() && #[trigger] a.take(k) == b.take(k) && a[k] < b[k];
        assert forall|m: int| 0 <= m < k implies a[m] == b[m] by {
            assert(a.take(k)[m] == b.take(k)[m]);
        }
        assert(lt_at(a, b, k));
    }
}

/// Whether `a` sorts strictly before `b`.
pub fn id_less(a: &[u8; 32], b: &[u8; 32]) -> (r: bool)
    ensures
        r == id_lt(a@, b@),
{
    let mut i: usize = 0;
    while i < 32
        invariant
            0 <= i <= 32,
            a@.len() == 32,
            b@.len() == 32,
            forall|m: int| 0 <= m < i ==> a@[m] == b@[m],
        decreases 32 - i,
    {
        if a[i] < b[i] {
            assert(lt_at(a@, b@, i as int));
            return true;
        }
        if a[i] > b[i] {
            assert(lt_at(b@, a@, i as int));
            proof {
                lemma_id_lt_asymmetric(b@, a@);
            }
            return false;
        }
        i = i + 1;
    }
    assert(a@ =~= b@);
    proof {
        lemma_id_lt_irreflexive(a@);
    }
    false
}

/// Whether `a` and `b` hold the same bytes.
pub fn id_equal(a: &[u8; 32], b: &[u8; 32]) -> (r: bool)
    ensures
        r == (a@ == b@),
{
    let mut i: usize = 0;
    while i < 32
        invariant
            0 <= i <= 32,
            a@.len() == 32,
            b@.len() == 32,
            forall|m: int| 0 <= m < i ==> a@[m] == b@[m],
        decreases 32 - i,
    {
        if a[i] != b[i] {
            assert(a@[i as int] != b@[i as int]);
            return false;
        }
        i = i + 1;
    }
    assert(a@ =~= b@);
    true
}

} // verus!
