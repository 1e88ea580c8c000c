//! Properties that relate the detector's functions to one another.
use vstd::prelude::*;

use crate::conflict::detector::{
    is_conflict_of, pair_before, same_conflict_slot, same_slot, spec_conflicts_between, ConflictView, QueuedSlot, SlotView,
};
use crate::conflict::message_id::{
    id_lt, lemma_id_lt_asymmetric, lemma_id_lt_irreflexive, lemma_id_lt_total,
};

verus! {

/// A conflict with its two envelope ids in ascending order.
pub open spec fn normalized(c: ConflictView) -> ConflictView {
    if id_lt(c.envelope_a, c.envelope_b) {
        c
    } else {
        ConflictView {
            source_account: c.source_account,
            sequence: c.sequence,
            envelope_a: c.envelope_b,
            envelope_b: c.envelope_a,
        }
    }
}

/// Slots `i < j` of the batch conflict, and `c` is their conflict normalized.
pub open spec fn pairwise_conflict(slots: Seq<QueuedSlot>, i: int, j: int, c: ConflictView) -> bool {
    &&& 0 <= i < j < slots.len()
    &&& spec_conflicts_between(slots[i]@, slots[j]@) matches Some(d) && normalized(d) == c
}

/// Two slots conflict exactly when they name the same account and sequence
/// and carry different message ids; the conflict then names the slot of `a`,
/// with `a`'s id as `envelope_a` and `b`'s id as `envelope_b`.
pub proof fn lemma_conflicts_between_names_its_arguments(a: SlotView, b: SlotView)
    ensures
        spec_conflicts_between(a, b) is Some <==> (a.source_account == b.source_account
            && a.sequence == b.sequence && a.message_id != b.message_id),
        spec_conflicts_between(a, b) matches Some(c) ==> {
            &&& c.source_account == a.source_account
            &&& c.sequence == a.sequence
            &&& c.envelope_a == a.message_id
            &&& c.envelope_b == b.message_id
        },
{
}

/// A conflict of a batch is exactly a pair of its slots that claim one
/// (account, sequence) slot with different ids, named smaller id first: the
/// conflict carries that account and sequence, the smaller id as
/// `envelope_a` and the larger as `envelope_b`.
pub proof fn lemma_batch_conflict_is_a_colliding_pair(slots: Seq<QueuedSlot>, c: ConflictView)
    ensures
        is_conflict_of(slots, c) <==> exists|i: int, j: int|
            #![trigger slots[i], slots[j]]
            {
                &&& 0 <= i < slots.len()
                &&& 0 <= j < slots.len()
                &&& slots[i].source_account@ == slots[j].source_account@
                &&& slots[i].sequence == slots[j].sequence
                &&& c.source_account == slots[i].source_account@
                &&& c.sequence == slots[i].sequence
                &&& c.envelope_a == slots[i].message_id@
                &&& c.envelope_b == slots[j].message_id@
                &&& id_lt(slots[i].message_id@, slots[j].message_id@)
            },
{
}

/// Two conflicts share a slot when they name the same account and sequence;
/// among them, one comes first when its `envelope_a` is smaller, or, with
/// equal `envelope_a`, its `envelope_b` is smaller; normalizing a conflict
/// puts its smaller id first and keeps its slot.
pub proof fn lemma_conflict_order_meaning(c1: ConflictView, c2: ConflictView)
    ensures
        same_conflict_slot(c1, c2) <==> (c1.source_account == c2.source_account && c1.sequence
            == c2.sequence),
        pair_before(c1, c2) <==> (id_lt(c1.envelope_a, c2.envelope_a) || (c1.envelope_a
            == c2.envelope_a && id_lt(c1.envelope_b, c2.envelope_b))),
        normalized(c1).source_account == c1.source_account,
        normalized(c1).sequence == c1.sequence,
        id_lt(c1.envelope_a, c1.envelope_b) ==> normalized(c1).envelope_a == c1.envelope_a
            && normalized(c1).envelope_b == c1.envelope_b,
        !id_lt(c1.envelope_a, c1.envelope_b) ==> normalized(c1).envelope_a == c1.envelope_b
            && normalized(c1).envelope_b == c1.envelope_a,
{
}

/// `conflicts_between` is symmetric: `a` conflicts with `b` exactly when `b`
/// conflicts with `a`, and the two conflicts name the same slot with the
/// envelopes swapped.
pub proof fn lemma_conflicts_between_symmetric(a: SlotView, b: SlotView)
    ensures
        spec_conflicts_between(a, b) is Some <==> spec_conflicts_between(b, a) is Some,
        spec_conflicts_between(a, b) matches Some(c) ==> spec_conflicts_between(b, a) == Some(
            ConflictView {
                source_account: c.source_account,
                sequence: c.sequence,
                envelope_a: c.envelope_b,
                envelope_b: c.envelope_a,
            },
        ),
{
}

/// Batch detection agrees with checking every pair of the batch on its own:
/// `c` is a conflict that `detect_conflicts` reports for `slots` exactly when
/// some two slots `i < j` of the batch give, through `conflicts_between`, a
/// conflict whose normalized form is `c`.
pub proof fn lemma_detect_matches_pairwise(slots: Seq<QueuedSlot>, c: ConflictView)
    ensures
        is_conflict_of(slots, c) <==> exists|i: int, j: int| #[trigger]
            pairwise_conflict(slots, i, j, c),
{
    if is_conflict_of(slots, c) {
        let (i, j) = choose|i: int, j: int|
            #![trigger slots[i], slots[j]]
            0 <= i < slots.len() && 0 <= j < slots.len() && slots[i]@.source_account
                == c.source_account && slots[i]@.sequence == c.sequence && slots[j]@.source_account
                == c.source_account && slots[j]@.sequence == c.sequence && slots[i]@.message_id
                == c.envelope_a && slots[j]@.message_id == c.envelope_b && id_lt(
                c.envelope_a,
                c.envelope_b,
            );
        lemma_id_lt_irreflexive(c.envelope_a);
        lemma_id_lt_asymmetric(c.envelope_a, c.envelope_b);
        if i < j {
            assert(pairwise_conflict(slots, i, j, c));
        } else {
            assert(i != j);
            assert(pairwise_conflict(slots, j, i, c));
        }
    }
    if exists|i: int, j: int| #[trigger] pairwise_conflict(slots, i, j, c) {
        let (i, j) = choose|i: int, j: int| #[trigger] pairwise_conflict(slots, i, j, c);
        let a = slots[i]@;
        let b = slots[j]@;
        assert(same_slot(a, b));
        assert(a.message_id != b.message_id);
        assert(a.message_id.len() == 32 && b.message_id.len() == 32);
        lemma_id_lt_total(a.message_id, b.message_id);
        if id_lt(a.message_id, b.message_id) {
            assert(slots[i] == slots[i] && slots[j] == slots[j]);
        } else {
            assert(slots[j] == slots[j] && slots[i] == slots[i]);
        }
        assert(is_conflict_of(slots, c));
    }
}

/// Which conflicts a batch has depends only on which slots it holds: not on
/// their order, nor on how often each is repeated.
pub proof fn lemma_conflicts_depend_on_slots_only(
    s1: Seq<QueuedSlot>,
    s2: Seq<QueuedSlot>,
    c: ConflictView,
)
    requires
        forall|i: int|
            0 <= i < s1.len() ==> exists|j: int| 0 <= j < s2.len() && #[trigger] s2[j]@ == #[trigger] s1[i]@,
        forall|j: int|
            0 <= j < s2.len() ==> exists|i: int| 0 <= i < s1.len() && #[trigger] s1[i]@ == #[trigger] s2[j]@,
    ensures
        is_conflict_of(s1, c) <==> is_conflict_of(s2, c),
{
    if is_conflict_of(s1, c) {
        let (i, j) = choose|i: int, j: int|
            #![trigger s1[i], s1[j]]
            0 <= i < s1.len() && 0 <= j < s1.len() && s1[i]@.source_account == c.source_account
                && s1[i]@.sequence == c.sequence && s1[j]@.source_account == c.source_account
                && s1[j]@.sequence == c.sequence && s1[i]@.message_id == c.envelope_a
                && s1[j]@.message_id == c.envelope_b && id_lt(c.envelope_a, c.envelope_b);
        let i2 = choose|x: int| 0 <= x < s2.len() && #[trigger] s2[x]@ == s1[i]@;
        let j2 = choose|x: int| 0 <= x < s2.len() && #[trigger] s2[x]@ == s1[j]@;
        assert(s2[i2] == s2[i2] && s2[j2] == s2[j2]);
    }
    if is_conflict_of(s2, c) {
        let (i, j) = choose|i: int, j: int|
            #![trigger s2[i], s2[j]]
            0 <= i < s2.len() && 0 <= j < s2.len() && s2[i]@.source_account == c.source_account
                && s2[i]@.sequence == c.sequence && s2[j]@.source_account == c.source_account
                && s2[j]@.sequence == c.sequence && s2[i]@.message_id == c.envelope_a
                && s2[j]@.message_id == c.envelope_b && id_lt(c.envelope_a, c.envelope_b);
        let i1 = choose|x: int| 0 <= x < s1.len() && #[trigger] s1[x]@ == s2[i]@;
        let j1 = choose|x: int| 0 <= x < s1.len() && #[trigger] s1[x]@ == s2[j]@;
        assert(s1[i1] == s1[i1] && s1[j1] == s1[j1]);
    }
}

} // verus!
