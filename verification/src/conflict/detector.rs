//! Structural double-spend detection.
//!
//! Each queued envelope is tracked by the source account and the sequence
//! number it reserves. Two *different* envelopes claiming the same
//! (account, sequence) slot can never both settle on-chain, since Stellar
//! accepts only one transaction per sequence number: such a pair is a
//! conflict.
use vstd::prelude::*;

use crate::conflict::message_id::{
    id_equal, id_less, id_lt, lemma_id_lt_asymmetric, lemma_id_lt_irreflexive,
    lemma_id_lt_total, lemma_id_lt_transitive,
};

verus! {

/// A queued envelope: the (account, sequence) slot it reserves and its id.
#[derive(Debug, Clone, PartialEq, Eq)]
pub struct QueuedSlot {
    pub source_account: String,
    pub sequence: i64,
    pub message_id: [u8; 32],
}

/// Two different envelopes that claim the same (account, sequence) slot.
#[derive(Debug, Clone, PartialEq, Eq)]
pub struct Conflict {
    pub source_account: String,
    pub sequence: i64,
    pub envelope_a: [u8; 32],
    pub envelope_b: [u8; 32],
}

/// The mathematical value of a queued slot.
pub struct SlotView {
    pub source_account: Seq<char>,
    pub sequence: i64,
    pub message_id: Seq<u8>,
}

/// The mathematical value of a conflict.
pub struct ConflictView {
    pub source_account: Seq<char>,
    pub sequence: i64,
    pub envelope_a: Seq<u8>,
    pub envelope_b: Seq<u8>,
}

impl View for QueuedSlot {
    type V = SlotView;

    open spec fn view(&self) -> SlotView {
        SlotView {
            source_account: self.source_account@,
            sequence: self.sequence,
            message_id: self.message_id@,
        }
    }
}

impl View for Conflict {
    type V = ConflictView;

    open spec fn view(&self) -> ConflictView {
        ConflictView {
            source_account: self.source_account@,
            sequence: self.sequence,
            envelope_a: self.envelope_a@,
            envelope_b: self.envelope_b@,
        }
    }
}

/// Whether two slots reserve the same (account, sequence) slot.
pub open spec fn same_slot(a: SlotView, b: SlotView) -> bool {
    a.source_account == b.source_account && a.sequence == b.sequence
}

/// The conflict between `a` and `b`, if any: same slot, different envelopes.
pub open spec fn spec_conflicts_between(a: SlotView, b: SlotView) -> Option<ConflictView> {
    if !same_slot(a, b) || a.message_id == b.message_id {
        None
    } else {
        Some(
            ConflictView {
                source_account: a.source_account,
                sequence: a.sequence,
                envelope_a: a.message_id,
                envelope_b: b.message_id,
            },
        )
    }
}

/// Returns a conflict if `a` and `b` occupy the same (account, sequence) slot
/// but are different envelopes. Returns `None` if they're the same envelope
/// (e.g. seen twice via different gossip paths) or occupy different slots.
pub fn conflicts_between(a: &QueuedSlot, b: &QueuedSlot) -> (r: Option<Conflict>)
    ensures
        match r {
            Some(c) => spec_conflicts_between(a@, b@) == Some(c@),
            None => spec_conflicts_between(a@, b@) is None,
        },
        r is Some <==> (a.source_account@ == b.source_account@ && a.sequence == b.sequence
            && a.message_id@ != b.message_id@),
        r matches Some(c) ==> {
            &&& c.source_account@ == a.source_account@
            &&& c.sequence == a.sequence
            &&& c.envelope_a@ == a.message_id@
            &&& c.envelope_b@ == b.message_id@
        },
{
    if !(a.source_account == b.source_account) || a.sequence != b.sequence {
        return None;
    }
    if id_equal(&a.message_id, &b.message_id) {
        return None;
    }
    Some(
        Conflict {
            source_account: a.source_account.clone(),
            sequence: a.sequence,
            envelope_a: a.message_id,
            envelope_b: b.message_id,
        },
    )
}

/// `c` is a conflict of the batch `slots`: two queued envelopes of the batch
/// claim the slot of `c`, `c.envelope_a` is the id of one and `c.envelope_b`
/// the id of the other, and `c.envelope_a` sorts strictly before
/// `c.envelope_b` (so the two ids differ, and each pair is named one way).
pub open spec fn is_conflict_of(slots: Seq<QueuedSlot>, c: ConflictView) -> bool {
    exists|i: int, j: int|
        #![trigger slots[i], slots[j]]
        0 <= i < slots.len() && 0 <= j < slots.len() && slots[i]@.source_account
            == c.source_account && slots[i]@.sequence == c.sequence && slots[j]@.source_account
            == c.source_account && slots[j]@.sequence == c.sequence && slots[i]@.message_id
            == c.envelope_a && slots[j]@.message_id == c.envelope_b && id_lt(
            c.envelope_a,
            c.envelope_b,
        )
}

/// Two conflicts name the same (account, sequence) slot.
pub open spec fn same_conflict_slot(c1: ConflictView, c2: ConflictView) -> bool {
    c1.source_account == c2.source_account && c1.sequence == c2.sequence
}

/// `c1` comes before `c2` in ascending order of (`envelope_a`, `envelope_b`).
pub open spec fn pair_before(c1: ConflictView, c2: ConflictView) -> bool {
    id_lt(c1.envelope_a, c2.envelope_a) || (c1.envelope_a == c2.envelope_a && id_lt(
        c1.envelope_b,
        c2.envelope_b,
    ))
}

/// The envelopes of one (account, sequence) slot, seen in a batch.
struct SlotGroup {
    source_account: String,
    sequence: i64,
    ids: Vec<[u8; 32]>,
}

spec fn group_keyed(g: SlotGroup, account: Seq<char>, sequence: i64) -> bool {
    g.source_account@ == account && g.sequence == sequence
}

/// Strictly ascending ids: sorted and free of repeats.
spec fn ids_sorted(ids: Seq<[u8; 32]>) -> bool {
    forall|p: int, q: int| 0 <= p < q < ids.len() ==> id_lt(#[trigger] ids[p]@, #[trigger] ids[q]@)
}

spec fn ids_has(ids: Seq<[u8; 32]>, x: Seq<u8>) -> bool {
    exists|p: int| 0 <= p < ids.len() && #[trigger] ids[p]@ == x
}

/// The ids held, as a set of byte sequences.
spec fn id_set(ids: Seq<[u8; 32]>) -> Set<Seq<u8>> {
    Set::new(|x: Seq<u8>| ids_has(ids, x))
}

/// No two groups share a slot, and each holds its ids strictly ascending.
spec fn groups_wf(gs: Seq<SlotGroup>) -> bool {
    &&& forall|g1: int, g2: int|
        #![trigger gs[g1], gs[g2]]
        0 <= g1 < gs.len() && 0 <= g2 < gs.len() && g1 != g2 ==> !group_keyed(
            gs[g1],
            gs[g2].source_account@,
            gs[g2].sequence,
        )
    &&& forall|g: int| 0 <= g < gs.len() ==> ids_sorted(#[trigger] gs[g].ids@)
}

/// Group `g` holds the envelope of slot `s` under its slot.
spec fn slot_in_group(g: SlotGroup, s: SlotView) -> bool {
    group_keyed(g, s.source_account, s.sequence) && id_set(g.ids@).contains(s.message_id)
}

/// Some group holds the envelope of slot `s`.
spec fn has_group_for(gs: Seq<SlotGroup>, s: SlotView) -> bool {
    exists|h: int| 0 <= h < gs.len() && #[trigger] slot_in_group(gs[h], s)
}

/// Slot `s` is keyed as group `g` and carries id `x`.
spec fn slot_gives(g: SlotGroup, s: SlotView, x: Seq<u8>) -> bool {
    group_keyed(g, s.source_account, s.sequence) && s.message_id == x
}

/// The groups hold exactly the envelopes of `slots[0..n]`, each under its slot.
spec fn groups_cover(gs: Seq<SlotGroup>, slots: Seq<QueuedSlot>, n: int) -> bool {
    &&& forall|k: int| 0 <= k < n ==> #[trigger] has_group_for(gs, slots[k]@)
    &&& forall|h: int, x: Seq<u8>|
        0 <= h < gs.len() && #[trigger] id_set(gs[h].ids@).contains(x) ==> exists|k: int|
            0 <= k < n && #[trigger] slot_gives(gs[h], slots[k]@, x)
}

/// Adds `id` to a strictly ascending list of ids, unless it is there already.
fn insert_id(ids: &mut Vec<[u8; 32]>, id: [u8; 32])
    requires
        ids_sorted(old(ids)@),
    ensures
        ids_sorted(final(ids)@),
        id_set(final(ids)@) == id_set(old(ids)@).insert(id@),
{
    let mut p: usize = 0;
    while p < ids.len() && id_less(&ids[p], &id)
        invariant
            0 <= p <= ids.len(),
            ids_sorted(ids@),
            forall|m: int| 0 <= m < p ==> id_lt(#[trigger] ids@[m]@, id@),
        decreases ids.len() - p,
    {
        p = p + 1;
    }
    if p < ids.len() && id_equal(&ids[p], &id) {
        assert(ids@[p as int]@ == id@);
        assert(id_set(ids@) =~= id_set(ids@).insert(id@));
        return;
    }
    let ghost before = ids@;
    proof {
        if p < before.len() {
            lemma_id_lt_total(before[p as int]@, id@);
        }
    }
    ids.insert(p, id);
    assert forall|a: int, b: int| 0 <= a < b < ids@.len() implies id_lt(
        #[trigger] ids@[a]@,
        #[trigger] ids@[b]@,
    ) by {
        if b < p {
        } else if b == p {
        } else if a < p {
            lemma_id_lt_transitive(ids@[a]@, id@, before[p as int]@);
            if b - 1 > p {
                lemma_id_lt_transitive(ids@[a]@, before[p as int]@, ids@[b]@);
            }
        } else if a == p {
            if b - 1 > p {
                lemma_id_lt_transitive(id@, before[p as int]@, ids@[b]@);
            }
        } else {
            assert(ids@[a] == before[a - 1]);
            assert(ids@[b] == before[b - 1]);
        }
    }
    assert forall|x: Seq<u8>| #[trigger] ids_has(ids@, x) <==> (ids_has(before, x) || x == id@) by {
        if ids_has(ids@, x) {
            let q = choose|q: int| 0 <= q < ids@.len() && ids@[q]@ == x;
            if q < p {
                assert(before[q]@ == x);
            } else if q > p {
                assert(before[q - 1]@ == x);
            }
        }
        if ids_has(before, x) {
            let q = choose|q: int| 0 <= q < before.len() && before[q]@ == x;
            if q < p {
                assert(ids@[q]@ == x);
            } else {
                assert(ids@[q + 1]@ == x);
            }
        }
        if x == id@ {
            assert(ids@[p as int]@ == x);
        }
    }
    assert(id_set(ids@) =~= id_set(before).insert(id@));
}

/// The index of the group of slot (`account`, `sequence`), if there is one.
fn find_group(groups: &Vec<SlotGroup>, account: &String, sequence: i64) -> (r: Option<usize>)
    ensures
        match r {
            Some(g) => g < groups@.len() && group_keyed(groups@[g as int], account@, sequence),
            None => forall|g: int|
                0 <= g < groups@.len() ==> !group_keyed(#[trigger] groups@[g], account@, sequence),
        },
{
    let mut g: usize = 0;
    while g < groups.len()
        invariant
            0 <= g <= groups@.len(),
            forall|h: int| 0 <= h < g ==> !group_keyed(#[trigger] groups@[h], account@, sequence),
        decreases groups@.len() - g,
    {
        if groups[g].sequence == sequence && groups[g].source_account == *account {
            return Some(g);
        }
        g = g + 1;
    }
    None
}

proof fn lemma_cover_after_insert(
    old_gs: Seq<SlotGroup>,
    new_gs: Seq<SlotGroup>,
    slots: Seq<QueuedSlot>,
    n: int,
    g: int,
)
    requires
        0 <= n < slots.len(),
        0 <= g < old_gs.len(),
        groups_cover(old_gs, slots, n),
        new_gs.len() == old_gs.len(),
        forall|h: int| 0 <= h < old_gs.len() && h != g ==> new_gs[h] == old_gs[h],
        new_gs[g].source_account@ == old_gs[g].source_account@,
        new_gs[g].sequence == old_gs[g].sequence,
        group_keyed(new_gs[g], slots[n]@.source_account, slots[n]@.sequence),
        id_set(new_gs[g].ids@) == id_set(old_gs[g].ids@).insert(slots[n]@.message_id),
    ensures
        groups_cover(new_gs, slots, n + 1),
{
    assert forall|k: int| 0 <= k < n + 1 implies #[trigger] has_group_for(new_gs, slots[k]@) by {
        if k == n {
            assert(slot_in_group(new_gs[g], slots[k]@));
        } else {
            assert(has_group_for(old_gs, slots[k]@));
            let h = choose|h: int| 0 <= h < old_gs.len() && #[trigger] slot_in_group(old_gs[h], slots[k]@);
            if h == g {
                assert(slot_in_group(new_gs[g], slots[k]@));
            } else {
                assert(slot_in_group(new_gs[h], slots[k]@));
            }
        }
    }
    assert forall|h: int, x: Seq<u8>|
        0 <= h < new_gs.len() && #[trigger] id_set(new_gs[h].ids@).contains(x) implies exists|k: int|
            0 <= k < n + 1 && #[trigger] slot_gives(new_gs[h], slots[k]@, x) by {
        if h == g {
            if x == slots[n]@.message_id {
                assert(slot_gives(new_gs[h], slots[n]@, x));
            } else {
                assert(id_set(old_gs[g].ids@).contains(x));
                let k = choose|k: int| 0 <= k < n && #[trigger] slot_gives(old_gs[g], slots[k]@, x);
                assert(slot_gives(new_gs[h], slots[k]@, x));
            }
        } else {
            assert(new_gs[h] == old_gs[h]);
            assert(id_set(old_gs[h].ids@).contains(x));
            let k = choose|k: int| 0 <= k < n && #[trigger] slot_gives(old_gs[h], slots[k]@, x);
            assert(slot_gives(new_gs[h], slots[k]@, x));
        }
    }
}

proof fn lemma_cover_after_push(
    old_gs: Seq<SlotGroup>,
    new_gs: Seq<SlotGroup>,
    slots: Seq<QueuedSlot>,
    n: int,
)
    requires
        0 <= n < slots.len(),
        groups_cover(old_gs, slots, n),
        new_gs.len() == old_gs.len() + 1,
        forall|h: int| 0 <= h < old_gs.len() ==> new_gs[h] == old_gs[h],
        group_keyed(new_gs[old_gs.len() as int], slots[n]@.source_account, slots[n]@.sequence),
        new_gs[old_gs.len() as int].ids@.len() == 1,
        new_gs[old_gs.len() as int].ids@[0]@ == slots[n]@.message_id,
    ensures
        groups_cover(new_gs, slots, n + 1),
{
    let last = old_gs.len() as int;
    assert(ids_has(new_gs[last].ids@, slots[n]@.message_id));
    assert forall|k: int| 0 <= k < n + 1 implies #[trigger] has_group_for(new_gs, slots[k]@) by {
        if k == n {
            assert(slot_in_group(new_gs[last], slots[k]@));
        } else {
            assert(has_group_for(old_gs, slots[k]@));
            let h = choose|h: int| 0 <= h < old_gs.len() && #[trigger] slot_in_group(old_gs[h], slots[k]@);
            assert(slot_in_group(new_gs[h], slots[k]@));
        }
    }
    assert forall|h: int, x: Seq<u8>|
        0 <= h < new_gs.len() && #[trigger] id_set(new_gs[h].ids@).contains(x) implies exists|k: int|
            0 <= k < n + 1 && #[trigger] slot_gives(new_gs[h], slots[k]@, x) by {
        if h == last {
            let q = choose|q: int| 0 <= q < new_gs[h].ids@.len() && #[trigger] new_gs[h].ids@[q]@ == x;
            assert(slot_gives(new_gs[h], slots[n]@, x));
        } else {
            assert(new_gs[h] == old_gs[h]);
            let k = choose|k: int| 0 <= k < n && #[trigger] slot_gives(old_gs[h], slots[k]@, x);
            assert(slot_gives(new_gs[h], slots[k]@, x));
        }
    }
}

/// Sorts the envelopes of `slots` into one group per (account, sequence) slot.
fn group_slots(slots: &[QueuedSlot]) -> (groups: Vec<SlotGroup>)
    ensures
        groups_wf(groups@),
        groups_cover(groups@, slots@, slots@.len() as int),
{
    let mut groups: Vec<SlotGroup> = Vec::new();
    let mut n: usize = 0;
    while n < slots.len()
        invariant
            0 <= n <= slots@.len(),
            groups_wf(groups@),
            groups_cover(groups@, slots@, n as int),
        decreases slots@.len() - n,
    {
        let slot = &slots[n];
        let ghost old_gs = groups@;
        match find_group(&groups, &slot.source_account, slot.sequence) {
            Some(g) => {
                insert_id(&mut groups[g].ids, slot.message_id);
                proof {
                    lemma_cover_after_insert(old_gs, groups@, slots@, n as int, g as int);
                }
            },
            None => {
                let mut ids: Vec<[u8; 32]> = Vec::new();
                ids.push(slot.message_id);
                groups.push(
                    SlotGroup {
                        source_account: slot.source_account.clone(),
                        sequence: slot.sequence,
                        ids,
                    },
                );
                proof {
                    lemma_cover_after_push(old_gs, groups@, slots@, n as int);
                }
            },
        }
        n = n + 1;
    }
    groups
}

/// Index triple (group, first id, second id) of a pair within a group.
spec fn valid_pair(gs: Seq<SlotGroup>, t: (int, int, int)) -> bool {
    0 <= t.0 < gs.len() && 0 <= t.1 < t.2 < gs[t.0].ids@.len()
}

/// The conflict named by index triple `t`.
spec fn pair_view(gs: Seq<SlotGroup>, t: (int, int, int)) -> ConflictView {
    ConflictView {
        source_account: gs[t.0].source_account@,
        sequence: gs[t.0].sequence,
        envelope_a: gs[t.0].ids@[t.1]@,
        envelope_b: gs[t.0].ids@[t.2]@,
    }
}

/// Lexicographic order on index triples: the order in which pairs are emitted.
spec fn triple_lt(a: (int, int, int), b: (int, int, int)) -> bool {
    a.0 < b.0 || (a.0 == b.0 && (a.1 < b.1 || (a.1 == b.1 && a.2 < b.2)))
}

/// `out` holds, in emission order, the conflicts of exactly the valid index
/// triples below `cur`; `made` records their triples.
spec fn emitted_below(
    gs: Seq<SlotGroup>,
    out: Seq<Conflict>,
    made: Seq<(int, int, int)>,
    cur: (int, int, int),
) -> bool {
    &&& out.len() == made.len()
    &&& forall|k: int|
        0 <= k < made.len() ==> valid_pair(gs, #[trigger] made[k]) && out[k]@ == pair_view(
            gs,
            made[k],
        ) && triple_lt(made[k], cur)
    &&& forall|k1: int, k2: int|
        0 <= k1 < k2 < made.len() ==> triple_lt(#[trigger] made[k1], #[trigger] made[k2])
    &&& forall|t: (int, int, int)|
        #[trigger] valid_pair(gs, t) && triple_lt(t, cur) ==> exists|k: int|
            0 <= k < made.len() && #[trigger] made[k] == t
}

proof fn lemma_emit_step(
    gs: Seq<SlotGroup>,
    out: Seq<Conflict>,
    made: Seq<(int, int, int)>,
    cur: (int, int, int),
    c: Conflict,
)
    requires
        emitted_below(gs, out, made, cur),
        valid_pair(gs, cur),
        c@ == pair_view(gs, cur),
    ensures
        emitted_below(gs, out.push(c), made.push(cur), (cur.0, cur.1, cur.2 + 1)),
{
    let next = (cur.0, cur.1, cur.2 + 1);
    let made2 = made.push(cur);
    assert forall|t: (int, int, int)| #[trigger] valid_pair(gs, t) && triple_lt(t, next) implies exists|k: int|
        0 <= k < made2.len() && #[trigger] made2[k] == t by {
        if t == cur {
            assert(made2[made.len() as int] == t);
        } else {
            let k = choose|k: int| 0 <= k < made.len() && #[trigger] made[k] == t;
            assert(made2[k] == t);
        }
    }
}

/// Envelope ids at two positions of a strictly ascending list are equal only
/// at the same position.
proof fn lemma_sorted_ids_injective(ids: Seq<[u8; 32]>, p: int, q: int)
    requires
        ids_sorted(ids),
        0 <= p < ids.len(),
        0 <= q < ids.len(),
        ids[p]@ == ids[q]@,
    ensures
        p == q,
{
    if p < q {
        lemma_id_lt_irreflexive(ids[p]@);
        assert(id_lt(ids[p]@, ids[q]@));
    } else if q < p {
        lemma_id_lt_irreflexive(ids[p]@);
        assert(id_lt(ids[q]@, ids[p]@));
    }
}

/// The conflicts of every pair of the groups, as the contract of
/// `detect_conflicts` states them.
proof fn lemma_emitted_all(gs: Seq<SlotGroup>, slots: Seq<QueuedSlot>, out: Seq<Conflict>, made: Seq<(int, int, int)>)
    requires
        groups_wf(gs),
        groups_cover(gs, slots, slots.len() as int),
        emitted_below(gs, out, made, (gs.len() as int, 0, 0)),
    ensures
        forall|k: int| 0 <= k < out.len() ==> is_conflict_of(slots, #[trigger] out[k]@),
        forall|c: ConflictView|
            is_conflict_of(slots, c) ==> exists|k: int| 0 <= k < out.len() && #[trigger] out[k]@ == c,
        forall|k1: int, k2: int|
            0 <= k1 < k2 < out.len() ==> #[trigger] out[k1]@ != #[trigger] out[k2]@,
        forall|k1: int, k2: int|
            0 <= k1 < k2 < out.len() && same_conflict_slot(#[trigger] out[k1]@, #[trigger] out[k2]@)
                ==> pair_before(out[k1]@, out[k2]@),
        forall|k1: int, k2: int, k3: int|
            0 <= k1 < k2 < k3 < out.len() && same_conflict_slot(
                #[trigger] out[k1]@,
                #[trigger] out[k3]@,
            ) ==> same_conflict_slot(out[k1]@, #[trigger] out[k2]@),
{
    assert forall|k: int| 0 <= k < out.len() implies is_conflict_of(slots, #[trigger] out[k]@) by {
        let t = made[k];
        assert(valid_pair(gs, t));
        let g = gs[t.0];
        let a = g.ids@[t.1]@;
        let b = g.ids@[t.2]@;
        assert(ids_has(g.ids@, a));
        assert(ids_has(g.ids@, b));
        assert(id_set(gs[t.0].ids@).contains(a));
        assert(id_set(gs[t.0].ids@).contains(b));
        let i = choose|i: int| 0 <= i < slots.len() && #[trigger] slot_gives(gs[t.0], slots[i]@, a);
        let j = choose|j: int| 0 <= j < slots.len() && #[trigger] slot_gives(gs[t.0], slots[j]@, b);
        assert(ids_sorted(gs[t.0].ids@));
        assert(id_lt(a, b));
        assert(slots[i] == slots[i] && slots[j] == slots[j]);
    }
    assert forall|c: ConflictView| is_conflict_of(slots, c) implies exists|k: int|
        0 <= k < out.len() && #[trigger] out[k]@ == c by {
        let (i, j) = choose|i: int, j: int|
            #![trigger slots[i], slots[j]]
            0 <= i < slots.len() && 0 <= j < slots.len() && slots[i]@.source_account
                == c.source_account && slots[i]@.sequence == c.sequence && slots[j]@.source_account
                == c.source_account && slots[j]@.sequence == c.sequence && slots[i]@.message_id
                == c.envelope_a && slots[j]@.message_id == c.envelope_b && id_lt(
                c.envelope_a,
                c.envelope_b,
            );
        assert(has_group_for(gs, slots[i]@));
        assert(has_group_for(gs, slots[j]@));
        let gi = choose|h: int| 0 <= h < gs.len() && #[trigger] slot_in_group(gs[h], slots[i]@);
        let gj = choose|h: int| 0 <= h < gs.len() && #[trigger] slot_in_group(gs[h], slots[j]@);
        if gi != gj {
            assert(!group_keyed(gs[gi], gs[gj].source_account@, gs[gj].sequence));
        }
        assert(gi == gj);
        assert(id_set(gs[gi].ids@).contains(c.envelope_a));
        assert(id_set(gs[gi].ids@).contains(c.envelope_b));
        let p = choose|p: int| 0 <= p < gs[gi].ids@.len() && #[trigger] gs[gi].ids@[p]@ == c.envelope_a;
        let q = choose|q: int| 0 <= q < gs[gi].ids@.len() && #[trigger] gs[gi].ids@[q]@ == c.envelope_b;
        assert(ids_sorted(gs[gi].ids@));
        if q < p {
            assert(id_lt(gs[gi].ids@[q]@, gs[gi].ids@[p]@));
            lemma_id_lt_asymmetric(c.envelope_a, c.envelope_b);
        } else if q == p {
            lemma_id_lt_irreflexive(c.envelope_a);
        }
        let t = (gi, p, q);
        assert(valid_pair(gs, t));
        assert(triple_lt(t, (gs.len() as int, 0, 0)));
        let k = choose|k: int| 0 <= k < made.len() && #[trigger] made[k] == t;
        assert(out[k]@ == pair_view(gs, t));
        assert(out[k]@ == c);
    }
    assert forall|k1: int, k2: int| 0 <= k1 < k2 < out.len() implies #[trigger] out[k1]@ != #[trigger] out[k2]@ by {
        let t1 = made[k1];
        let t2 = made[k2];
        assert(triple_lt(t1, t2));
        assert(valid_pair(gs, t1));
        assert(valid_pair(gs, t2));
        if out[k1]@ == out[k2]@ {
            assert(pair_view(gs, t1) == pair_view(gs, t2));
            if t1.0 != t2.0 {
                assert(!group_keyed(gs[t1.0], gs[t2.0].source_account@, gs[t2.0].sequence));
            }
            assert(ids_sorted(gs[t1.0].ids@));
            lemma_sorted_ids_injective(gs[t1.0].ids@, t1.1, t2.1);
            lemma_sorted_ids_injective(gs[t1.0].ids@, t1.2, t2.2);
        }
    }
    assert forall|k1: int, k2: int|
        0 <= k1 < k2 < out.len() && same_conflict_slot(#[trigger] out[k1]@, #[trigger] out[k2]@)
            implies pair_before(out[k1]@, out[k2]@) by {
        let t1 = made[k1];
        let t2 = made[k2];
        assert(triple_lt(t1, t2));
        assert(valid_pair(gs, t1));
        assert(valid_pair(gs, t2));
        if t1.0 != t2.0 {
            assert(!group_keyed(gs[t1.0], gs[t2.0].source_account@, gs[t2.0].sequence));
        }
        let ids = gs[t1.0].ids@;
        assert(ids_sorted(ids));
        if t1.1 < t2.1 {
            assert(id_lt(ids[t1.1]@, ids[t2.1]@));
        } else {
            assert(id_lt(ids[t1.2]@, ids[t2.2]@));
        }
    }
    assert forall|k1: int, k2: int, k3: int|
        0 <= k1 < k2 < k3 < out.len() && same_conflict_slot(#[trigger] out[k1]@, #[trigger] out[k3]@)
            implies same_conflict_slot(out[k1]@, #[trigger] out[k2]@) by {
        let t1 = made[k1];
        let t2 = made[k2];
        let t3 = made[k3];
        assert(triple_lt(t1, t2));
        assert(triple_lt(t2, t3));
        assert(valid_pair(gs, t1));
        assert(valid_pair(gs, t3));
        if t1.0 != t3.0 {
            assert(!group_keyed(gs[t1.0], gs[t3.0].source_account@, gs[t3.0].sequence));
        }
    }
}

/// Scans a batch of queued slots (e.g. everything currently durably queued)
/// for double-spend conflicts.
///
/// Every pair of different envelopes that claim the same (account, sequence)
/// slot is reported exactly once, with the smaller id as `envelope_a`, and
/// nothing else is reported. The conflicts of one slot come together, in
/// ascending order of (`envelope_a`, `envelope_b`); in which order the slots
/// come is not part of the contract.
pub fn detect_conflicts(slots: &[QueuedSlot]) -> (r: Vec<Conflict>)
    ensures
        forall|k: int| 0 <= k < r@.len() ==> is_conflict_of(slots@, #[trigger] r@[k]@),
        forall|c: ConflictView|
            is_conflict_of(slots@, c) ==> exists|k: int| 0 <= k < r@.len() && #[trigger] r@[k]@ == c,
        forall|k1: int, k2: int|
            0 <= k1 < k2 < r@.len() ==> #[trigger] r@[k1]@ != #[trigger] r@[k2]@,
        forall|k1: int, k2: int|
            0 <= k1 < k2 < r@.len() && same_conflict_slot(#[trigger] r@[k1]@, #[trigger] r@[k2]@)
                ==> pair_before(r@[k1]@, r@[k2]@),
        forall|k1: int, k2: int, k3: int|
            0 <= k1 < k2 < k3 < r@.len() && same_conflict_slot(
                #[trigger] r@[k1]@,
                #[trigger] r@[k3]@,
            ) ==> same_conflict_slot(r@[k1]@, #[trigger] r@[k2]@),
{
    let groups = group_slots(slots);
    let ghost gs = groups@;
    let mut conflicts: Vec<Conflict> = Vec::new();
    let ghost mut made: Seq<(int, int, int)> = Seq::empty();
    let mut g: usize = 0;
    while g < groups.len()
        invariant
            gs == groups@,
            0 <= g <= gs.len(),
            emitted_below(gs, conflicts@, made, (g as int, 0, 0)),
        decreases gs.len() - g,
    {
        let group = &groups[g];
        let n = group.ids.len();
        let mut i: usize = 0;
        while i < n
            invariant
                gs == groups@,
                0 <= g < gs.len(),
                group == gs[g as int],
                n == group.ids@.len(),
                0 <= i <= n,
                emitted_below(gs, conflicts@, made, (g as int, i as int, 0)),
            decreases n - i,
        {
            let mut j: usize = i + 1;
            proof {
                assert forall|t: (int, int, int)| #[trigger] valid_pair(gs, t) && triple_lt(t, (g as int, i as int, j as int)) implies exists|k: int|
                    0 <= k < made.len() && #[trigger] made[k] == t by {
                    assert(triple_lt(t, (g as int, i as int, 0)));
                }
            }
            while j < n
                invariant
                    gs == groups@,
                    0 <= g < gs.len(),
                    group == gs[g as int],
                    n == group.ids@.len(),
                    0 <= i < n,
                    i < j <= n,
                    emitted_below(gs, conflicts@, made, (g as int, i as int, j as int)),
                decreases n - j,
            {
                let c = Conflict {
                    source_account: group.source_account.clone(),
                    sequence: group.sequence,
                    envelope_a: group.ids[i],
                    envelope_b: group.ids[j],
                };
                proof {
                    lemma_emit_step(gs, conflicts@, made, (g as int, i as int, j as int), c);
                    made = made.push((g as int, i as int, j as int));
                }
                conflicts.push(c);
                j = j + 1;
            }
            proof {
                assert forall|t: (int, int, int)| #[trigger] valid_pair(gs, t) && triple_lt(t, (g as int, i + 1, 0)) implies exists|k: int|
                    0 <= k < made.len() && #[trigger] made[k] == t by {
                    assert(triple_lt(t, (g as int, i as int, j as int)));
                }
            }
            i = i + 1;
        }
        proof {
            assert forall|t: (int, int, int)| #[trigger] valid_pair(gs, t) && triple_lt(t, (g + 1, 0, 0)) implies exists|k: int|
                0 <= k < made.len() && #[trigger] made[k] == t by {
                assert(triple_lt(t, (g as int, i as int, 0)));
            }
        }
        g = g + 1;
    }
    proof {
        lemma_emitted_all(gs, slots@, conflicts@, made);
    }
    conflicts
}

} // verus!
