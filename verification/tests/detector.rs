use conflict_detector::conflict::detector::{conflicts_between, detect_conflicts, Conflict, QueuedSlot};
use std::collections::BTreeSet;

fn slot(account: &str, sequence: i64, message_id: u8) -> QueuedSlot {
    QueuedSlot {
        source_account: account.to_string(),
        sequence,
        message_id: [message_id; 32],
    }
}

#[test]
fn test_same_slot_different_envelopes_conflicts() {
    let a = slot("GABC", 101, 1);
    let b = slot("GABC", 101, 2);
    let conflict = conflicts_between(&a, &b).unwrap();
    assert_eq!(conflict.source_account, "GABC");
    assert_eq!(conflict.sequence, 101);
}

#[test]
fn test_same_envelope_seen_twice_is_not_a_conflict() {
    let a = slot("GABC", 101, 1);
    let b = slot("GABC", 101, 1);
    assert!(conflicts_between(&a, &b).is_none());
}

#[test]
fn test_different_sequence_is_not_a_conflict() {
    let a = slot("GABC", 101, 1);
    let b = slot("GABC", 102, 2);
    assert!(conflicts_between(&a, &b).is_none());
}

#[test]
fn test_different_account_is_not_a_conflict() {
    let a = slot("GABC", 101, 1);
    let b = slot("GXYZ", 101, 2);
    assert!(conflicts_between(&a, &b).is_none());
}

#[test]
fn test_detect_conflicts_in_batch() {
    let slots = vec![
        slot("GABC", 101, 1),
        slot("GABC", 101, 2), // conflicts with the above
        slot("GABC", 102, 3), // no conflict, different sequence
        slot("GXYZ", 101, 4), // no conflict, different account
    ];
    let conflicts = detect_conflicts(&slots);
    assert_eq!(conflicts.len(), 1);
    assert_eq!(conflicts[0].source_account, "GABC");
    assert_eq!(conflicts[0].sequence, 101);
}

#[test]
fn test_no_conflicts_in_clean_batch() {
    let slots = vec![slot("GABC", 101, 1), slot("GABC", 102, 2)];
    assert!(detect_conflicts(&slots).is_empty());
}

#[test]
fn test_three_way_collision_reports_every_pair() {
    // Three distinct envelopes on the same (account, sequence) slot must
    // yield all three pairwise conflicts, not just the ones adjacent in
    // sorted order.
    let slots = vec![
        slot("GABC", 101, 1),
        slot("GABC", 101, 2),
        slot("GABC", 101, 3),
    ];
    let conflicts = detect_conflicts(&slots);
    assert_eq!(conflicts.len(), 3);
}

/// Every distinct pair of slots checked on its own through `conflicts_between`.
fn naive_detect_conflicts(slots: &[QueuedSlot]) -> Vec<Conflict> {
    let mut out = Vec::new();
    for i in 0..slots.len() {
        for j in (i + 1)..slots.len() {
            if let Some(c) = conflicts_between(&slots[i], &slots[j]) {
                out.push(c);
            }
        }
    }
    out
}

/// Order-independent view of a conflict list: (account, sequence, sorted envelope pair).
fn normalize(conflicts: Vec<Conflict>) -> BTreeSet<(String, i64, [u8; 32], [u8; 32])> {
    conflicts
        .into_iter()
        .map(|c| {
            let (a, b) = if c.envelope_a <= c.envelope_b {
                (c.envelope_a, c.envelope_b)
            } else {
                (c.envelope_b, c.envelope_a)
            };
            (c.source_account, c.sequence, a, b)
        })
        .collect()
}

#[test]
fn three_way_collision_names_each_pair_in_ascending_order() {
    let slots = vec![
        slot("GABC", 101, 3),
        slot("GABC", 101, 1),
        slot("GABC", 101, 2),
    ];
    let conflicts = detect_conflicts(&slots);
    let pairs: BTreeSet<([u8; 32], [u8; 32])> =
        conflicts.iter().map(|c| (c.envelope_a, c.envelope_b)).collect();
    let expected: BTreeSet<([u8; 32], [u8; 32])> = vec![
        ([1; 32], [2; 32]),
        ([1; 32], [3; 32]),
        ([2; 32], [3; 32]),
    ]
    .into_iter()
    .collect();
    assert_eq!(pairs, expected);
    for c in &conflicts {
        assert_eq!(c.source_account, "GABC");
        assert_eq!(c.sequence, 101);
        assert!(c.envelope_a < c.envelope_b);
    }
}

#[test]
fn repeated_envelope_in_batch_is_not_a_conflict() {
    let slots = vec![
        slot("GABC", 101, 7),
        slot("GABC", 101, 7),
        slot("GABC", 101, 7),
    ];
    assert!(detect_conflicts(&slots).is_empty());
}

#[test]
fn repeated_envelope_is_reported_once_per_pair() {
    let slots = vec![
        slot("GABC", 101, 2),
        slot("GABC", 101, 1),
        slot("GABC", 101, 2),
        slot("GABC", 101, 1),
    ];
    let conflicts = detect_conflicts(&slots);
    assert_eq!(conflicts.len(), 1);
    assert_eq!(conflicts[0].envelope_a, [1; 32]);
    assert_eq!(conflicts[0].envelope_b, [2; 32]);
}

#[test]
fn empty_batch_has_no_conflicts() {
    assert!(detect_conflicts(&[]).is_empty());
}

#[test]
fn conflicts_between_keeps_argument_order_and_is_symmetric() {
    let a = slot("GABC", 101, 9);
    let b = slot("GABC", 101, 4);
    let ab = conflicts_between(&a, &b).unwrap();
    let ba = conflicts_between(&b, &a).unwrap();
    assert_eq!(
        ab,
        Conflict {
            source_account: "GABC".to_string(),
            sequence: 101,
            envelope_a: [9; 32],
            envelope_b: [4; 32],
        }
    );
    assert_eq!(ba.envelope_a, ab.envelope_b);
    assert_eq!(ba.envelope_b, ab.envelope_a);
    assert_eq!(ba.source_account, ab.source_account);
    assert_eq!(ba.sequence, ab.sequence);
}

#[test]
fn ids_differing_in_last_byte_conflict() {
    let a = slot("GABC", 5, 0);
    let mut b = slot("GABC", 5, 0);
    b.message_id[31] = 1;
    let conflicts = detect_conflicts(&[b.clone(), a.clone()]);
    assert_eq!(conflicts.len(), 1);
    assert_eq!(conflicts[0].envelope_a, a.message_id);
    assert_eq!(conflicts[0].envelope_b, b.message_id);
}

#[test]
fn detect_conflicts_matches_pairwise_reference() {
    let accounts = ["GABC", "GXYZ", "GDEF"];
    let mut slots = Vec::new();
    let mut seed: u32 = 12345;
    for _ in 0..40 {
        seed = seed.wrapping_mul(1103515245).wrapping_add(12345);
        let account = accounts[(seed >> 16) as usize % 3];
        seed = seed.wrapping_mul(1103515245).wrapping_add(12345);
        let sequence = ((seed >> 16) % 4) as i64;
        seed = seed.wrapping_mul(1103515245).wrapping_add(12345);
        let id = ((seed >> 16) % 4) as u8;
        slots.push(slot(account, sequence, id));
        let actual = normalize(detect_conflicts(&slots));
        let expected = normalize(naive_detect_conflicts(&slots));
        assert_eq!(actual, expected);
        assert_eq!(detect_conflicts(&slots).len(), actual.len());
    }
}

#[test]
fn batch_order_does_not_change_the_conflicts() {
    let slots = vec![
        slot("GABC", 1, 1),
        slot("GXYZ", 1, 2),
        slot("GABC", 1, 3),
        slot("GXYZ", 1, 4),
        slot("GABC", 2, 5),
    ];
    let mut reversed = slots.clone();
    reversed.reverse();
    assert_eq!(
        normalize(detect_conflicts(&slots)),
        normalize(detect_conflicts(&reversed))
    );
    assert_eq!(detect_conflicts(&slots).len(), 2);
}

#[test]
fn conflicts_of_one_slot_come_together_in_ascending_order() {
    let slots = vec![
        slot("GABC", 101, 3),
        slot("GXYZ", 7, 9),
        slot("GABC", 101, 1),
        slot("GXYZ", 7, 8),
        slot("GABC", 101, 2),
    ];
    let conflicts = detect_conflicts(&slots);
    assert_eq!(conflicts.len(), 4);
    let abc: Vec<usize> = (0..conflicts.len())
        .filter(|&k| conflicts[k].source_account == "GABC")
        .collect();
    assert_eq!(abc.len(), 3);
    assert_eq!(abc[2] - abc[0], 2);
    let pairs: Vec<([u8; 32], [u8; 32])> = abc
        .iter()
        .map(|&k| (conflicts[k].envelope_a, conflicts[k].envelope_b))
        .collect();
    assert_eq!(
        pairs,
        vec![([1; 32], [2; 32]), ([1; 32], [3; 32]), ([2; 32], [3; 32])]
    );
    let xyz: Vec<&Conflict> = conflicts.iter().filter(|c| c.source_account == "GXYZ").collect();
    assert_eq!(xyz.len(), 1);
    assert_eq!(xyz[0].sequence, 7);
    assert_eq!(xyz[0].envelope_a, [8; 32]);
    assert_eq!(xyz[0].envelope_b, [9; 32]);
}
