use reverse_cluster::allocator::{changed_assignments, plan_assignments};
use reverse_cluster::control::NodeId;

fn nodes(ids: &[u64]) -> Vec<NodeId> {
    ids.iter().map(|&i| NodeId(i)).collect()
}

#[test]
fn every_position_has_a_distinct_primary_and_replicas() {
    let ns = nodes(&[0, 1, 2, 3, 4]);
    let plan = plan_assignments(&ns, 32, 3);
    assert_eq!(plan.len(), 32);
    for (i, a) in plan.iter().enumerate() {
        assert_eq!(a.position as usize, i, "positions are dense + ordered");
        assert_eq!(a.replicas.len(), 2, "rf=3 ⇒ 1 primary + 2 replicas");
        // primary + replicas are all distinct nodes.
        let mut all = vec![a.primary];
        all.extend(&a.replicas);
        all.sort_unstable();
        let n = all.len();
        all.dedup();
        assert_eq!(all.len(), n, "no node appears twice in a position: {a:?}");
    }
}

#[test]
fn rf_is_clamped_to_node_count() {
    let ns = nodes(&[0, 1]);
    let plan = plan_assignments(&ns, 4, 5); // rf=5 but only 2 nodes
    for a in &plan {
        assert_eq!(
            a.replicas.len(),
            1,
            "rf clamped to 2 ⇒ 1 primary + 1 replica"
        );
    }
    // A single node ⇒ primary only, no replicas.
    let solo = plan_assignments(&nodes(&[7]), 3, 3);
    assert!(solo
        .iter()
        .all(|a| a.primary == NodeId(7) && a.replicas.is_empty()));
}

#[test]
fn placement_is_deterministic() {
    let ns = nodes(&[3, 1, 4, 1, 5]); // dup 1 is harmless for determinism check
    let a = plan_assignments(&ns, 16, 2);
    let b = plan_assignments(&ns, 16, 2);
    assert_eq!(a, b, "same inputs ⇒ identical plan");
}

#[test]
fn primaries_are_roughly_balanced() {
    let ns = nodes(&[0, 1, 2, 3]);
    let num = 4000u32;
    let plan = plan_assignments(&ns, num, 1);
    let mut counts = [0usize; 4];
    for a in &plan {
        counts[a.primary.0 as usize] += 1;
    }
    let expected = num as usize / 4;
    for (node, &c) in counts.iter().enumerate() {
        // HRW spreads evenly; allow a generous ±25% band (it is a hash, not exact round-robin).
        assert!(
            c > expected * 3 / 4 && c < expected * 5 / 4,
            "node {node} got {c} primaries, expected ≈{expected}: {counts:?}"
        );
    }
}

#[test]
fn adding_a_node_moves_about_one_over_n_of_primaries() {
    let num = 4000u32;
    let before = plan_assignments(&nodes(&[0, 1, 2]), num, 1);
    let after = plan_assignments(&nodes(&[0, 1, 2, 3]), num, 1);
    let moved = before
        .iter()
        .zip(&after)
        .filter(|(b, a)| b.primary != a.primary)
        .count();
    // Going 3→4 nodes, the newcomer should win ≈1/4 of positions; almost all churn is positions
    // moving TO node 3 (HRW's minimal-movement property — far below the ≈3/4 a modulus reshuffle
    // would cause).
    let frac = moved as f64 / f64::from(num);
    assert!(
        (0.15..0.35).contains(&frac),
        "expected ≈1/4 primaries to move (3→4 nodes), got {frac:.3} ({moved}/{num})"
    );
    // And the moved positions overwhelmingly landed on the new node.
    let to_new = before
        .iter()
        .zip(&after)
        .filter(|(b, a)| b.primary != a.primary && a.primary == NodeId(3))
        .count();
    assert!(
        to_new * 100 >= moved * 95,
        "≥95% of moves should go to the new node 3: {to_new}/{moved}"
    );
}

#[test]
fn changed_assignments_returns_only_the_diff() {
    let ns = nodes(&[0, 1, 2]);
    let current = plan_assignments(&ns, 8, 1);
    // No change ⇒ empty diff.
    assert!(changed_assignments(&current, plan_assignments(&ns, 8, 1)).is_empty());
    // Add a node ⇒ only the positions that actually moved are returned.
    let desired = plan_assignments(&nodes(&[0, 1, 2, 3]), 8, 1);
    let diff = changed_assignments(&current, desired.clone());
    assert!(!diff.is_empty(), "adding a node changes some positions");
    for d in &diff {
        let c = current.iter().find(|c| c.position == d.position).unwrap();
        assert_ne!(c, d, "every returned entry is genuinely different");
    }
    assert!(diff.len() < desired.len(), "the diff is a strict subset");
}
