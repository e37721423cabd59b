use reverse_cluster::control::{
    ClusterState, NodeDescriptor, NodeId, NodeRole, ShardAssignment,
};
use reverse_cluster::coordinator::waves::{move_footprint, plan_waves};
use reverse_cluster::ownership::INITIAL_GENERATION;

fn node(id: u64) -> NodeDescriptor {
    NodeDescriptor {
        id: NodeId(id),
        addr: Some(format!("http://127.0.0.1:{}", 50050 + id)),
        role: NodeRole::Data,
    }
}

fn addr(id: u64) -> String {
    format!("http://127.0.0.1:{}", 50050 + id)
}

fn bare(position: u32, primary: u64) -> ShardAssignment {
    ShardAssignment {
        position,
        primary: NodeId(primary),
        replicas: Vec::new(),
    }
}

fn grouped(position: u32, primary: u64, replicas: &[u64]) -> ShardAssignment {
    ShardAssignment {
        position,
        primary: NodeId(primary),
        replicas: replicas.iter().map(|&r| NodeId(r)).collect(),
    }
}

fn state_with(nodes: Vec<NodeDescriptor>, assignments: Vec<ShardAssignment>) -> ClusterState {
    ClusterState {
        epoch: 0,
        num_shards: assignments.len().max(8) as u32,
        nodes,
        voters: Vec::new(),
        assignments,
        vnodes: 128,
        dict_fingerprint: 0,
        model_version: 0,
        placement_generation: INITIAL_GENERATION,
    }
}

/// A chained reshuffle (p0: N1→N2 while p1: N2→N3) shares node 2 — the moves land in
/// DIFFERENT waves (T must not be a handoff target and a fenced source at once).
#[test]
fn chained_reshuffle_serializes() {
    let st = state_with(
        vec![node(1), node(2), node(3)],
        vec![bare(0, 1), bare(1, 2)],
    );
    let targets = vec![(0u32, bare(0, 2)), (1u32, bare(1, 3))];
    assert_eq!(plan_waves(&st, &targets, 8), vec![vec![0], vec![1]]);
}

/// Two positions flipping off ONE source node serialize.
#[test]
fn shared_source_serializes() {
    let st = state_with(
        vec![node(1), node(2), node(3)],
        vec![bare(0, 1), bare(1, 1)],
    );
    let targets = vec![(0u32, bare(0, 2)), (1u32, bare(1, 3))];
    assert_eq!(plan_waves(&st, &targets, 8), vec![vec![0], vec![1]]);
}

/// Two positions moving ONTO one destination node serialize (the adopt/AddShard handshake).
#[test]
fn shared_destination_serializes() {
    let st = state_with(
        vec![node(1), node(2), node(3)],
        vec![bare(0, 1), bare(1, 2)],
    );
    let targets = vec![(0u32, bare(0, 3)), (1u32, bare(1, 3))];
    assert_eq!(plan_waves(&st, &targets, 8), vec![vec![0], vec![1]]);
}

/// Moves over disjoint node sets share a wave — the parallelism the ledger + planner exist
/// to allow.
#[test]
fn disjoint_moves_share_a_wave() {
    let st = state_with(
        vec![node(1), node(2), node(3), node(4)],
        vec![bare(0, 1), bare(1, 3)],
    );
    let targets = vec![(0u32, bare(0, 2)), (1u32, bare(1, 4))];
    assert_eq!(plan_waves(&st, &targets, 8), vec![vec![0, 1]]);
}

/// `max_parallel` caps a wave's width even over fully-disjoint moves; deferred targets keep
/// position order.
#[test]
fn cap_bounds_wave_width() {
    let nodes: Vec<NodeDescriptor> = (1..=10).map(node).collect();
    let assignments: Vec<ShardAssignment> = (0..5).map(|p| bare(p, u64::from(p) + 1)).collect();
    let st = state_with(nodes, assignments);
    let targets: Vec<(u32, ShardAssignment)> =
        (0..5u32).map(|p| (p, bare(p, u64::from(p) + 6))).collect();
    assert_eq!(
        plan_waves(&st, &targets, 2),
        vec![vec![0, 1], vec![2, 3], vec![4]]
    );
}

/// `max_parallel = 1` (the DEFAULT) is singleton waves in exact target order — the sequential
/// path's schedule, byte-identical.
#[test]
fn cap_one_is_sequential_target_order() {
    let nodes: Vec<NodeDescriptor> = (1..=10).map(node).collect();
    let assignments: Vec<ShardAssignment> = (0..5).map(|p| bare(p, u64::from(p) + 1)).collect();
    let st = state_with(nodes, assignments);
    let targets: Vec<(u32, ShardAssignment)> =
        (0..5u32).map(|p| (p, bare(p, u64::from(p) + 6))).collect();
    assert_eq!(
        plan_waves(&st, &targets, 1),
        vec![vec![0], vec![1], vec![2], vec![3], vec![4]]
    );
    // 0 clamps to 1 (a nonsense cap never means "unbounded").
    assert_eq!(plan_waves(&st, &targets, 0).len(), 5);
}

/// A group move's footprint is the committed primary (the fenced source) plus EVERY desired
/// member — and NOT a dropped `C ∖ D` replica, which the move never contacts.
#[test]
fn group_footprint_covers_primary_and_all_desired_members_not_dropped_ones() {
    let st = state_with(
        (1..=4).map(node).collect(),
        vec![grouped(0, 1, &[4])], // committed: primary N1, replica N4
    );
    let desired = grouped(0, 2, &[3]); // desired: primary N2, replica N3
    let fp = move_footprint(&st, &desired);
    assert!(fp.contains(&addr(1)), "committed primary (fenced source)");
    assert!(fp.contains(&addr(2)), "desired primary");
    assert!(fp.contains(&addr(3)), "desired replica");
    assert!(
        !fp.contains(&addr(4)),
        "a dropped C∖D replica is never contacted — not in the footprint"
    );
    assert_eq!(fp.len(), 3);
}

/// The partition is deterministic: same inputs, same waves.
#[test]
fn waves_are_deterministic() {
    let st = state_with(
        (1..=6).map(node).collect(),
        vec![bare(0, 1), bare(1, 2), bare(2, 3)],
    );
    let targets = vec![(0u32, bare(0, 2)), (1u32, bare(1, 4)), (2u32, bare(2, 5))];
    assert_eq!(plan_waves(&st, &targets, 4), plan_waves(&st, &targets, 4));
}

/// A target whose members don't all resolve (an addr-less committed primary — e.g. the
/// manager) is still SCHEDULED: it fails loudly inside the move (pre-network endpoint
/// resolution), not silently in the planner.
#[test]
fn addrless_member_target_is_still_scheduled() {
    let manager = NodeDescriptor {
        id: NodeId(0),
        addr: None,
        role: NodeRole::Manager,
    };
    let st = state_with(vec![manager, node(1)], vec![bare(0, 0)]);
    let targets = vec![(0u32, bare(0, 1))];
    let fp = move_footprint(&st, &targets[0].1);
    assert_eq!(fp, vec![addr(1)], "only the resolvable member appears");
    assert_eq!(plan_waves(&st, &targets, 2), vec![vec![0]]);
}