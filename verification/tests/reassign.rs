use reverse_cluster::allocator::plan_assignments;
use reverse_cluster::control::{
    ClusterState, ControlPlane, InMemoryControlPlane, NodeDescriptor, NodeId, NodeRole,
    ShardAssignment,
};
use reverse_cluster::coordinator::control_plane::register_node;
use reverse_cluster::coordinator::group_plan::rebalance_group_targets;
use reverse_cluster::coordinator::group_run::{GroupRun, GroupRunCall, GroupRunEvent};
use reverse_cluster::coordinator::reassign::{LiveRoute, ReassignOutcome};
use reverse_cluster::coordinator::single_move::{MoveCall, MoveEvent, SingleMove};
use reverse_cluster::coordinator::sweep::{move_shape, MoveResult, MoveShape};
use reverse_cluster::coordinator::sweep_run::Sweep;
use reverse_cluster::ownership::INITIAL_GENERATION;
use reverse_cluster::shard::ShardError;

fn node(id: u64) -> NodeDescriptor {
    NodeDescriptor {
        id: NodeId(id),
        addr: Some(format!("http://127.0.0.1:{}", 50050 + id)),
        role: NodeRole::Data,
    }
}

fn state_with(
    nodes: Vec<NodeDescriptor>,
    num_shards: u32,
    assignments: Vec<ShardAssignment>,
) -> ClusterState {
    ClusterState {
        epoch: 0,
        nodes,
        voters: Vec::new(),
        assignments,
        num_shards,
        vnodes: 128,
        dict_fingerprint: 0,
        model_version: 0,
        placement_generation: INITIAL_GENERATION,
    }
}

fn bare(position: u32, primary: u64) -> ShardAssignment {
    ShardAssignment {
        position,
        primary: NodeId(primary),
        replicas: Vec::new(),
    }
}

fn text(e: &ShardError) -> String {
    format!("{e:?}")
}

/// Moves one target of a sweep on a cluster whose shards are all in this process: planning is as
/// far as it gets.
fn move_target(state: &ClusterState, position: u32, desired: &ShardAssignment) -> MoveResult {
    match move_shape(state, position, desired) {
        MoveShape::Single => {
            let m = SingleMove::new(position as usize, desired.primary)
                .map_err(|e| text(&e))?;
            let (m, _) = m.next(MoveEvent::Seen {
                state: state.clone(),
                live: LiveRoute::NotMovable,
            });
            match m.outcome() {
                Some(Err(e)) => Err(text(&e)),
                _ => panic!("planning must fail"),
            }
        }
        MoveShape::Group => {
            let m = GroupRun::new(position as usize, desired.clone()).map_err(|e| text(&e))?;
            let (m, _) = m.next(GroupRunEvent::Seen {
                state: state.clone(),
                generation: 0,
            });
            match m.outcome() {
                Some(Err(e)) => Err(text(&e)),
                _ => panic!("planning must fail"),
            }
        }
    }
}

fn run_wave(state: &ClusterState, sweep: &mut Sweep) -> bool {
    let Some(wave) = sweep.wave() else {
        return false;
    };
    let results: Vec<(u32, MoveResult)> = wave
        .iter()
        .map(|&i| {
            let (p, d) = sweep.target(i);
            (*p, move_target(state, *p, d))
        })
        .collect();
    sweep.finish_wave(results);
    true
}

/// A cluster in one process with two registered data nodes.
fn with_two_data_nodes(num_shards: u32) -> InMemoryControlPlane {
    let mut cp = InMemoryControlPlane::single_node(num_shards, 128, 0);
    for id in [1u64, 2] {
        register_node(
            &mut cp,
            NodeDescriptor {
                id: NodeId(id),
                addr: Some(format!("http://127.0.0.1:{id}")),
                role: NodeRole::Data,
            },
        )
        .expect("register node");
    }
    cp
}

/// A map already equal to the HRW desired placement moves nothing (the idempotent re-run / the
/// single-node default ⇒ a no-op rebalance).
#[test]
fn no_targets_when_already_balanced() {
    let nodes = vec![node(1), node(2), node(3)];
    let node_ids: Vec<NodeId> = nodes.iter().map(|n| n.id).collect();
    let num_shards = 8u32;
    let desired = plan_assignments(&node_ids, num_shards, 1);
    let st = state_with(nodes, num_shards, desired);
    assert!(
        rebalance_group_targets(&st, 1).is_empty(),
        "an already-HRW-balanced map needs no moves"
    );
}

/// No members ⇒ nothing to place ⇒ no targets (the caller turns this into a fail-closed error).
#[test]
fn empty_membership_yields_no_targets() {
    let st = state_with(Vec::new(), 4, Vec::new());
    assert!(rebalance_group_targets(&st, 1).is_empty());
    assert!(matches!(
        Sweep::rebalance(&st, 1, 1),
        Err(ShardError::ControlPlane(_))
    ));
}

/// Targets are exactly the positions whose PRIMARY changes, named with the HRW desired owner,
/// sorted ascending and one per position; unmoved positions keep their current primary.
#[test]
fn targets_are_changed_primaries_sorted() {
    let nodes = vec![node(1), node(2), node(3)];
    let num_shards = 8u32;
    // Current: every position on node 1. HRW over {1,2,3} pulls ~2/3 of them off node 1.
    let current: Vec<ShardAssignment> = (0..num_shards).map(|p| bare(p, 1)).collect();
    let st = state_with(nodes.clone(), num_shards, current);
    let targets: Vec<(u32, NodeId)> = rebalance_group_targets(&st, 1)
        .into_iter()
        .map(|(p, d)| (p, d.primary))
        .collect();
    assert!(
        !targets.is_empty(),
        "HRW over 3 nodes must move some positions off node 1"
    );

    // Sorted ascending, one per position.
    let positions: Vec<u32> = targets.iter().map(|(p, _)| *p).collect();
    let mut sorted = positions.clone();
    sorted.sort_unstable();
    sorted.dedup();
    assert_eq!(positions, sorted, "targets sorted by position, no dups");

    // Each target names the HRW desired primary and is a genuine change off node 1.
    let node_ids: Vec<NodeId> = nodes.iter().map(|n| n.id).collect();
    let desired = plan_assignments(&node_ids, num_shards, 1);
    for (pos, to) in &targets {
        let d = desired.iter().find(|a| a.position == *pos).unwrap();
        assert_eq!(d.primary, *to, "target names the HRW desired primary");
        assert_ne!(*to, NodeId(1), "only changed primaries are targets");
    }
    // Positions absent from targets kept their current primary (node 1).
    for a in &desired {
        if !targets.iter().any(|(p, _)| *p == a.position) {
            assert_eq!(a.primary, NodeId(1), "unmoved positions stayed on node 1");
        }
    }
}

/// Targets are planned only over data nodes WITH an address: the addr-less control-plane manager
/// (`NodeId(0)`) and any addr-less data node are never picked as a move destination (HRW must not
/// produce a move-to-the-manager that then fails on the missing endpoint).
#[test]
fn excludes_manager_and_addrless_nodes() {
    let manager = NodeDescriptor {
        id: NodeId(0),
        addr: None,
        role: NodeRole::Manager,
    };
    let addrless_data = NodeDescriptor {
        id: NodeId(9),
        addr: None,
        role: NodeRole::Data,
    };
    let nodes = vec![manager, node(1), node(2), addrless_data];
    let num_shards = 8u32;
    let current: Vec<ShardAssignment> = (0..num_shards).map(|p| bare(p, 1)).collect();
    let st = state_with(nodes, num_shards, current);
    let targets: Vec<(u32, NodeId)> = rebalance_group_targets(&st, 1)
        .into_iter()
        .map(|(p, d)| (p, d.primary))
        .collect();
    assert!(
        !targets.is_empty(),
        "HRW over the 2 eligible data nodes still moves some positions off node 1"
    );
    for (_pos, to) in &targets {
        assert!(
            *to == NodeId(1) || *to == NodeId(2),
            "only addr'd data nodes are targets, got {to:?}"
        );
    }
}

/// A sweep with two copies per position plans groups: the first group move fails before anything
/// is contacted (the committed primary is the manager, which has no address), and the sweep stops
/// there.
#[test]
fn rebalance_and_move_rf2_dispatches_group_moves() {
    let cp = with_two_data_nodes(2);
    let state = cp.cluster_state().expect("state");
    let mut sweep = Sweep::rebalance(&state, 2, 1).expect("rf=2 sweep runs");
    while run_wave(&state, &mut sweep) {}
    let report = sweep.rebalanced();
    let (pos, msg) = report
        .failed
        .as_ref()
        .expect("the first group move fails loudly");
    assert!(
        msg.contains("reassign_group_and_move"),
        "an rf=2 target with replicas dispatches to the GROUP move: {msg}"
    );
    assert!(
        report.moved.is_empty(),
        "nothing moved (the manager primary has no endpoint): {report:?}"
    );
    assert!(
        report.not_attempted.iter().all(|p| p != pos),
        "stop-on-first: the failed position is not also listed as not-attempted"
    );
    assert_eq!(report.not_attempted, vec![1]);
}

/// The public single and group APIs accept `usize` for historical callers but
/// the control and wire position is `u32`. Reject instead of truncating an
/// oversized value onto an unrelated real shard.
#[test]
fn reassign_rejects_position_above_u32_without_narrowing() {
    let position = usize::try_from(u64::from(u32::MAX) + 1).expect("64-bit usize");
    let error = SingleMove::new(position, NodeId(1))
        .err()
        .expect("oversized position must fail before endpoint or network access");
    assert!(text(&error).contains("exceeds the u32"), "{error:?}");

    let error = GroupRun::new(
        position,
        ShardAssignment {
            position: 0,
            primary: NodeId(1),
            replicas: vec![NodeId(2)],
        },
    )
    .err()
    .expect("oversized group position must fail before endpoint or network access");
    assert!(text(&error).contains("exceeds the u32"), "{error:?}");
}

fn two_nodes() -> ClusterState {
    state_with(vec![node(1), node(2)], 1, vec![bare(0, 1)])
}

fn planned(m: SingleMove, live: &str) -> SingleMove {
    let (m, n) = m.next(MoveEvent::Seen {
        state: two_nodes(),
        live: LiveRoute::Primary(live.to_string()),
    });
    assert!(n.is_none());
    m
}

#[test]
fn a_single_move_runs_to_its_commit() {
    let m = SingleMove::new(0, NodeId(2)).unwrap();
    assert!(matches!(m.call(), Some(MoveCall::ReadState)));
    let m = planned(m, "http://127.0.0.1:50051");
    assert!(matches!(m.call(), Some(MoveCall::Reserve(v)) if v.len() == 3));
    let (m, _) = m.next(MoveEvent::Reserved(true));
    assert!(matches!(m.call(), Some(MoveCall::ReadAgain)));
    let (m, _) = m.next(MoveEvent::SeenAgain {
        state: two_nodes(),
        live: Some("HTTP://127.0.0.1:50051/".to_string()),
        generation: 4,
    });
    assert!(matches!(m.call(), Some(MoveCall::Start)));
    let (m, _) = m.next(MoveEvent::MayStart(true));
    assert!(matches!(m.call(), Some(MoveCall::Handoff { target, .. })
        if target == "http://127.0.0.1:50052"));
    let (m, _) = m.next(MoveEvent::Handed(Ok(5)));
    let (m, _) = m.next(MoveEvent::SeenForCommit(two_nodes()));
    assert!(matches!(m.call(), Some(MoveCall::Propose { assignment, pause: false })
        if assignment == bare(0, 2)));
    let (m, n) = m.next(MoveEvent::Proposed(Err("no quorum".to_string())));
    assert!(n.is_none());
    assert!(matches!(
        m.call(),
        Some(MoveCall::Propose { pause: true, .. })
    ));
    let (m, _) = m.next(MoveEvent::Proposed(Ok(())));
    assert!(matches!(
        m.outcome(),
        Some(Ok(Some(ReassignOutcome::Moved { position: 0, from: NodeId(1), to: NodeId(2), generation: 5 })))
    ));
}

#[test]
fn a_single_move_that_is_there_only_commits() {
    let m = planned(SingleMove::new(0, NodeId(2)).unwrap(), "http://127.0.0.1:50052");
    let (m, _) = m.next(MoveEvent::Reserved(true));
    let (m, _) = m.next(MoveEvent::SeenAgain {
        state: two_nodes(),
        live: Some("http://127.0.0.1:50052".to_string()),
        generation: 4,
    });
    let (m, _) = m.next(MoveEvent::MayStart(true));
    assert!(matches!(m.call(), Some(MoveCall::ReadForCommit)));
    let (m, _) = m.next(MoveEvent::SeenForCommit(two_nodes()));
    let (m, _) = m.next(MoveEvent::Proposed(Ok(())));
    assert!(matches!(
        m.outcome(),
        Some(Ok(Some(ReassignOutcome::Reconciled { generation: 4, .. })))
    ));
}

#[test]
fn a_single_move_is_planned_four_times_at_most() {
    let mut m = SingleMove::new(0, NodeId(2)).unwrap();
    for _ in 0..3 {
        m = planned(m, "http://127.0.0.1:50051");
        (m, _) = m.next(MoveEvent::Reserved(true));
        (m, _) = m.next(MoveEvent::SeenAgain {
            state: two_nodes(),
            live: Some("http://127.0.0.1:50059".to_string()),
            generation: 4,
        });
        assert!(matches!(m.call(), Some(MoveCall::ReadState)));
    }
    m = planned(m, "http://127.0.0.1:50051");
    (m, _) = m.next(MoveEvent::Reserved(true));
    (m, _) = m.next(MoveEvent::SeenAgain {
        state: two_nodes(),
        live: Some("http://127.0.0.1:50059".to_string()),
        generation: 4,
    });
    assert!(matches!(m.outcome(), Some(Err(ShardError::ControlPlane(t)))
        if t.contains("kept changing while planning (4 attempts)")));
}

#[test]
fn a_move_under_a_changed_map_does_not_commit() {
    let m = planned(SingleMove::new(0, NodeId(2)).unwrap(), "http://127.0.0.1:50051");
    let (m, _) = m.next(MoveEvent::Reserved(true));
    let (m, _) = m.next(MoveEvent::SeenAgain {
        state: two_nodes(),
        live: Some("http://127.0.0.1:50051".to_string()),
        generation: 4,
    });
    let (m, _) = m.next(MoveEvent::MayStart(true));
    let (m, _) = m.next(MoveEvent::Handed(Ok(5)));
    let changed = state_with(vec![node(1), node(2), node(3)], 1, vec![bare(0, 3)]);
    let (m, notice) = m.next(MoveEvent::SeenForCommit(changed));
    assert!(notice.unwrap().detail.contains("not overwriting the map"));
    assert!(matches!(
        m.outcome(),
        Some(Ok(Some(ReassignOutcome::MovedButNotCommitted { moved: true, .. })))
    ));
}

#[test]
fn a_move_without_a_commit_says_so_after_three_tries() {
    let m = planned(SingleMove::new(0, NodeId(2)).unwrap(), "http://127.0.0.1:50052");
    let (m, _) = m.next(MoveEvent::Reserved(true));
    let (m, _) = m.next(MoveEvent::SeenAgain {
        state: two_nodes(),
        live: Some("http://127.0.0.1:50052".to_string()),
        generation: 4,
    });
    let (m, _) = m.next(MoveEvent::MayStart(true));
    let (m, _) = m.next(MoveEvent::SeenForCommit(two_nodes()));
    let (m, n) = m.next(MoveEvent::Proposed(Err("a".to_string())));
    assert!(n.is_none());
    let (m, n) = m.next(MoveEvent::Proposed(Err("b".to_string())));
    assert!(n.is_none());
    let (m, n) = m.next(MoveEvent::Proposed(Err("c".to_string())));
    let n = n.unwrap();
    assert_eq!(n.error, "c");
    assert!(n.detail.contains("failed after 3 attempts"));
    assert!(matches!(
        m.outcome(),
        Some(Ok(Some(ReassignOutcome::MovedButNotCommitted { moved: false, .. })))
    ));
}

#[test]
fn a_move_that_may_not_start_is_no_outcome() {
    let m = planned(SingleMove::new(0, NodeId(2)).unwrap(), "http://127.0.0.1:50051");
    let (m, _) = m.next(MoveEvent::Reserved(false));
    assert!(matches!(m.outcome(), Some(Ok(None))));
}

#[test]
fn a_group_move_runs_to_its_commit() {
    let desired = ShardAssignment {
        position: 0,
        primary: NodeId(2),
        replicas: vec![NodeId(1)],
    };
    let m = GroupRun::new(0, desired.clone()).unwrap();
    assert!(matches!(m.call(), Some(GroupRunCall::ReadState)));
    let (m, _) = m.next(GroupRunEvent::Seen {
        state: two_nodes(),
        generation: 3,
    });
    assert!(matches!(m.call(), Some(GroupRunCall::Reserve(v)) if v.len() == 3));
    let (m, _) = m.next(GroupRunEvent::Reserved);
    let (m, _) = m.next(GroupRunEvent::SeenAgain {
        state: two_nodes(),
        movable: true,
    });
    assert!(matches!(m.call(), Some(GroupRunCall::Move)));
    assert_eq!(m.plan().unwrap().members.len(), 2);
    let (m, _) = m.next(GroupRunEvent::Moved(Ok(4)));
    let (m, _) = m.next(GroupRunEvent::SeenForCommit(two_nodes()));
    assert!(matches!(m.call(), Some(GroupRunCall::Propose { assignment, pause: false })
        if assignment == desired));
    let (m, _) = m.next(GroupRunEvent::Proposed(Ok(())));
    assert!(matches!(
        m.outcome(),
        Some(Ok(ReassignOutcome::Moved { position: 0, from: NodeId(1), to: NodeId(2), generation: 4 }))
    ));
}

#[test]
fn a_group_in_place_is_left_alone() {
    let m = GroupRun::new(0, bare(0, 1)).unwrap();
    let (m, _) = m.next(GroupRunEvent::Seen {
        state: two_nodes(),
        generation: 3,
    });
    assert!(matches!(
        m.outcome(),
        Some(Ok(ReassignOutcome::NoChange { position: 0, generation: 3 }))
    ));
}

#[test]
fn a_group_for_another_position_is_refused() {
    assert!(matches!(GroupRun::new(1, bare(0, 1)), Err(ShardError::Config(m))
        if m.contains("names position 0 but the move is for position 1")));
}

#[test]
fn a_group_with_two_members_on_one_endpoint_is_refused() {
    let mut twin = node(3);
    twin.addr = node(2).addr;
    let st = state_with(vec![node(1), node(2), twin], 1, vec![bare(0, 1)]);
    let desired = ShardAssignment {
        position: 0,
        primary: NodeId(2),
        replicas: vec![NodeId(3)],
    };
    let (m, _) = GroupRun::new(0, desired)
        .unwrap()
        .next(GroupRunEvent::Seen { state: st, generation: 0 });
    match m.outcome() {
        Some(Err(ShardError::Config(m))) => assert!(
            m.contains("(NodeId(2), \"http://127.0.0.1:50052\")"),
            "the members are shown in quotes: {m}"
        ),
        _ => panic!("two members share an endpoint"),
    }
}
