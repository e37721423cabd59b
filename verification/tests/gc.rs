use reverse_cluster::control::{
    ClusterState, ControlPlane, InMemoryControlPlane, NodeDescriptor, NodeId, NodeRole,
    ShardAssignment,
};
use reverse_cluster::coordinator::control_plane::register_node;
use reverse_cluster::coordinator::gc::{
    check_listing, classify_node, classify_slot, incomplete_delete_detail, DropOrphanOutcome,
    GcReport, NodeListing, OrphanSlot, ShardListing, SlotClass,
};
use reverse_cluster::coordinator::gc_run::{GcCall, GcEvent, GcSweep, GcTerms};
use reverse_cluster::ownership::INITIAL_GENERATION;
use reverse_cluster::shard::ShardError;

const TERMS: GcTerms = GcTerms {
    protocol: 1,
    dict_fingerprint: 11,
    tag_dict_fingerprint: 12,
};

fn state_with(assignments: Vec<ShardAssignment>) -> ClusterState {
    ClusterState {
        epoch: 3,
        num_shards: 8,
        nodes: vec![
            NodeDescriptor {
                id: NodeId(1),
                addr: Some("http://127.0.0.1:50051".into()),
                role: NodeRole::Data,
            },
            NodeDescriptor {
                id: NodeId(2),
                addr: Some("http://127.0.0.1:50052".into()),
                role: NodeRole::Data,
            },
        ],
        voters: Vec::new(),
        assignments,
        vnodes: 128,
        dict_fingerprint: 0,
        model_version: 0,
        placement_generation: INITIAL_GENERATION,
    }
}

fn assign(position: u32, primary: u64, replicas: &[u64]) -> ShardAssignment {
    ShardAssignment {
        position,
        primary: NodeId(primary),
        replicas: replicas.iter().map(|&r| NodeId(r)).collect(),
    }
}

/// The committed map's owners — primary AND replicas — are never orphans.
#[test]
fn committed_primary_and_replica_are_kept() {
    let st = state_with(vec![assign(0, 1, &[2])]);
    assert_eq!(
        classify_slot(&st, NodeId(1), "http://127.0.0.1:50051", 0, &vec![]),
        SlotClass::Committed,
        "the committed primary"
    );
    assert_eq!(
        classify_slot(&st, NodeId(2), "http://127.0.0.1:50052", 0, &vec![]),
        SlotClass::Committed,
        "a committed replica"
    );
}

/// A position with NO committed assignment is fail-safe skipped — the map cannot vouch the
/// data lives elsewhere, so the sweep never drops it.
#[test]
fn unassigned_position_is_skipped() {
    let st = state_with(vec![assign(0, 1, &[])]);
    assert_eq!(
        classify_slot(&st, NodeId(2), "http://127.0.0.1:50052", 5, &vec![]),
        SlotClass::Unassigned
    );
}

/// A hosted-but-unassigned slot whose node LIVE ROUTING still reaches is kept — the
/// `MovedButNotCommitted` / raw-handoff-flip protection the committed map alone would miss.
/// The endpoint compare is normalized (trailing slash, case) so a formatting variant still
/// KEEPS.
#[test]
fn live_routed_slot_is_kept_with_normalized_endpoints() {
    let st = state_with(vec![assign(0, 1, &[])]);
    let live = vec!["http://127.0.0.1:50052/".to_string()]; // trailing slash variant
    assert_eq!(
        classify_slot(&st, NodeId(2), "HTTP://127.0.0.1:50052", 0, &live),
        SlotClass::LiveRouted
    );
}

/// Hosted, not committed to this node, not live-routed: the one class the sweep drops.
#[test]
fn hosted_unrouted_slot_is_the_orphan() {
    let st = state_with(vec![assign(0, 1, &[])]);
    let live = vec!["http://127.0.0.1:50051".to_string()]; // routing reaches node 1, not 2
    assert_eq!(
        classify_slot(&st, NodeId(2), "http://127.0.0.1:50052", 0, &live),
        SlotClass::Orphan
    );
}

#[test]
fn completion_requires_every_node_slot_and_disk_cleanup_to_finish() {
    let slot = OrphanSlot {
        node: NodeId(2),
        shard_id: 0,
        num_queries: 3,
    };
    let mut report = GcReport::default();
    assert!(report.is_complete());
    report.kept_live_routed.push(slot.clone());
    assert!(
        report.is_complete(),
        "a live keep is an intentional terminal outcome"
    );
    report.pending_disk_cleanup.push(slot.clone());
    assert!(!report.is_complete());
    report.pending_disk_cleanup.clear();
    report.skipped_unassigned.push(slot.clone());
    assert!(!report.is_complete());
    report.skipped_unassigned.clear();
    report.failed.push((slot, "drop failed".to_string()));
    assert!(!report.is_complete());
    report.failed.clear();
    report
        .skipped_nodes
        .push((NodeId(2), "node unavailable".to_string()));
    assert!(!report.is_complete());
}

/// The sweep of a cluster in one process is a clean no-op: no data node with an address, so nothing
/// is contacted and the report is empty.
#[test]
fn gc_is_a_clean_no_op_in_process() {
    let cp = InMemoryControlPlane::single_node(3, 128, 7);
    let state = cp.cluster_state().expect("state");
    let epoch_before = state.epoch;
    let GcSweep::Ended(Ok(report)) = GcSweep::new(TERMS).next(GcEvent::Seen((*state).clone())) else {
        panic!("something is contacted");
    };
    assert_eq!(report, GcReport::default(), "clean empty report");
    assert!(report.is_complete());
    assert!(report.is_clean());
    assert_eq!(
        cp.cluster_state().expect("state").epoch,
        epoch_before,
        "a no-op sweep commits nothing"
    );
}

#[test]
fn addrless_data_node_makes_the_sweep_incomplete() {
    let mut cp = InMemoryControlPlane::single_node(8, 128, 7);
    register_node(
        &mut cp,
        NodeDescriptor {
            id: NodeId(7),
            addr: None,
            role: NodeRole::Data,
        },
    )
    .expect("register incomplete descriptor");
    let state = cp.cluster_state().expect("state");
    let GcSweep::Ended(Ok(report)) = GcSweep::new(TERMS).next(GcEvent::Seen((*state).clone())) else {
        panic!("something is contacted");
    };
    assert_eq!(report.skipped_nodes.len(), 1, "{report:?}");
    assert_eq!(report.skipped_nodes[0].0, NodeId(7));
    assert!(
        !report.is_complete(),
        "unclassifiable data node is incomplete"
    );
}

fn listing(shards: &[(u32, u64)]) -> NodeListing {
    NodeListing {
        gc_protocol_version: 1,
        dict_fingerprint: 11,
        tag_dict_fingerprint: 12,
        pending_disk_cleanup_shards: Vec::new(),
        shards: shards
            .iter()
            .map(|&(shard_id, num_queries)| ShardListing {
                shard_id,
                num_queries,
            })
            .collect(),
    }
}

#[test]
fn a_node_is_swept_slot_by_slot() {
    let st = state_with(vec![assign(0, 1, &[]), assign(1, 2, &[]), assign(2, 1, &[])]);
    let node = listing(&[(0, 3), (1, 4), (2, 5), (6, 6)]);
    let live = vec![
        vec!["http://127.0.0.1:50051".to_string()],
        vec!["http://127.0.0.1:50052".to_string()],
        vec!["http://127.0.0.1:50052".to_string()],
    ];
    let classes = classify_node(
        &st,
        NodeId(2),
        "http://127.0.0.1:50052",
        &node.shards,
        &live,
    );
    assert_eq!(
        classes,
        vec![
            SlotClass::Orphan,
            SlotClass::Committed,
            SlotClass::LiveRouted,
            SlotClass::Unassigned
        ]
    );
    let mut report = GcReport::default();
    report.record_node(
        NodeId(2),
        &node,
        &classes,
        vec![Ok(DropOrphanOutcome::Dropped { dir_removed: true })],
    );
    assert_eq!(report.dropped.len(), 1);
    assert_eq!(report.dropped[0].num_queries, 3);
    assert_eq!(report.kept_live_routed.len(), 1);
    assert_eq!(report.skipped_unassigned.len(), 1);
    assert!(!report.is_complete());
}

#[test]
fn a_node_of_another_cluster_is_not_swept() {
    let node = listing(&[]);
    assert_eq!(check_listing(&node, 1, 11, 12), None);
    assert!(check_listing(&node, 2, 11, 12).is_some());
    assert!(check_listing(&node, 1, 99, 12).is_some());
    assert!(check_listing(&node, 1, 11, 99).is_some());
}

fn endpoint(node: u64) -> String {
    format!("http://127.0.0.1:5005{node}")
}

#[test]
fn a_sweep_reserves_reads_again_and_then_drops() {
    // Slot 0 of node 2 is an orphan in the first read; a move commits it there before the second.
    let first = state_with(vec![assign(0, 1, &[]), assign(1, 1, &[])]);
    let second = state_with(vec![assign(0, 2, &[]), assign(1, 1, &[])]);
    let mut reads = vec![second];
    let mut trace = Vec::new();
    let mut run = GcSweep::new(TERMS);
    while let Some(call) = run.call() {
        let event = match call {
            GcCall::ReadState => {
                trace.push("read".to_string());
                GcEvent::Seen(first.clone())
            }
            GcCall::Reserve(endpoints) => {
                assert_eq!(endpoints, vec![endpoint(1), endpoint(2)]);
                trace.push("reserve".to_string());
                GcEvent::Reserved
            }
            GcCall::ReadAgain => {
                trace.push("read again".to_string());
                GcEvent::SeenAgain {
                    state: reads.remove(0),
                    live: vec![vec![endpoint(2)], vec![endpoint(1)]],
                }
            }
            GcCall::List { node, addr } => {
                assert_eq!(addr, endpoint(node.0));
                trace.push(format!("list {}", node.0));
                GcEvent::Listed(Ok(listing(if node.0 == 1 {
                    &[(0, 3), (1, 4), (6, 1)]
                } else {
                    &[(0, 3), (1, 4)]
                })))
            }
            GcCall::Drop { addr, shard_id } => {
                trace.push(format!("drop {shard_id} at {addr}"));
                GcEvent::Dropped(Ok(DropOrphanOutcome::Dropped {
                    dir_removed: shard_id == 0,
                }))
            }
        };
        run = run.next(event);
    }
    assert_eq!(
        trace,
        vec![
            "read".to_string(),
            "reserve".to_string(),
            "read again".to_string(),
            "list 1".to_string(),
            format!("drop 0 at {}", endpoint(1)),
            "list 2".to_string(),
            format!("drop 1 at {}", endpoint(2)),
        ]
    );
    let GcSweep::Ended(Ok(report)) = run else {
        panic!("the sweep failed");
    };
    let slot = |node, shard_id, num_queries| OrphanSlot {
        node: NodeId(node),
        shard_id,
        num_queries,
    };
    assert_eq!(report.dropped, vec![slot(1, 0, 3), slot(2, 1, 4)]);
    assert_eq!(report.pending_disk_cleanup, vec![slot(2, 1, 4)]);
    assert_eq!(report.skipped_unassigned, vec![slot(1, 6, 1)]);
    assert!(report.failed.is_empty() && report.skipped_nodes.is_empty());
}

#[test]
fn a_sweep_skips_what_it_cannot_list_and_goes_on() {
    let state = state_with(vec![assign(0, 1, &[])]);
    let mut run = GcSweep::new(TERMS).next(GcEvent::Seen(state.clone()));
    run = run.next(GcEvent::Reserved);
    run = run.next(GcEvent::SeenAgain {
        state,
        live: vec![vec![endpoint(1)]],
    });
    run = run.next(GcEvent::Listed(Err("unreachable".to_string())));
    let mut other = listing(&[(0, 3)]);
    other.pending_disk_cleanup_shards.push(9);
    run = run.next(GcEvent::Listed(Ok(other)));
    assert!(matches!(
        run.call(),
        Some(GcCall::Drop { shard_id: 0, .. })
    ));
    run = run.next(GcEvent::Dropped(Err("lease held".to_string())));
    let GcSweep::Ended(Ok(report)) = run else {
        panic!("the sweep failed");
    };
    assert_eq!(
        report.skipped_nodes,
        vec![(NodeId(1), "unreachable".to_string())]
    );
    assert_eq!(report.failed.len(), 1);
    assert_eq!(report.failed[0].1, "lease held");
    assert_eq!(report.pending_disk_cleanup[0].num_queries, 0);
}

#[test]
fn a_sweep_that_cannot_read_ends() {
    let run = GcSweep::new(TERMS).next(GcEvent::Unreadable(ShardError::DeadlineExceeded));
    assert!(matches!(
        run,
        GcSweep::Ended(Err(ShardError::DeadlineExceeded))
    ));
    let mut run = GcSweep::new(TERMS).next(GcEvent::Seen(state_with(vec![])));
    run = run.next(GcEvent::Reserved);
    run = run.next(GcEvent::Unreadable(ShardError::DeadlineExceeded));
    assert!(run.call().is_none());
    assert!(
        incomplete_delete_detail(3, "http://n").starts_with("orphan-slot GC dropped shard 3 on")
    );
}
