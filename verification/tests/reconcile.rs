use reverse_cluster::control::{
    ClusterState, ControlPlane, InMemoryControlPlane, NodeDescriptor, NodeId, NodeRole,
    ShardAssignment,
};
use reverse_cluster::coordinator::control_plane::register_node;
use reverse_cluster::coordinator::group_run::{GroupRun, GroupRunEvent};
use reverse_cluster::coordinator::reassign::{LiveRoute, ReassignOutcome};
use reverse_cluster::coordinator::single_move::{MoveEvent, SingleMove};
use reverse_cluster::coordinator::sweep::{
    move_shape, rebalance_report, reconcile_report, Millis, MoveResult, MoveShape, ReconcileConfig,
    ReconcileReport,
};
use reverse_cluster::coordinator::sweep_run::Sweep;

fn move_target(state: &ClusterState, position: u32, desired: &ShardAssignment) -> MoveResult {
    match move_shape(state, position, desired) {
        MoveShape::Single => {
            let m = SingleMove::new(position as usize, desired.primary).unwrap();
            let (m, _) = m.next(MoveEvent::Seen {
                state: state.clone(),
                live: LiveRoute::NotMovable,
            });
            Err(format!("{:?}", m.outcome().unwrap().err().unwrap()))
        }
        MoveShape::Group => {
            let m = GroupRun::new(position as usize, desired.clone()).unwrap();
            let (m, _) = m.next(GroupRunEvent::Seen {
                state: state.clone(),
                generation: 0,
            });
            Err(format!("{:?}", m.outcome().unwrap().err().unwrap()))
        }
    }
}

fn reconcile_with(cp: &InMemoryControlPlane, rf: usize, max_parallel: usize) -> ReconcileReport {
    let state = cp.cluster_state().expect("state");
    let mut sweep = Sweep::reconcile(&state, rf, max_parallel);
    loop {
        let results: Vec<(u32, MoveResult)> = match sweep.wave() {
            None => return sweep.reconciled(),
            Some(wave) => wave
                .iter()
                .map(|&i| {
                    let (p, d) = sweep.target(i);
                    (*p, move_target(&state, *p, d))
                })
                .collect(),
        };
        sweep.finish_wave(results);
    }
}

/// A cluster in one process with two registered data nodes, which are never connected.
fn with_two_data_nodes(num_shards: u32) -> InMemoryControlPlane {
    let mut cp = InMemoryControlPlane::single_node(num_shards, 128, 0);
    for id in [1u64, 2] {
        register_node(
            &mut cp,
            NodeDescriptor {
                id: NodeId(id),
                addr: Some(format!("http://127.0.0.1:{id}")),
                role: NodeRole::Data,
            },
        )
        .expect("register node");
    }
    cp
}

#[test]
fn default_config_is_disabled() {
    let cfg = ReconcileConfig::default();
    assert!(
        !cfg.enabled,
        "the reconciler is opt-in: the default config must be disabled"
    );
    assert_eq!(cfg.min_interval, Millis(30_000));
    assert_eq!(cfg.rf, 1);
    assert_eq!(
        cfg.max_parallel_moves, 1,
        "the sequential default (ADR-095)"
    );
    assert!(!cfg.gc_orphans, "no GC sweep by default (ADR-096)");
}

#[test]
fn empty_report_is_converged() {
    let r = ReconcileReport::default();
    assert!(
        r.is_converged(),
        "an empty pass is a converged steady state"
    );
    assert_eq!(r.moved_count(), 0);
}

#[test]
fn reconciled_and_skipped_are_converged_pending_is_not() {
    let mut r = ReconcileReport {
        reconciled: vec![0, 1],
        skipped: vec![2],
        ..Default::default()
    };
    assert!(
        r.is_converged(),
        "only reconciled/skipped positions ⇒ converged"
    );
    assert_eq!(r.moved_count(), 2);

    r.uncommitted.push((3, NodeId(1), NodeId(2)));
    assert!(!r.is_converged(), "an uncommitted position ⇒ not converged");

    let mut r2 = ReconcileReport::default();
    r2.failed.push((4, "boom".into()));
    assert!(!r2.is_converged(), "a failed position ⇒ not converged");
}

/// Every position's failure is recorded and the pass goes on: each move fails before anything is
/// contacted, since the committed primary is the manager, which has no address.
#[test]
fn reconcile_continues_past_per_position_failures() {
    let k = 3usize;
    let cp = with_two_data_nodes(k as u32);
    let report = reconcile_with(&cp, 1, 1);
    assert_eq!(
        report.failed.len(),
        k,
        "every position's failure is recorded — the pass did NOT stop at the first: {report:?}"
    );
    assert!(
        report.reconciled.is_empty() && report.skipped.is_empty() && report.uncommitted.is_empty(),
        "nothing moved or committed: {report:?}"
    );
    assert!(!report.is_converged(), "failed positions ⇒ not converged");
    for (_, msg) in &report.failed {
        assert!(
            msg.contains("has no registered endpoint"),
            "each failure is the pre-network endpoint-resolution check: {msg}"
        );
    }
}

/// The same with waves of two moves.
#[test]
fn reconcile_with_parallel_continues_past_per_position_failures() {
    let k = 3usize;
    let cp = with_two_data_nodes(k as u32);
    let report = reconcile_with(&cp, 1, 2);
    assert_eq!(
        report.failed.len(),
        k,
        "every position's failure is recorded across the waves: {report:?}"
    );
    assert!(
        report.reconciled.is_empty() && report.skipped.is_empty() && report.uncommitted.is_empty(),
        "nothing moved or committed: {report:?}"
    );
    let positions: Vec<u32> = report.failed.iter().map(|(p, _)| *p).collect();
    assert_eq!(
        positions,
        vec![0, 1, 2],
        "the report is position-sorted regardless of wave completion order"
    );
}

/// A pass over a cluster in one process (no data node with an address, so no targets) is a clean
/// no-op at any width.
#[test]
fn reconcile_with_parallel_is_clean_no_op_in_process() {
    let cp = InMemoryControlPlane::single_node(3, 128, 0);
    let epoch_before = cp.cluster_state().expect("state").epoch;
    let report = reconcile_with(&cp, 1, 4);
    assert_eq!(report, ReconcileReport::default(), "clean empty report");
    assert_eq!(
        cp.cluster_state().expect("state").epoch,
        epoch_before,
        "a no-op pass commits nothing — the epoch is invariant"
    );
}

/// With two copies per position every target is a group, and every failure is recorded.
#[test]
fn reconcile_rf2_dispatches_group_moves_and_continues_past_failures() {
    let k = 3usize;
    let cp = with_two_data_nodes(k as u32);
    let report = reconcile_with(&cp, 2, 1);
    assert_eq!(
        report.failed.len(),
        k,
        "every rf=2 group move fails at the addr-less committed primary and is RECORDED — \
         the pass continued past each: {report:?}"
    );
    assert!(
        report.reconciled.is_empty() && report.skipped.is_empty() && report.uncommitted.is_empty(),
        "nothing moved or committed: {report:?}"
    );
    for (_, msg) in &report.failed {
        assert!(
            msg.contains("reassign_group_and_move"),
            "an rf=2 target with replicas dispatches to the GROUP move: {msg}"
        );
    }
}

fn results() -> Vec<(u32, MoveResult)> {
    vec![
        (
            4,
            Ok(ReassignOutcome::Moved {
                position: 4,
                from: NodeId(1),
                to: NodeId(2),
                generation: 1,
            }),
        ),
        (3, Err("three".to_string())),
        (
            2,
            Ok(ReassignOutcome::MovedButNotCommitted {
                position: 2,
                from: NodeId(1),
                to: NodeId(2),
                generation: 1,
                moved: true,
            }),
        ),
        (
            1,
            Ok(ReassignOutcome::NoChange {
                position: 1,
                generation: 1,
            }),
        ),
        (
            0,
            Ok(ReassignOutcome::Reconciled {
                position: 0,
                from: NodeId(1),
                to: NodeId(2),
                generation: 1,
            }),
        ),
    ]
}

#[test]
fn reports_are_sorted_by_position() {
    let r = reconcile_report(results());
    assert_eq!(r.reconciled, vec![0, 4]);
    assert_eq!(r.skipped, vec![1]);
    assert_eq!(r.uncommitted, vec![(2, NodeId(1), NodeId(2))]);
    assert_eq!(r.failed, vec![(3, "three".to_string())]);
}

#[test]
fn a_rebalance_reports_its_first_failure() {
    let r = rebalance_report(results(), vec![7, 6]);
    assert_eq!(r.moved, vec![0, 4]);
    assert_eq!(r.failed, Some((3, "three".to_string())));
    assert_eq!(r.not_attempted, vec![2, 6, 7]);
}
