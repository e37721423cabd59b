use reverse_cluster::clog::{ClusterMutation, LogPos};
use reverse_cluster::control::{
    ClusterStateChange, ControlPlane, InMemoryControlPlane, NodeDescriptor, NodeId, NodeRole,
};
use reverse_cluster::coordinator::buckets::{
    any_tagged, bucket_by_target, check_ingest, distinct_entries, ingest_entries, ingest_failed, reserve_ids,
    target_shards,
};
use reverse_cluster::coordinator::checkpoint::{Checkpoint, CheckpointCall, CheckpointReply};
use reverse_cluster::coordinator::config::{ClusterConfig, ShardGroup};
use reverse_cluster::coordinator::connect::{check_exclusive, plan_remote, plan_replicated};
use reverse_cluster::coordinator::control_plane::{
    assignment_for, check_add_replica, control_state, deregister_node, plan_rebalance, rebalance,
    reassign_shard, register_node, EventGate,
};
use reverse_cluster::coordinator::layout::{
    has_segment_extension, is_orphan_segment, log_file, manifest_file, orphan_kept_detail,
    parse_shard_dir, replica_dir, shard_dir, stale_dir_kept_detail, stale_shard_dir,
};
use reverse_cluster::coordinator::lifecycle::{
    assemble, backup_error, check_backup, check_build, check_manifest, check_parts, copies_on_open,
    no_manifest, torn_tail, Assembly, BackupFault, ManifestHead,
};
use reverse_cluster::coordinator::matching::Target;
use reverse_cluster::coordinator::recovery::{
    Recovery, RecoveryCall, RecoveryReply, FINALIZE_PASSES,
};
use reverse_cluster::coordinator::repair::{
    replay_admit, replay_applied, resync_report, PendingRepair, RedriveEnd, RepairQueue,
    ResyncReport,
};
use reverse_cluster::coordinator::logical_ids::LogicalIdDirectory;
use reverse_cluster::coordinator::resize::{
    attest_resize_control_state, clean_dir_error, finish_pending_resize_control_commit,
    fresh_shard, pending_resize, plan_resize, resize_to_recommended, FreshShard, LiveShape,
    PendingResize, ResizeStep,
};
use reverse_cluster::shard::ShardError;

fn config_text<T>(r: Result<T, ShardError>) -> String {
    match r {
        Err(ShardError::Config(m)) => m,
        Err(e) => panic!("another error: {e:?}"),
        Ok(_) => panic!("no error"),
    }
}

fn plane_text<T>(r: Result<T, ShardError>) -> String {
    match r {
        Err(ShardError::ControlPlane(m)) => m,
        Err(e) => panic!("another error: {e:?}"),
        Ok(_) => panic!("no error"),
    }
}

#[test]
fn default_cluster_config() {
    let c = ClusterConfig::default();
    assert_eq!((c.num_shards, c.replication_factor), (8, 1));
    assert!(c.include_broad && c.data_dir.is_none() && !c.wal_sync_on_write);
    assert_eq!(
        c.handoff_drain_passes,
        ClusterConfig::DEFAULT_HANDOFF_DRAIN_PASSES
    );
    assert_eq!(
        c.handoff_final_drain_cap,
        ClusterConfig::DEFAULT_HANDOFF_FINAL_DRAIN_CAP
    );
}

#[test]
fn a_cluster_needs_a_shard_and_a_copy() {
    assert!(check_build(1, 1).is_ok());
    assert_eq!(
        config_text(check_build(0, 0)),
        "cluster needs at least one shard"
    );
    assert_eq!(
        config_text(check_build(1, 0)),
        "replication_factor must be ≥ 1 (1 = primary only)"
    );
    assert!(check_parts(3, 3).is_ok());
    assert_eq!(
        config_text(check_parts(2, 3)),
        "shard count 2 must match the ring's shard count 3"
    );
    assert_eq!(assemble(1).unwrap(), Assembly::Single);
    assert_eq!(assemble(3).unwrap(), Assembly::Replicated(2));
    assert!(config_text(assemble(0)).contains("has no copies"));
    assert_eq!(copies_on_open(None), 1);
    assert_eq!(copies_on_open(Some(0)), 1);
    assert_eq!(copies_on_open(Some(2)), 2);
}

#[test]
fn a_manifest_is_checked_before_anything_is_attached() {
    let h = ManifestHead {
        broad_replicate_all: true,
        dict_fingerprint: 7,
        num_shards: 2,
        registry: 2,
        next_seg_ids: 2,
    };
    assert!(check_manifest(&h, "/d", Ok(7)).is_ok());
    let old = ManifestHead {
        broad_replicate_all: false,
        ..h
    };
    assert!(config_text(check_manifest(&old, "/d", Ok(7))).starts_with("cluster at /d predates"));
    assert!(matches!(
        check_manifest(&h, "/d", Ok(8)),
        Err(ShardError::DictMismatch {
            expected: 7,
            actual: 8
        })
    ));
    assert_eq!(
        config_text(check_manifest(&h, "/d", Err("bad".to_string()))),
        "deserializing cluster dict: bad"
    );
    let short = ManifestHead {
        next_seg_ids: 1,
        ..h
    };
    assert_eq!(
        config_text(check_manifest(&short, "/d", Ok(7))),
        "cluster manifest is inconsistent: num_shards=2 but registry has 2 shard list(s) and 1 next-seg-id(s)"
    );
    assert!(matches!(no_manifest("/d/m"), ShardError::Config(m)
        if m == "no cluster manifest at /d/m; use build() to create a durable cluster"));
}

#[test]
fn a_torn_tail_is_reported() {
    assert!(torn_tail(0).is_none());
    let t = torn_tail(6).unwrap();
    assert_eq!(
        t.detail,
        "cluster log torn tail: 6 trailing byte(s) skipped during recovery"
    );
    assert_eq!(t.error, "6 bytes");
}

#[test]
fn only_a_durable_cluster_is_backed_up() {
    assert!(check_backup(true).is_ok());
    assert!(config_text(check_backup(false)).contains("nothing to back up"));
    assert!(matches!(backup_error(BackupFault::Copy("e".to_string())),
        ShardError::Log(m) if m == "cluster backup copy: e"));
    assert!(matches!(backup_error(BackupFault::Verify("e".to_string())),
        ShardError::Log(m) if m == "cluster backup verify: e"));
}

#[test]
fn directories_are_named_and_recognised() {
    assert_eq!(shard_dir(0), "shard_000");
    assert_eq!(shard_dir(42), "shard_042");
    assert_eq!(shard_dir(1234), "shard_1234");
    assert_eq!(replica_dir(2), "replica_002");
    assert_eq!((manifest_file(), log_file()), ("cluster_manifest.bin", "cluster.log"));
    for n in [0usize, 7, 99, 100, 1234, usize::MAX] {
        assert_eq!(parse_shard_dir(&shard_dir(n)), Some(n));
    }
    assert_eq!(parse_shard_dir("shard_+7"), Some(7));
    for other in ["shard_", "shard_x", "shard_1x", "shard_-1", "shard", "replica_001", "shard_+"] {
        assert_eq!(parse_shard_dir(other), None, "{other}");
    }
    assert_eq!(parse_shard_dir("shard_18446744073709551616"), None);
    assert!(stale_shard_dir("shard_003", 3));
    assert!(!stale_shard_dir("shard_002", 3));
    assert!(!stale_shard_dir("cluster.log", 0));
    assert!(stale_dir_kept_detail("/d/shard_009").starts_with("removing orphaned shard dir /d/shard_009 failed"));
}

#[test]
fn segments_that_nothing_names_are_orphans() {
    for seg in ["a.seg", "a.SEG", "a.b.sEg", "..seg"] {
        assert!(has_segment_extension(seg), "{seg}");
    }
    for other in [".seg", "seg", "a.seg2", "a.se", "aseg", "a.seg.tmp", ""] {
        assert!(!has_segment_extension(other), "{other}");
    }
    let registry = vec!["seg_1.seg".to_string()];
    assert!(!is_orphan_segment(&"seg_1.seg".to_string(), &registry));
    assert!(is_orphan_segment(&"seg_2.seg".to_string(), &registry));
    assert!(!is_orphan_segment(&"sources.dat".to_string(), &registry));
    assert_eq!(
        orphan_kept_detail("x.seg"),
        "removing orphaned segment x.seg after checkpoint failed (ignored on open)"
    );
}

#[test]
fn a_checkpoint_commits_before_it_cuts_the_log() {
    let mut c = Checkpoint::new(2, 4);
    let mut calls = Vec::new();
    while let Some(call) = c.call() {
        calls.push(call);
        let reply = match call {
            CheckpointCall::LastPos => CheckpointReply::At(LogPos(9)),
            CheckpointCall::Segments(s) => CheckpointReply::Names(vec![format!("seg_{s}.seg")]),
            CheckpointCall::NextSegment(s) => CheckpointReply::Number(s as u64 + 10),
            _ => CheckpointReply::Done,
        };
        assert!(c.next(reply).is_none());
    }
    assert_eq!(
        calls,
        vec![
            CheckpointCall::LastPos,
            CheckpointCall::Seal(0),
            CheckpointCall::Seal(1),
            CheckpointCall::Segments(0),
            CheckpointCall::NextSegment(0),
            CheckpointCall::Segments(1),
            CheckpointCall::NextSegment(1),
            CheckpointCall::Vocabulary,
            CheckpointCall::WriteManifest {
                up_to: LogPos(9),
                epoch: 5
            },
            CheckpointCall::CutLog(LogPos(9)),
            CheckpointCall::RemoveOrphans,
        ]
    );
    assert_eq!(
        c.registry(),
        &vec![vec!["seg_0.seg".to_string()], vec!["seg_1.seg".to_string()]]
    );
    assert_eq!(c.next_seg_ids(), &vec![10, 11]);
    assert_eq!(c.epoch(), 5);
    assert!(matches!(c.outcome(), Some(Ok(()))));
}

fn up_to_manifest() -> Checkpoint {
    let mut c = Checkpoint::new(0, 4);
    assert!(c.next(CheckpointReply::At(LogPos(1))).is_none());
    assert_eq!(c.call(), Some(CheckpointCall::Vocabulary));
    c
}

#[test]
fn a_checkpoint_that_fails_leaves_the_old_manifest() {
    let mut c = up_to_manifest();
    c.next(CheckpointReply::Broken("v".to_string()));
    assert!(matches!(c.outcome(), Some(Err(ShardError::Log(m)))
        if m == "serializing cluster vocab: v"));
    let mut c = up_to_manifest();
    c.next(CheckpointReply::Done);
    c.next(CheckpointReply::Broken("w".to_string()));
    assert_eq!(c.epoch(), 4);
    assert!(matches!(c.outcome(), Some(Err(ShardError::Log(m)))
        if m == "writing cluster manifest: w"));
    let mut c = Checkpoint::new(1, 4);
    c.next(CheckpointReply::At(LogPos(1)));
    c.next(CheckpointReply::Failed(ShardError::DeadlineExceeded));
    assert!(matches!(
        c.outcome(),
        Some(Err(ShardError::DeadlineExceeded))
    ));
}

#[test]
fn a_log_that_is_not_cut_is_benign() {
    let mut c = up_to_manifest();
    c.next(CheckpointReply::Done);
    c.next(CheckpointReply::Done);
    let (detail, error) = c.next(CheckpointReply::Broken("disk".to_string())).unwrap();
    assert!(detail.contains("benign"));
    assert_eq!(error, "disk");
    c.next(CheckpointReply::Done);
    assert!(matches!(c.outcome(), Some(Ok(()))));
}

#[test]
fn resizes_and_their_order() {
    assert_eq!(
        plan_resize(4, 2, true, false, true).unwrap(),
        vec![
            ResizeStep::MakeRing,
            ResizeStep::ForgetPending,
            ResizeStep::Rebuild,
            ResizeStep::Propose(4),
            ResizeStep::Checkpoint,
            ResizeStep::RemoveDirs(4)
        ]
    );
    assert_eq!(plan_resize(2, 2, true, false, false).unwrap(), vec![]);
    assert_eq!(
        plan_resize(2, 2, true, false, true).unwrap(),
        vec![ResizeStep::Checkpoint, ResizeStep::RemoveDirs(2)]
    );
    assert_eq!(
        config_text(plan_resize(0, 2, true, false, true)),
        "resize: new_num_shards must be ≥ 1"
    );
    assert!(config_text(plan_resize(3, 2, false, false, true)).contains("cross-process"));
    assert!(config_text(plan_resize(3, 2, true, true, true)).contains("handoff-wrapped"));
    assert_eq!(fresh_shard(0, 2, false), FreshShard::InMemory);
    assert_eq!(fresh_shard(1, 2, true), FreshShard::BesideTheOld);
    assert_eq!(fresh_shard(2, 2, true), FreshShard::InAnEmptiedDir);
    assert_eq!(resize_to_recommended(Some(4), 3), Some(4));
    assert_eq!(resize_to_recommended(Some(3), 3), None);
    assert_eq!(resize_to_recommended(None, 3), None);
    assert!(matches!(clean_dir_error("/d", "e"), ShardError::Log(m)
        if m == "cleaning new shard dir /d before a grow: e"));
}

#[test]
fn a_cut_off_resize_is_finished() {
    let mut cp = InMemoryControlPlane::single_node(2, 64, 7);
    let now = cp.cluster_state().unwrap();
    let here = LiveShape {
        num_shards: 2,
        vnodes: 64,
        dict_fingerprint: 7,
        generation: now.placement_generation,
    };
    assert_eq!(pending_resize(&now, &here).unwrap(), PendingResize::Settled);
    assert!(attest_resize_control_state(&now, &here).is_ok());
    // The shards serve under the next generation, and the document lags behind.
    let ahead = LiveShape {
        num_shards: 3,
        generation: here.generation + 1,
        ..here
    };
    assert_eq!(
        pending_resize(&now, &ahead).unwrap(),
        PendingResize::Propose(3)
    );
    assert!(plane_text(attest_resize_control_state(&now, &ahead))
        .starts_with("resize terminal attestation failed: control is at generation 1/2 shards"));
    finish_pending_resize_control_commit(&mut cp, &ahead).unwrap();
    let after = cp.cluster_state().unwrap();
    assert!(attest_resize_control_state(&after, &ahead).is_ok());
    // Two generations behind is another transition.
    let far = LiveShape {
        generation: ahead.generation + 2,
        ..ahead
    };
    assert!(plane_text(pending_resize(&after, &far)).contains("only the exact prior resize"));
    let zero = LiveShape {
        generation: 0,
        ..ahead
    };
    assert!(plane_text(pending_resize(&after, &zero)).contains("generation zero"));
    let other = LiveShape { vnodes: 1, ..ahead };
    assert!(plane_text(pending_resize(&after, &other)).contains("identity diverged"));
    let mut torn = (*after).clone();
    torn.assignments.pop();
    assert!(plane_text(pending_resize(&torn, &ahead)).contains("topology is incomplete: 3 shard(s), 2"));
    let huge = LiveShape {
        num_shards: u32::MAX as usize + 1,
        ..ahead
    };
    assert!(plane_text(attest_resize_control_state(&after, &huge)).contains("exceeds"));
}

fn nodes(cp: &mut InMemoryControlPlane, ids: &[u64]) {
    for &id in ids {
        register_node(
            cp,
            NodeDescriptor {
                id: NodeId(id),
                addr: Some(format!("http://n{id}")),
                role: NodeRole::Data,
            },
        )
        .unwrap();
    }
}

#[test]
fn a_rebalance_settles() {
    let mut cp = InMemoryControlPlane::single_node(8, 64, 7);
    assert_eq!(rebalance(&mut cp, 1).unwrap(), 0, "one node owns all");
    nodes(&mut cp, &[1, 2, 3]);
    let planned = plan_rebalance(&control_state(&cp).unwrap(), 2).unwrap();
    let moved = rebalance(&mut cp, 2).unwrap();
    assert_eq!(moved, planned.len());
    assert!(moved > 0);
    assert_eq!(rebalance(&mut cp, 2).unwrap(), 0, "a second one is a no-op");
    let st = control_state(&cp).unwrap();
    for p in 0..8 {
        let a = assignment_for(&st, p).unwrap();
        assert_eq!(a.replicas.len(), 1);
    }
    assert_eq!(
        plane_text(assignment_for(&st, 8)),
        "no assignment for shard position 8"
    );
    reassign_shard(&mut cp, assignment_for(&st, 0).unwrap()).unwrap();
    deregister_node(&mut cp, NodeId(3)).unwrap();
    assert_eq!(control_state(&cp).unwrap().nodes.len(), 3);
}

#[test]
fn a_refused_proposal_leaves_the_map() {
    let mut cp = InMemoryControlPlane::single_node(4, 64, 7);
    nodes(&mut cp, &[1, 2]);
    let before = control_state(&cp).unwrap();
    cp.break_proposals_for_test();
    assert!(matches!(
        rebalance(&mut cp, 1),
        Err(ShardError::ControlPlane(_))
    ));
    assert_eq!(control_state(&cp).unwrap(), before);
}

#[test]
fn a_cluster_without_members_is_not_rebalanced() {
    let mut cp = InMemoryControlPlane::single_node(4, 64, 7);
    cp.propose(ClusterStateChange::RemoveNode(NodeId(0))).unwrap();
    assert_eq!(
        plane_text(rebalance(&mut cp, 1)),
        "rebalance: the cluster has no nodes to place shards on"
    );
}

#[test]
fn replicas_are_added_to_durable_clusters() {
    assert!(check_add_replica(true, 0, 1).is_ok());
    assert!(config_text(check_add_replica(false, 0, 1)).contains("durable"));
    assert_eq!(
        config_text(check_add_replica(true, 1, 1)),
        "add_replica: shard position 1 out of range"
    );
}

#[test]
fn events_wait_for_an_observer() {
    let mut gate = EventGate::new();
    assert_eq!(gate.emit("a"), None);
    assert_eq!(gate.emit("b"), None);
    assert_eq!(gate.attach(), vec!["a", "b"]);
    assert_eq!(gate.emit("c"), Some("c"));
    assert_eq!(gate.attach(), Vec::<&str>::new());
}

#[test]
fn remote_shards_get_the_dictionary_once_per_node() {
    let config = ClusterConfig {
        num_shards: 3,
        ..ClusterConfig::default()
    };
    let eps: Vec<String> = ["a", "b", "a"].iter().map(|e| e.to_string()).collect();
    let plan = plan_remote(&config, &eps).unwrap();
    let adopts: Vec<bool> = plan.iter().map(|s| s.adopts).collect();
    assert_eq!(adopts, vec![true, true, false]);
    assert_eq!(
        config_text(plan_remote(&config, &eps[..2].to_vec())),
        "connect_remote needs exactly one endpoint per shard: got 2 endpoints for 3 shards"
    );
    let replicated = ClusterConfig {
        replication_factor: 2,
        ..config
    };
    assert!(config_text(plan_remote(&replicated, &eps)).contains("replication_factor > 1"));
    assert!(check_exclusive(1).is_ok());
    assert_eq!(
        config_text(check_exclusive(0)),
        "exclusive remote coordinator id must be non-zero"
    );
}

#[test]
fn groups_are_connected_primary_first() {
    let group = |p: &str, r: &[&str]| ShardGroup {
        primary: p.to_string(),
        replicas: r.iter().map(|e| e.to_string()).collect(),
    };
    let groups = vec![group("a", &["b"]), group("b", &["c", "a"])];
    let plan = plan_replicated(2, &groups).unwrap();
    let shown: Vec<(usize, &str, bool)> = plan
        .iter()
        .map(|s| (s.position, s.endpoint.as_str(), s.adopts))
        .collect();
    assert_eq!(
        shown,
        vec![
            (0, "a", true),
            (0, "b", true),
            (1, "b", false),
            (1, "c", true),
            (1, "a", false)
        ]
    );
    assert_eq!(
        config_text(plan_replicated(3, &groups)),
        "connect_replicated needs one ShardGroup per shard: got 2 for 3 shards"
    );
}

fn recover(reached: &[u64], fail_at: Option<RecoveryCall>) -> (Vec<RecoveryCall>, Option<Result<(u64, u64), String>>) {
    let mut r: Recovery<String> = Recovery::new();
    let mut calls = Vec::new();
    let mut passes = reached.iter();
    while let Some(call) = r.call() {
        calls.push(call);
        let reply = if fail_at == Some(call) {
            RecoveryReply::Failed("down".to_string())
        } else {
            match call {
                RecoveryCall::Lease => RecoveryReply::Leased(77),
                RecoveryCall::Copy => RecoveryReply::At(LogPos(5)),
                RecoveryCall::CatchUp(_) => RecoveryReply::At(LogPos(*passes.next().unwrap())),
                RecoveryCall::Count => RecoveryReply::Counted(40),
                _ => RecoveryReply::Done,
            }
        };
        let (n, notice) = r.next(reply);
        assert_eq!(
            notice.is_some(),
            fail_at == Some(call) && matches!(call, RecoveryCall::Release { .. })
        );
        r = n;
    }
    (calls, r.outcome())
}

#[test]
fn a_recovery_drains_until_nothing_comes() {
    let (calls, out) = recover(&[7, 9, 9], None);
    assert_eq!(out, Some(Ok((40, 9))));
    assert_eq!(calls.last(), Some(&RecoveryCall::Release { lease: 77 }));
    // Under writes that keep coming it stops all the same.
    let busy: Vec<u64> = (6..100).collect();
    let (calls, out) = recover(&busy, None);
    assert_eq!(out, Some(Ok((40, 5 + FINALIZE_PASSES as u64))));
    assert_eq!(
        calls
            .iter()
            .filter(|c| matches!(c, RecoveryCall::CatchUp(_)))
            .count(),
        FINALIZE_PASSES
    );
}

#[test]
fn a_recovery_gives_its_lease_back() {
    for step in [
        RecoveryCall::Adopt,
        RecoveryCall::Copy,
        RecoveryCall::CatchUp(LogPos(5)),
        RecoveryCall::Count,
    ] {
        let (calls, out) = recover(&[5], Some(step));
        assert_eq!(out, Some(Err("down".to_string())));
        assert_eq!(calls.last(), Some(&RecoveryCall::Release { lease: 77 }));
    }
    let (calls, out) = recover(&[5], Some(RecoveryCall::Lease));
    assert_eq!(calls, vec![RecoveryCall::Lease]);
    assert_eq!(out, Some(Err("down".to_string())));
    let (_, out) = recover(&[5], Some(RecoveryCall::Release { lease: 77 }));
    assert_eq!(out, Some(Ok((40, 5))), "the copy is good");
}

fn queries() -> Vec<(u64, String)> {
    vec![(10, "a".to_string()), (11, "b".to_string()), (12, "c".to_string())]
}

#[test]
fn a_load_is_bucketed_by_target() {
    let tags = vec![vec![("k".to_string(), "v".to_string())]];
    let entries = ingest_entries(&queries(), &tags);
    assert_eq!(entries[0], (10, 1, "a".to_string(), tags[0].clone()));
    assert_eq!(entries[2], (12, 1, "c".to_string(), vec![]));
    assert!(any_tagged(&tags));
    assert!(!any_tagged(&vec![vec![]]));
    let targets = vec![
        Some(Target::Selective(vec![0, 2])),
        None,
        Some(Target::Replicated),
        Some(Target::Reject),
        Some(Target::Selective(vec![1])),
    ];
    assert_eq!(
        bucket_by_target(&targets, 3),
        vec![vec![0, 2], vec![2, 4], vec![0, 2]]
    );
    let ids = reserve_ids(&targets, &vec![5, 5, 6, 5, 7]).unwrap();
    assert!(ids.contains(5) && ids.contains(6) && ids.contains(7));
    assert!(matches!(
        reserve_ids(&targets, &vec![5, 1, 5, 1, 7]),
        Err(ShardError::DuplicateLogicalId(5))
    ));
}

#[test]
fn a_load_that_stops_half_way_is_remembered() {
    assert!(check_ingest(0).is_ok());
    assert!(config_text(check_ingest(1)).starts_with("ingest() requires an empty cluster"));
    let mut ids = LogicalIdDirectory::from_ids(vec![1, 2]).unwrap();
    assert_eq!(
        ingest_failed(&mut ids, 3),
        "bulk ingest failed at shard 3; cluster convergence is unattested"
    );
    assert!(!ids.authoritative);
    assert!(ids.contains(1), "the ids stay taken");
}

fn remove(logical: u64) -> ClusterMutation {
    ClusterMutation::Remove { logical }
}

#[test]
fn partial_writes_are_queued_and_driven_again() {
    let mut q = RepairQueue::new();
    let (e, n) = q.note_partial(remove(9), 9, vec![0], vec![1, 2], Some("down".to_string()));
    assert!(matches!(e, ShardError::PartiallyApplied { logical: 9, failed, detail, .. }
        if failed == vec![1, 2] && detail == "down"));
    assert_eq!(n.detail, "logical 9: applied on [0], failed on [1, 2]");
    assert_eq!(n.error, "down");
    let (_, n) = q.note_partial(remove(3), 3, vec![], vec![0], None);
    assert_eq!(n.error, "unknown shard error");
    assert_eq!(q.pending_repairs(), 2);
    // The later failure of an id replaces the earlier.
    q.note_partial(remove(9), 9, vec![1], vec![2], None);
    assert_eq!(q.pending_repairs(), 2);
    let drained = q.drain();
    assert_eq!(
        drained.iter().map(|p| p.logical).collect::<Vec<_>>(),
        vec![3, 9]
    );
    assert_eq!(drained[1].failed_shards, vec![2]);
    let mut ends = Vec::new();
    for p in drained {
        assert!(!q.is_queued(p.logical));
        let outcomes: Vec<Option<String>> = p
            .failed_shards
            .iter()
            .map(|&s| (s == 2).then_some("still down".to_string()))
            .collect();
        ends.push(q.settle(p, &outcomes));
    }
    assert!(matches!(ends[0], RedriveEnd::Repaired { frees_id: true }));
    assert!(matches!(&ends[1], RedriveEnd::StillPending(n)
        if n.detail == "resync: logical 9 still failing on [2]" && n.error == "still down"));
    ends.push(RedriveEnd::Superseded);
    assert_eq!(
        resync_report(&ends),
        ResyncReport {
            repaired: 1,
            still_pending: 2
        }
    );
    assert!(q.is_queued(9));
    q.clear_pending(9);
    assert_eq!(q.pending_repairs(), 0);
    assert_eq!(
        resync_report(&vec![]),
        ResyncReport::default()
    );
}

#[test]
fn a_mutation_is_recorded_by_its_outcomes() {
    let mut q = RepairQueue::new();
    let fail = Some("down".to_string());
    let (e, n) = q
        .record_apply(remove(5), 5, &vec![0, 1, 2], &vec![None, fail.clone(), None])
        .unwrap();
    assert!(matches!(e, ShardError::PartiallyApplied { applied, failed, .. }
        if applied == vec![0, 2] && failed == vec![1]));
    assert_eq!(n.error, "down");
    assert!(q.is_queued(5));
    assert!(q
        .record_apply(remove(5), 5, &vec![0, 1], &vec![None, None])
        .is_none());
    assert!(!q.is_queued(5), "a later full apply supersedes it");
    assert_eq!(target_shards(&Target::Replicated, 3), vec![0, 1, 2]);
    assert_eq!(target_shards(&Target::Selective(vec![0, 2]), 3), vec![0, 2]);
    assert_eq!(target_shards(&Target::Reject, 3), Vec::<usize>::new());
}

#[test]
fn a_fresher_failure_is_not_replaced() {
    let mut q = RepairQueue::new();
    q.note_partial(remove(9), 9, vec![], vec![1], None);
    let stale: PendingRepair = q.drain().pop().unwrap();
    q.note_partial(remove(9), 9, vec![], vec![4], None);
    q.settle(stale, &vec![Some("x".to_string())]);
    assert_eq!(q.drain()[0].failed_shards, vec![4]);
}

#[test]
fn replayed_mutations_keep_the_ids() {
    let mut ids = LogicalIdDirectory::from_ids(vec![1]).unwrap();
    let add = |logical| ClusterMutation::Add {
        logical,
        version: 1,
        dsl: "q".to_string(),
        tags: vec![],
        placement: reverse_cluster::ownership::QueryPlacement::standalone(),
    };
    assert!(matches!(
        replay_admit(&mut ids, &add(1)),
        Err(ShardError::DuplicateLogicalId(1))
    ));
    assert!(replay_admit(&mut ids, &add(2)).is_ok());
    replay_applied(&mut ids, &add(2));
    assert!(ids.contains(2));
    assert!(replay_admit(&mut ids, &remove(1)).is_ok());
    assert!(ids.contains(1), "taken until it is gone everywhere");
    replay_applied(&mut ids, &remove(1));
    assert!(!ids.contains(1));
    assert!(ids.authoritative);
    let mut attached = LogicalIdDirectory::default();
    assert!(replay_admit(&mut attached, &add(2)).is_ok());
    replay_applied(&mut attached, &add(2));
    assert!(attached.contains(2) && !attached.authoritative);
}

#[test]
fn a_live_query_is_placed_once() {
    let entry = |logical: u64, text: &str| (logical, 1u32, text.to_string(), vec![]);
    let live = vec![entry(4, "a"), entry(2, "b"), entry(4, "a"), entry(3, "c"), entry(2, "b")];
    let ids: Vec<(u64, String)> = distinct_entries(live).into_iter().map(|e| (e.0, e.2)).collect();
    assert_eq!(
        ids,
        vec![(4, "a".to_string()), (2, "b".to_string()), (3, "c".to_string())]
    );
    assert!(distinct_entries(vec![]).is_empty());
}
