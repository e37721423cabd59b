//! What holds across several calls, on chosen values.
use reverse_cluster::allocator::{changed_assignments, plan_assignments};
use reverse_cluster::clog::{ClusterMutation, FileClusterLog, LogPos};
use reverse_cluster::control::{
    apply, single_node_state, ClusterState, ClusterStateChange, NodeDescriptor, NodeId, NodeRole,
    ShardAssignment,
};
use reverse_cluster::control_store::{
    append_record, read_records, rewrite_records,
};
use reverse_cluster::coordinator::group_plan::{groups_equal, rebalance_group_targets};
use reverse_cluster::coordinator::ranked::merge_ranked;
use reverse_cluster::coordinator::repair::{resync_report, RedriveEnd, RepairQueue};
use reverse_cluster::coordinator::waves::plan_waves;
use reverse_cluster::endpoint::normalized;
use reverse_cluster::ownership::PlacementGeneration;
use reverse_cluster::rank::{
    MatchStats, QueryScope, RankStats, RankedHit, ShardRankedMatch, TopKOptions, TotalHits,
    TotalHitsRelation,
};

fn ids(list: &[u64]) -> Vec<NodeId> {
    list.iter().map(|&i| NodeId(i)).collect()
}

fn node(id: u64) -> NodeDescriptor {
    NodeDescriptor {
        id: NodeId(id),
        addr: Some(format!("http://n{id}")),
        role: NodeRole::Data,
    }
}

fn assign(position: u32, primary: u64, replicas: &[u64]) -> ShardAssignment {
    ShardAssignment {
        position,
        primary: NodeId(primary),
        replicas: ids(replicas),
    }
}

fn changed(mut s: ClusterState, changes: &[ClusterStateChange]) -> ClusterState {
    for c in changes {
        apply(&mut s, c.clone());
    }
    s
}

#[test]
fn a_plan_does_not_depend_on_the_order_of_the_nodes() {
    assert_eq!(
        plan_assignments(&ids(&[4, 1, 9, 2]), 32, 3),
        plan_assignments(&ids(&[9, 2, 1, 4]), 32, 3)
    );
}

#[test]
fn a_node_that_leaves_moves_only_its_own_places() {
    let before = plan_assignments(&ids(&[0, 1, 2, 3]), 64, 1);
    let after = plan_assignments(&ids(&[0, 1, 2]), 64, 1);
    for (b, a) in before.iter().zip(&after) {
        if b.primary != NodeId(3) {
            assert_eq!(b, a);
        }
    }
    let back = changed_assignments(&after, before.clone());
    assert!(back.iter().all(|a| a.primary == NodeId(3)));
}

#[test]
fn membership_changes_undo_repeat_and_commute() {
    let start = single_node_state(3, 64, 7);
    let add = |i| ClusterStateChange::AddNode(node(i));
    let remove = |i| ClusterStateChange::RemoveNode(NodeId(i));
    let place = ClusterStateChange::AssignShard(assign(1, 5, &[6]));
    assert_eq!(changed(start.clone(), &[add(5), remove(5)]), start);
    assert_eq!(
        changed(start.clone(), &[add(5), add(5)]),
        changed(start.clone(), &[add(5)])
    );
    assert_eq!(
        changed(start.clone(), &[remove(9), remove(9)]),
        start
    );
    assert_eq!(
        changed(start.clone(), &[add(6), add(5), place.clone()]),
        changed(start.clone(), &[place.clone(), add(5), add(6)])
    );
    let other = ClusterStateChange::AssignShard(assign(2, 6, &[]));
    assert_eq!(
        changed(start.clone(), &[place.clone(), other.clone()]),
        changed(start, &[other, place])
    );
}

#[test]
fn removals_commute_from_any_document_without_repeats() {
    let mut start = single_node_state(3, 64, 7);
    // Out of order, as a hand-written document may be.
    start.nodes = vec![node(7), node(3), node(5)];
    let add = |i| ClusterStateChange::AddNode(node(i));
    let remove = |i| ClusterStateChange::RemoveNode(NodeId(i));
    for (a, b) in [
        (remove(3), remove(7)),
        (add(4), remove(7)),
        (add(3), remove(5)),
        (add(9), add(1)),
    ] {
        assert_eq!(
            changed(start.clone(), &[a.clone(), b.clone()]),
            changed(start.clone(), &[b, a])
        );
    }
}

#[test]
fn committing_every_target_leaves_none() {
    let mut st = single_node_state(12, 64, 7);
    for i in 1..=5 {
        apply(&mut st, ClusterStateChange::AddNode(node(i)));
    }
    st.assignments.reverse();
    let targets = rebalance_group_targets(&st, 2);
    assert!(!targets.is_empty());
    for (_, a) in targets {
        apply(&mut st, ClusterStateChange::AssignShard(a));
    }
    assert!(rebalance_group_targets(&st, 2).is_empty());
}

#[test]
fn replicas_may_be_committed_in_any_order() {
    let mut st = single_node_state(12, 64, 7);
    for i in 1..=5 {
        apply(&mut st, ClusterStateChange::AddNode(node(i)));
    }
    let targets = rebalance_group_targets(&st, 3);
    assert!(targets.iter().any(|(_, a)| a.replicas.len() == 2));
    for (_, mut a) in targets.into_iter().rev() {
        a.replicas.reverse();
        apply(&mut st, ClusterStateChange::AssignShard(a));
    }
    assert!(rebalance_group_targets(&st, 3).is_empty());
}

#[test]
fn a_new_shard_count_completes_a_map_in_any_order() {
    let mut st = single_node_state(3, 64, 7);
    apply(&mut st, ClusterStateChange::AddNode(node(1)));
    apply(&mut st, ClusterStateChange::AssignShard(assign(2, 1, &[])));
    st.assignments.reverse();
    apply(&mut st, ClusterStateChange::SetShardCount { num_shards: 5 });
    let positions: Vec<u32> = st.assignments.iter().map(|a| a.position).collect();
    assert_eq!(positions, vec![0, 1, 2, 3, 4]);
    assert_eq!(st.assignments[2].primary, NodeId(1));
    assert_eq!(st.assignments[4].primary, NodeId(0));
}

#[test]
fn a_resync_pass_accounts_for_everything() {
    let mut queue = RepairQueue::new();
    let remove = |logical| ClusterMutation::Remove { logical };
    for logical in [3, 1, 2] {
        queue.record_apply(
            remove(logical),
            logical,
            &vec![0, 1],
            &vec![Some("down".to_string()), Some("down".to_string())],
        );
    }
    let drained = queue.drain();
    assert_eq!(drained.len(), 3);
    let ends: Vec<RedriveEnd> = drained
        .into_iter()
        .map(|p| {
            // The second shard still lacks id 2.
            let still = (p.logical == 2).then(|| "down".to_string());
            queue.settle(p, &vec![None, still])
        })
        .collect();
    let report = resync_report(&ends);
    assert_eq!((report.repaired, report.still_pending), (2, 1));
    assert_eq!(queue.pending_repairs(), report.still_pending);
    let left = queue.drain();
    assert_eq!((left[0].logical, left[0].failed_shards.clone()), (2, vec![1]));
}

#[test]
fn the_generation_moves_only_with_a_rebuild() {
    let start = single_node_state(3, 64, 7);
    let g = start.placement_generation;
    let place = ClusterStateChange::AssignShard(assign(1, 5, &[6]));
    assert_eq!(changed(start.clone(), &[place]).placement_generation, g);
    let grown = changed(
        start.clone(),
        &[ClusterStateChange::SetShardCount { num_shards: 5 }],
    );
    assert_eq!(grown.placement_generation, g + 1);
    let positions: Vec<u32> = grown.assignments.iter().map(|a| a.position).collect();
    assert_eq!(positions, vec![0, 1, 2, 3, 4], "every position is assigned");
    let shrunk = changed(grown, &[ClusterStateChange::SetShardCount { num_shards: 2 }]);
    assert_eq!(shrunk.assignments.len(), 2);
    let model = changed(
        start,
        &[ClusterStateChange::BumpModelVersion { dict_fingerprint: 9 }],
    );
    assert_eq!((model.placement_generation, model.model_version), (g + 1, 1));
}

#[test]
fn normalizing_twice_is_normalizing_once() {
    for e in ["HTTP://A:1//", "http://a:1", "", "/", "ÄÖ/"] {
        let once = normalized(e);
        assert_eq!(normalized(&once), once);
    }
}

fn ranked(hits: &[(u64, i64)]) -> ShardRankedMatch {
    ShardRankedMatch {
        hits: hits
            .iter()
            .map(|&(logical_id, score)| RankedHit { logical_id, score })
            .collect(),
        total_hits: TotalHits {
            value: hits.len() as u64,
            relation: TotalHitsRelation::Eq,
        },
        stats: MatchStats { matches: 0 },
        rank_stats: RankStats {
            evaluations: 0,
            heap_replacements: 0,
        },
        result_bytes: 0,
    }
}

#[test]
fn winners_do_not_depend_on_the_order_of_the_replies() {
    let options = TopKOptions {
        size: 3,
        track_total_hits_up_to: 100,
        query_scope: QueryScope::Selective,
    };
    let a = (0u32, ranked(&[(1, 9), (2, 3)]));
    let b = (1u32, ranked(&[(3, 9), (4, 5)]));
    let merge = |replies| {
        merge_ranked(options, replies, PlacementGeneration(1), 2)
            .unwrap()
            .hits
    };
    let hits = merge(vec![a.clone(), b.clone()]);
    assert_eq!(hits, merge(vec![b, a]));
    let order: Vec<(u64, i64)> = hits.iter().map(|h| (h.logical_id, h.score)).collect();
    assert_eq!(order, vec![(1, 9), (3, 9), (4, 5)]);
}

#[test]
fn a_record_that_stops_short_loses_only_itself() {
    let whole = rewrite_records(&vec![b"one".to_vec(), b"two".to_vec()]);
    let third = append_record(&b"three".to_vec());
    for cut in 0..third.len() {
        let mut image = whole.clone();
        image.extend_from_slice(&third[..cut]);
        assert_eq!(
            read_records(Some(&image)).unwrap(),
            vec![b"one".to_vec(), b"two".to_vec()],
            "cut at {cut}"
        );
    }
    let mut image = whole;
    image.extend_from_slice(&third);
    assert_eq!(read_records(Some(&image)).unwrap().len(), 3);
}

#[test]
fn a_crash_in_a_checkpoint_loses_nothing() {
    let mut image = FileClusterLog::empty_image();
    let mut log = FileClusterLog::open(&image, LogPos(0)).unwrap();
    for logical in 1..=6 {
        let write = log.frame_of(&ClusterMutation::Remove { logical });
        assert_eq!(write.at, image.len() as u64);
        image.extend_from_slice(&write.bytes);
        log.append(&write, Ok(())).unwrap();
    }
    let seen = |segments: u64, image: &[u8]| -> Vec<u64> {
        let tail = FileClusterLog::replay(image, LogPos(segments)).unwrap();
        (1..=segments)
            .chain(tail.entries.iter().map(|(p, _)| p.0))
            .collect()
    };
    let all: Vec<u64> = (1..=6).collect();
    // Before the manifest is written, after it, and after the log is cut.
    assert_eq!(seen(2, &image), all);
    assert_eq!(seen(4, &image), all);
    let cut = FileClusterLog::checkpoint(&image, LogPos(4)).unwrap();
    assert!(cut.len() < image.len());
    assert_eq!(seen(4, &cut), all);
}

#[test]
fn same_group_is_an_equivalence() {
    let a = assign(0, 1, &[2, 3]);
    let b = assign(0, 1, &[3, 2]);
    let c = assign(0, 1, &[3, 2, 3]);
    assert!(groups_equal(&a, &a));
    assert!(groups_equal(&a, &b) && groups_equal(&b, &a));
    assert!(groups_equal(&b, &c) && groups_equal(&a, &c));
}

#[test]
fn every_target_is_in_one_wave() {
    let mut st = single_node_state(12, 64, 7);
    for i in 1..=5 {
        apply(&mut st, ClusterStateChange::AddNode(node(i)));
    }
    let targets = rebalance_group_targets(&st, 2);
    let mut all: Vec<usize> = plan_waves(&st, &targets, 3).into_iter().flatten().collect();
    all.sort_unstable();
    assert_eq!(all, (0..targets.len()).collect::<Vec<_>>());
    for wave in plan_waves(&st, &targets, 3) {
        assert!(!wave.is_empty() && wave.len() <= 3);
        assert!(wave.windows(2).all(|w| w[0] < w[1]));
    }
}
