use reverse_cluster::autoscale::{AutoscaleConfig, AutoscaleDecision, ScalingAction};
use reverse_cluster::control::{
    single_node_state, ClusterState, NodeDescriptor, NodeId, NodeRole, ShardAssignment,
};
use reverse_cluster::coordinator::gc::{
    incomplete_delete_detail, DropCall, DropOrphanOutcome, DropReply, DropStage,
};
use reverse_cluster::coordinator::group_move::{
    GroupCall, GroupFault, GroupLimits, GroupMove, GroupNotice, GroupReply, MemberRole,
};
use reverse_cluster::coordinator::handoff::{
    fault_error, handoff_limits, Handoff, HandoffCall, HandoffFault, HandoffLimits, HandoffNotice,
    HandoffReply,
};
use reverse_cluster::coordinator::scaling::{
    check_tick, collect_load, drive_handoff, failed_move_detail, plan_tick, DriveStep,
};
use reverse_cluster::shard::ShardError;

const LIMITS: HandoffLimits = HandoffLimits {
    generation: 6,
    drain_passes: 2,
    final_drain_cap: 2,
};

/// Runs a move; `reached` are the positions that the catch-ups reach, and `fail` is the call that
/// fails.
fn hand_off(
    limits: HandoffLimits,
    reached: &[u64],
    fail: Option<HandoffCall>,
) -> (Vec<HandoffCall>, Result<u64, HandoffFault<String>>, usize) {
    let mut h: Handoff<String> = Handoff::new(limits);
    let mut calls = Vec::new();
    let mut passes = reached.iter();
    let mut notices = 0;
    loop {
        let call = h.call();
        if call == HandoffCall::Nothing {
            return (calls, h.outcome(), notices);
        }
        calls.push(call);
        let reply = if fail == Some(call) {
            HandoffReply::Failed("down".to_string())
        } else {
            match call {
                HandoffCall::RecoverTarget => HandoffReply::At(5),
                HandoffCall::CatchUp { .. } => HandoffReply::At(*passes.next().unwrap()),
                _ => HandoffReply::Done,
            }
        };
        let (next, notice) = h.next(reply);
        notices += usize::from(notice.is_some());
        h = next;
    }
}

#[test]
fn routing_is_swapped_behind_a_settled_fence() {
    let (calls, out, _) = hand_off(LIMITS, &[7, 8, 9, 9], None);
    assert!(matches!(out, Ok(6)));
    let at = |c: HandoffCall| calls.iter().position(|x| *x == c).unwrap();
    let fence = at(HandoffCall::FenceSource { generation: 6 });
    let swap = at(HandoffCall::SwapBacking { generation: 6 });
    assert!(at(HandoffCall::AcquireLease) < at(HandoffCall::RecoverTarget));
    assert!(fence < swap);
    assert!(calls[fence..swap].contains(&HandoffCall::CatchUp { after: 9 }));
    assert_eq!(calls.last(), Some(&HandoffCall::ReleaseLease));
    assert!(!calls.contains(&HandoffCall::UnfenceSource { generation: 6 }));
}

#[test]
fn a_source_that_does_not_settle_is_unfenced() {
    let (calls, out, _) = hand_off(LIMITS, &[6, 7, 8, 9], None);
    assert!(matches!(out, Err(HandoffFault::NotConverged { past: 9 })));
    assert!(calls.contains(&HandoffCall::UnfenceSource { generation: 6 }));
    assert!(!calls.contains(&HandoffCall::SwapBacking { generation: 6 }));
    assert_eq!(calls.last(), Some(&HandoffCall::ReleaseLease));
    let e = fault_error(
        HandoffFault::NotConverged { past: 9 },
        "http://s",
        LIMITS.final_drain_cap,
    );
    assert!(format!("{e:?}").contains("http://s"), "{e:?}");
}

#[test]
fn a_failed_fence_is_cleaned_up() {
    let fence = HandoffCall::FenceSource { generation: 6 };
    let (calls, out, _) = hand_off(LIMITS, &[5], Some(fence));
    assert!(matches!(out, Err(HandoffFault::Reported(_))));
    let at = calls.iter().position(|c| *c == fence).unwrap();
    assert_eq!(
        calls[at + 1..].to_vec(),
        vec![
            HandoffCall::UnfenceSource { generation: 6 },
            HandoffCall::ReleaseLease
        ]
    );
    let (_, out, notices) = hand_off(LIMITS, &[5, 5], Some(HandoffCall::ReleaseLease));
    assert!(matches!(out, Ok(6)), "the move is good");
    assert_eq!(notices, 1);
    assert!(HandoffNotice::ReleaseFailed("x").detail().contains("lease"));
}

#[test]
fn only_a_wrapped_position_is_handed_off() {
    assert_eq!(
        handoff_limits(0, Some(5), 2, 2).unwrap(),
        LIMITS
    );
    assert!(matches!(handoff_limits(3, None, 2, 2), Err(ShardError::Config(m))
        if m.starts_with("execute_handoff: shard position 3 is not handoff-capable")));
}

/// Runs a group move with no writes under way.
fn move_group(
    roles: &[MemberRole],
    fail: Option<GroupCall>,
) -> (Vec<GroupCall>, Result<u64, GroupFault<String>>, Vec<GroupNotice<String>>) {
    let limits = GroupLimits {
        generation: 6,
        drain_passes: 2,
        final_drain_cap: 2,
    };
    let mut g: GroupMove<String> = GroupMove::new(limits, roles.to_vec());
    let mut calls = Vec::new();
    let mut notices = Vec::new();
    while !g.ended() {
        let call = g.call();
        calls.push(call);
        let reply = if fail == Some(call) {
            GroupReply::Failed("down".to_string())
        } else {
            match call {
                GroupCall::ProbeSource | GroupCall::Probe { .. } => GroupReply::At(0),
                GroupCall::AcquireLease => GroupReply::At(3),
                GroupCall::Recover { .. } => GroupReply::At(5),
                GroupCall::CatchUp { after, .. } => GroupReply::At(after),
                GroupCall::ReadTail { .. } => GroupReply::Tail(None),
                _ => GroupReply::Done,
            }
        };
        notices.extend(g.next(reply));
    }
    (calls, g.outcome(), notices)
}

#[test]
fn a_group_is_swapped_once_it_is_complete() {
    let roles = [MemberRole::Fresh, MemberRole::Retained, MemberRole::Source];
    let (calls, out, notices) = move_group(&roles, None);
    assert!(matches!(out, Ok(6)));
    assert!(notices.is_empty());
    let at = |c: GroupCall| calls.iter().position(|x| *x == c).unwrap();
    let fence = at(GroupCall::FenceSource { generation: 6 });
    let swap = at(GroupCall::SwapBacking { generation: 6 });
    assert!(at(GroupCall::Recover { member: 0 }) < fence, "fresh members are copied first");
    assert!(
        at(GroupCall::Recover { member: 1 }) > fence,
        "retained members are copied from the frozen source"
    );
    assert!(at(GroupCall::Recover { member: 1 }) < swap);
    assert!(
        at(GroupCall::UnfenceSource { generation: 6 }) > swap,
        "a source that stays takes writes again"
    );
    assert_eq!(calls.last(), Some(&GroupCall::ReleaseLease));
}

#[test]
fn a_group_move_that_fails_behind_the_fence_is_undone() {
    let roles = [MemberRole::Retained];
    let (calls, out, _) = move_group(&roles, Some(GroupCall::Recover { member: 0 }));
    assert!(matches!(out, Err(GroupFault::Reported(_))));
    assert!(calls.contains(&GroupCall::UnfenceSource { generation: 6 }));
    assert!(!calls.contains(&GroupCall::SwapBacking { generation: 6 }));
    assert_eq!(calls.last(), Some(&GroupCall::ReleaseLease));
}

#[test]
fn a_source_that_leaves_stays_fenced() {
    let (calls, out, _) = move_group(&[MemberRole::Fresh], None);
    assert!(matches!(out, Ok(6)));
    assert!(!calls.contains(&GroupCall::UnfenceSource { generation: 6 }));
}

fn drop_slot(fenced_at: u64, epoch: u64) -> (Vec<DropCall>, DropStage<String>) {
    let mut s: DropStage<String> = DropStage::Connect;
    let mut calls = Vec::new();
    loop {
        let call = s.call();
        if call == DropCall::Nothing {
            return (calls, s);
        }
        calls.push(call);
        s = s.next(match call {
            DropCall::Connect => DropReply::Done,
            DropCall::Probe => DropReply::At(fenced_at),
            DropCall::ReadEpoch => DropReply::At(epoch),
            DropCall::Arm { generation } => DropReply::At(generation),
            _ => DropReply::Dropped {
                dropped: true,
                dir_removed: false,
            },
        });
    }
}

#[test]
fn an_orphan_is_dropped_at_the_generation_it_is_fenced_at() {
    let (calls, s) = drop_slot(9, 4);
    assert_eq!(
        calls,
        vec![
            DropCall::Connect,
            DropCall::Probe,
            DropCall::Drop { generation: 9 }
        ]
    );
    assert!(matches!(
        s,
        DropStage::Ended(Ok(DropOrphanOutcome::Dropped { dir_removed: false }))
    ));
    let (calls, _) = drop_slot(0, 0);
    assert_eq!(
        calls[3..].to_vec(),
        vec![
            DropCall::Arm { generation: 1 },
            DropCall::Drop { generation: 1 }
        ]
    );
    assert!(incomplete_delete_detail(4, "http://n").contains("4"));
}

fn state() -> ClusterState {
    let mut s = single_node_state(2, 64, 7);
    for id in [1u64, 2] {
        s.nodes.push(NodeDescriptor {
            id: NodeId(id),
            addr: if id == 1 {
                Some("http://n1".to_string())
            } else {
                None
            },
            role: NodeRole::Data,
        });
    }
    s.assignments = vec![ShardAssignment {
        position: 0,
        primary: NodeId(1),
        replicas: vec![],
    }];
    s
}

fn decision(actions: Vec<ScalingAction>) -> AutoscaleDecision {
    AutoscaleDecision {
        rationale: actions.iter().map(|_| "why".to_string()).collect(),
        actions,
    }
}

#[test]
fn a_round_moves_only_where_it_does_not_rebalance() {
    let handoff = ScalingAction::Handoff {
        position: 0,
        from: NodeId(1),
        to: NodeId(2),
    };
    let plan = plan_tick(&decision(vec![handoff.clone()]));
    assert!(plan.rebalances.is_empty());
    assert_eq!(plan.handoffs, vec![(0, NodeId(1), NodeId(2))]);
    let plan = plan_tick(&decision(vec![
        handoff,
        ScalingAction::Rebalance { rf: 2 },
    ]));
    assert_eq!(plan.rebalances, vec![2]);
    assert!(plan.handoffs.is_empty());
    let off = plan_tick(&AutoscaleDecision::default());
    assert!(off.rebalances.is_empty() && off.handoffs.is_empty());
}

#[test]
fn a_round_needs_a_valid_configuration() {
    let mut c = AutoscaleConfig::default();
    assert!(check_tick(&c, false).is_ok());
    c.target_replication_factor = 0;
    assert!(matches!(check_tick(&c, true), Err(ShardError::Config(m)) if m
        == "invalid autoscale config: target_replication_factor must be >= 1; max_node_load_skew must be >= 0"));
}

#[test]
fn a_recommended_move_needs_its_endpoints() {
    let config = AutoscaleConfig::default();
    let snap = collect_load(state(), vec![5, 6], 1, &config);
    assert_eq!((snap.num_shards, snap.replicated_corpus), (2, 1));
    assert!(matches!(
        drive_handoff(&snap, 0, NodeId(2), NodeId(1)),
        DriveStep::Stale
    ));
    assert!(matches!(drive_handoff(&snap, 0, NodeId(1), NodeId(2)),
        DriveStep::NoEndpoint { error, .. } if error == "missing node endpoint for an autoscaled handoff"));
    assert!(matches!(drive_handoff(&snap, 0, NodeId(1), NodeId(1)),
        DriveStep::Run { source, target } if source == "http://n1" && target == "http://n1"));
    assert!(failed_move_detail(0, NodeId(1), NodeId(2))
        .starts_with("autoscaler-driven handoff of shard 0 from node 1 to node 2 failed"));
}
