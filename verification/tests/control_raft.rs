use reverse_cluster::control::{
    single_node_state, ClusterStateChange, ControlError, ControlPlane, InMemoryControlPlane,
    NodeDescriptor, NodeId, NodeRole, ShardAssignment,
};
use reverse_cluster::control_raft::builders::{
    check_settings, control_config, in_process_members, initialized, start_error, wait_for_leader,
    InitOutcome, LeaderStep, RaftSettings, LEADER_TIMEOUT_MS,
};
use reverse_cluster::control_raft::fault::{
    map_check_leader, map_client_write, CheckLeaderFault, ClientWriteFault,
};
use reverse_cluster::control_raft::hard_state::{HardState, RaftVote};
use reverse_cluster::control_raft::log_store::{LogEntry, LogId, RaftLog};
use reverse_cluster::control_raft::state_machine::{ClusterStateResponse, RaftPayload, RaftState};
use reverse_cluster::control_wire::{
    consensus_call, control_reply, not_enabled, Asked, ClientControlReply, ClientControlRequest,
    ConsensusAnswer, ConsensusCall, WireControlError,
};

fn id(index: u64) -> LogId {
    LogId {
        term: 1,
        node: 1,
        index,
    }
}

fn entry(index: u64, payload: &'static str) -> LogEntry<&'static str> {
    LogEntry {
        id: id(index),
        payload,
    }
}

fn payloads(log: &RaftLog<&'static str>) -> Vec<(u64, &'static str)> {
    log.records()
        .iter()
        .map(|e| (e.id.index, e.payload))
        .collect()
}

#[test]
fn a_log_keeps_one_entry_per_index() {
    let mut log = RaftLog::in_memory();
    log.append(vec![entry(1, "a"), entry(2, "b"), entry(3, "c")]);
    log.append(vec![entry(2, "B")]);
    assert_eq!(payloads(&log), vec![(1, "a"), (2, "B"), (3, "c")]);
    assert_eq!(log.log_state(), (None, Some(id(3))));
    log.truncate(3);
    assert_eq!(payloads(&log), vec![(1, "a"), (2, "B")]);
    log.purge(id(1));
    assert_eq!(payloads(&log), vec![(2, "B")]);
    assert_eq!(log.log_state(), (Some(id(1)), Some(id(2))));
    log.purge(id(2));
    assert_eq!(log.log_state(), (Some(id(2)), Some(id(2))));
}

#[test]
fn a_range_of_the_log_is_read() {
    let mut log = RaftLog::in_memory();
    log.append((1..=6).map(|i| entry(i, "x")).collect());
    let read = |from, end| -> Vec<u64> {
        log.range(from, end).iter().map(|e| e.id.index).collect()
    };
    assert_eq!(read(2, Some(5)), vec![2, 3, 4]);
    assert_eq!(read(5, None), vec![5, 6]);
    assert_eq!(read(7, None), Vec::<u64>::new());
}

#[test]
fn a_log_is_restored_from_its_file() {
    let mut log = RaftLog::in_memory();
    log.append(vec![entry(1, "a"), entry(2, "b"), entry(3, "c")]);
    log.append(vec![entry(3, "C")]);
    // What was appended to the file, in that order.
    let file = vec![entry(1, "a"), entry(2, "b"), entry(3, "c"), entry(3, "C")];
    let again = RaftLog::open(file, Some(id(0)));
    assert_eq!(payloads(&again), payloads(&log));
    assert_eq!(again.log_state(), (Some(id(0)), Some(id(3))));
}

fn changes() -> Vec<ClusterStateChange> {
    vec![
        ClusterStateChange::AddNode(NodeDescriptor {
            id: NodeId(3),
            addr: Some("http://c".to_string()),
            role: NodeRole::Data,
        }),
        ClusterStateChange::AssignShard(ShardAssignment {
            position: 1,
            primary: NodeId(3),
            replicas: vec![],
        }),
        ClusterStateChange::BumpModelVersion {
            dict_fingerprint: 9,
        },
        ClusterStateChange::SetShardCount { num_shards: 3 },
        ClusterStateChange::RemoveNode(NodeId(3)),
    ]
}

#[test]
fn the_replicated_and_the_local_backend_agree() {
    let mut local = InMemoryControlPlane::single_node(2, 64, 7);
    let mut replicated: RaftState<u8> = RaftState::in_memory(single_node_state(2, 64, 7), 0);
    let mut index = 0;
    for c in changes() {
        index += 1;
        let blank = replicated.apply(id(index), RaftPayload::Blank);
        assert_eq!(blank.version, local.version().unwrap().0);
        index += 1;
        assert!(replicated.has_room(&RaftPayload::Normal(c.clone())));
        let r = replicated.apply(id(index), RaftPayload::Normal(c.clone()));
        let v = local.propose(c).unwrap();
        assert_eq!(r, ClusterStateResponse { version: v.0 });
    }
    let voters = vec![NodeId(2), NodeId(1), NodeId(2)];
    replicated.apply(
        id(index + 1),
        RaftPayload::Membership {
            voters: voters.clone(),
            stored: 5,
        },
    );
    local.change_membership(voters).unwrap();
    assert_eq!(replicated.local_state(), *local.cluster_state().unwrap());
    assert_eq!(replicated.applied_state(), (Some(id(index + 1)), &5));
}

#[test]
fn a_snapshot_and_the_tail_give_the_same_document() {
    let mut whole: RaftState<u8> = RaftState::in_memory(single_node_state(2, 64, 7), 0);
    let mut until: RaftState<u8> = RaftState::in_memory(single_node_state(2, 64, 7), 0);
    let all = changes();
    for (i, c) in all.iter().enumerate() {
        whole.apply(id(i as u64 + 1), RaftPayload::Normal(c.clone()));
        if i < 2 {
            until.apply(id(i as u64 + 1), RaftPayload::Normal(c.clone()));
        }
    }
    let (covered, name) = until.build_snapshot();
    assert_eq!((covered, name.as_str()), (Some(id(2)), "2-1"));
    let snapshot = (until.local_state(), covered, 0u8);
    let mut restarted = RaftState::open(Some(snapshot), single_node_state(1, 1, 1), 0);
    for (i, c) in all.iter().enumerate().skip(2) {
        restarted.apply(id(i as u64 + 1), RaftPayload::Normal(c.clone()));
    }
    assert_eq!(restarted.local_state(), whole.local_state());
    let mut behind: RaftState<u8> = RaftState::open(None, single_node_state(1, 1, 1), 0);
    assert_eq!(behind.build_snapshot().1, "none-1");
    assert_eq!(behind.build_snapshot().1, "none-2");
    behind.install_snapshot(whole.local_state(), Some(id(5)), 4);
    assert_eq!(behind.local_state(), whole.local_state());
    assert_eq!(behind.applied_state(), (Some(id(5)), &4));
}

#[test]
fn the_hard_state_survives_a_restart() {
    let mut live = HardState::fresh();
    let vote = RaftVote {
        term: 3,
        node: 2,
        committed: true,
    };
    let vote_file = live.save_vote(vote).unwrap();
    assert_eq!(
        String::from_utf8(vote_file.clone()).unwrap(),
        r#"{"leader_id":{"term":3,"node_id":2},"committed":true}"#
    );
    let committed_file = live.save_committed(Some(id(7))).unwrap();
    assert_eq!(
        String::from_utf8(committed_file.clone()).unwrap(),
        r#"{"leader_id":{"term":1,"node_id":1},"index":7}"#
    );
    let purged_file = live.save_purged(id(4)).unwrap();
    let again = HardState::open(
        Ok(Some(vote_file)),
        Ok(Some(committed_file)),
        Ok(Some(purged_file)),
    )
    .unwrap();
    assert_eq!(again, live);
    let none = live.save_committed(None).unwrap();
    assert_eq!(none, b"null".to_vec());
    let again = HardState::open(Ok(None), Ok(Some(none)), Ok(None)).unwrap();
    assert_eq!(again, HardState::fresh());
}

#[test]
fn a_damaged_hard_state_is_an_error() {
    let bad = || Ok(Some(b"{}".to_vec()));
    for e in [
        HardState::open(bad(), Ok(None), Ok(None)),
        HardState::open(Ok(None), bad(), Ok(None)),
        HardState::open(Ok(None), Ok(None), bad()),
        // A bound is never absent once its file is there.
        HardState::open(Ok(None), Ok(None), Ok(Some(b"null".to_vec()))),
        HardState::open(Err("denied".to_string()), Ok(None), Ok(None)),
    ] {
        assert!(
            matches!(&e, Err(ControlError::Backend(m)) if m.starts_with("raft store open: ")),
            "{e:?}"
        );
    }
}

#[test]
fn the_vote_is_written_as_the_consensus_engine_writes_it() {
    let vote: openraft::Vote<u64> = openraft::Vote::new(5, 6);
    let mut h = HardState::fresh();
    let bytes = h
        .save_vote(RaftVote {
            term: 5,
            node: 6,
            committed: false,
        })
        .unwrap();
    assert_eq!(bytes, serde_json::to_vec(&vote).unwrap());
}

#[test]
fn settings_are_those_the_consensus_engine_accepts() {
    let s = control_config().unwrap();
    assert_eq!(s.cluster_name, "reverse-rusty-control");
    assert_eq!(
        (s.heartbeat_interval, s.election_timeout_min, s.election_timeout_max),
        (150, 300, 600)
    );
    let with = |heartbeat, min, max| {
        check_settings(RaftSettings {
            cluster_name: "x".to_string(),
            heartbeat_interval: heartbeat,
            election_timeout_min: min,
            election_timeout_max: max,
        })
    };
    assert!(with(50, 100, 101).is_ok());
    assert!(matches!(with(50, 100, 100), Err(ControlError::Backend(m))
        if m == "invalid raft config: election timeout: min(100) must be < max(100)"));
    assert!(matches!(with(100, 100, 200), Err(ControlError::Backend(m))
        if m == "invalid raft config: election_timeout_min(100) must be > heartbeat_interval(100)"));
}

#[test]
fn a_cluster_in_one_process_needs_a_node() {
    assert_eq!(
        in_process_members(&vec![3, 5]).unwrap(),
        vec![
            (3, "inproc://3".to_string()),
            (5, "inproc://5".to_string())
        ]
    );
    assert!(matches!(
        in_process_members(&vec![]),
        Err(ControlError::Backend(_))
    ));
}

#[test]
fn waiting_for_a_leader() {
    assert!(matches!(
        wait_for_leader(Some(2), LEADER_TIMEOUT_MS, LEADER_TIMEOUT_MS),
        LeaderStep::Elected(2)
    ));
    assert!(matches!(
        wait_for_leader(None, 10, LEADER_TIMEOUT_MS),
        LeaderStep::Sleep
    ));
    assert!(matches!(
        wait_for_leader(None, LEADER_TIMEOUT_MS, LEADER_TIMEOUT_MS),
        LeaderStep::GaveUp(ControlError::Backend(_))
    ));
    assert!(initialized(InitOutcome::NotAllowed).is_ok());
    assert!(initialized(InitOutcome::Done).is_ok());
    assert!(matches!(initialized(InitOutcome::Failed("x".to_string())),
        Err(ControlError::Backend(m)) if m == "initialize: x"));
    assert!(matches!(start_error(4, &"y".to_string()),
        ControlError::Backend(m) if m == "Raft::new(4): y"));
}

#[test]
fn refusals_of_the_consensus_engine() {
    let e = map_client_write(ClientWriteFault::ForwardToLeader {
        leader: Some(2),
        addr: Some("http://b".to_string()),
    });
    assert_eq!(
        e.message(),
        "not the control-plane leader; forward to Some(NodeId(2)) at Some(\"http://b\")"
    );
    assert_eq!(
        map_client_write(ClientWriteFault::ChangeMembership("m".to_string())),
        ControlError::Backend("change membership: m".to_string())
    );
    assert_eq!(
        map_client_write(ClientWriteFault::Fatal("f".to_string())),
        ControlError::Backend("raft fatal: f".to_string())
    );
    assert_eq!(
        map_check_leader(CheckLeaderFault::QuorumNotEnough),
        ControlError::NoQuorum
    );
    assert_eq!(
        map_check_leader(CheckLeaderFault::Fatal("f".to_string())),
        ControlError::Backend("raft fatal: f".to_string())
    );
    assert!(matches!(
        map_check_leader(CheckLeaderFault::ForwardToLeader {
            leader: None,
            addr: None
        }),
        ControlError::ForwardToLeader {
            leader: None,
            addr: None
        }
    ));
}

#[test]
fn errors_are_sent_whole() {
    for e in [
        ControlError::NotLeader,
        ControlError::NoQuorum,
        ControlError::Backend("b".to_string()),
        ControlError::ForwardToLeader {
            leader: Some(NodeId(1)),
            addr: Some("a".to_string()),
        },
    ] {
        assert_eq!(WireControlError::of(&e).into_control_error(), e);
    }
}

#[test]
fn requests_and_their_replies() {
    let (asked, call) = consensus_call(ClientControlRequest::GetState);
    assert!(matches!(call, ConsensusCall::Linearize));
    let state = single_node_state(2, 64, 7);
    assert!(matches!(
        control_reply(asked, ConsensusAnswer::Read(Ok(state.clone()))),
        ClientControlReply::State(s) if *s == state
    ));
    let (asked, call) = consensus_call(ClientControlRequest::Version);
    assert!(matches!(call, ConsensusCall::Linearize));
    assert!(matches!(
        control_reply(asked, ConsensusAnswer::Read(Ok(state))),
        ClientControlReply::Version(0)
    ));
    let (asked, call) = consensus_call(ClientControlRequest::ChangeMembership(vec![
        NodeId(3),
        NodeId(1),
        NodeId(3),
    ]));
    assert!(matches!(call, ConsensusCall::ChangeMembership(v)
        if v == vec![NodeId(1), NodeId(3)]));
    assert!(matches!(
        control_reply(asked, ConsensusAnswer::Written(Ok(8))),
        ClientControlReply::Committed(8)
    ));
    let (asked, call) = consensus_call(ClientControlRequest::Propose(
        ClusterStateChange::RemoveNode(NodeId(1)),
    ));
    assert_eq!(asked, Asked::Commit);
    assert!(matches!(call, ConsensusCall::Write(_)));
    let refused = control_reply(
        asked,
        ConsensusAnswer::Written(Err(ClientWriteFault::ForwardToLeader {
            leader: Some(4),
            addr: None,
        })),
    );
    assert!(matches!(
        refused,
        ClientControlReply::Refused(WireControlError::ForwardToLeader {
            leader: Some(NodeId(4)),
            addr: None
        })
    ));
    let (asked, call) = consensus_call(ClientControlRequest::Leader);
    assert!(matches!(call, ConsensusCall::CurrentLeader));
    assert!(matches!(
        control_reply(asked, ConsensusAnswer::Leader(Some(6))),
        ClientControlReply::Leader(Some(NodeId(6)))
    ));
    assert!(matches!(
        control_reply(
            Asked::State,
            ConsensusAnswer::Read(Err(CheckLeaderFault::QuorumNotEnough))
        ),
        ClientControlReply::Refused(WireControlError::NoQuorum)
    ));
    assert!(not_enabled().contains("Raft-only"));
}
