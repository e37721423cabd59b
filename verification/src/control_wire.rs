//! The control plane as a service: the requests that a coordinator sends to a manager node, and
//! how each is answered.
use crate::control::{
    voter_set, ClusterState, ClusterStateChange, ControlError, ControlErrorView, NodeId,
};
use crate::control_raft::fault::{
    check_error, leader_node, map_check_leader, map_client_write, node_of, write_error,
    CheckLeaderFault, ClientWriteFault,
};
use crate::order::sort_dedup;
use crate::text::{copy_opt, opt_text};
use vstd::prelude::*;

verus! {

/// A request to the control plane.
pub enum ClientControlRequest {
    /// A linearizable read of the document.
    GetState,
    /// A linearizable read of the version.
    Version,
    /// Commit one change that is not about voters.
    Propose(ClusterStateChange),
    /// Change the voters.
    ChangeMembership(Vec<NodeId>),
    /// Who leads, as the asked node sees it.
    Leader,
}

/// An answer of the control plane.
pub enum ClientControlReply {
    State(Box<ClusterState>),
    Version(u64),
    Committed(u64),
    Leader(Option<NodeId>),
    Refused(WireControlError),
}

/// A control error as it is sent.
pub enum WireControlError {
    ForwardToLeader { leader: Option<NodeId>, addr: Option<String> },
    NotLeader,
    NoQuorum,
    Backend(String),
}

impl View for WireControlError {
    type V = ControlErrorView;

    open spec fn view(&self) -> ControlErrorView {
        match self {
            WireControlError::ForwardToLeader { leader, addr } =>
                ControlErrorView::ForwardToLeader { leader: *leader, addr: opt_text(*addr) },
            WireControlError::NotLeader => ControlErrorView::NotLeader,
            WireControlError::NoQuorum => ControlErrorView::NoQuorum,
            WireControlError::Backend(m) => ControlErrorView::Backend(m@),
        }
    }
}

impl WireControlError {
    /// The error as it is sent. Nothing of it is lost.
    pub fn of(e: &ControlError) -> (r: Self)
        ensures
            r@ == e@,
    {
        match e {
            ControlError::ForwardToLeader { leader, addr } => WireControlError::ForwardToLeader {
                leader: *leader,
                addr: copy_opt(addr),
            },
            ControlError::NotLeader => WireControlError::NotLeader,
            ControlError::NoQuorum => WireControlError::NoQuorum,
            ControlError::Backend(m) => WireControlError::Backend(m.clone()),
        }
    }

    /// The error that was sent.
    pub fn into_control_error(self) -> (r: ControlError)
        ensures
            r@ == self@,
    {
        match self {
            WireControlError::ForwardToLeader { leader, addr } => ControlError::ForwardToLeader {
                leader,
                addr,
            },
            WireControlError::NotLeader => ControlError::NotLeader,
            WireControlError::NoQuorum => ControlError::NoQuorum,
            WireControlError::Backend(m) => ControlError::Backend(m),
        }
    }
}

/// What was asked, once the request is on its way.
#[derive(Clone, Copy, Debug, PartialEq, Eq, Structural)]
pub enum Asked {
    State,
    Version,
    Commit,
    Leader,
}

/// What the consensus engine is asked in order to answer.
pub enum ConsensusCall {
    /// Confirm that this node leads, then read its document.
    Linearize,
    /// Replicate a change.
    Write(ClusterStateChange),
    /// Replicate a change of the voters, sorted and none twice.
    ChangeMembership(Vec<NodeId>),
    /// Look at the leader.
    CurrentLeader,
}

/// What to ask of the consensus engine for a request. Reads go through the leader, so that a read
/// after a commit sees it.
pub fn consensus_call(request: ClientControlRequest) -> (r: (Asked, ConsensusCall))
    ensures
        match request {
            ClientControlRequest::GetState => r == (Asked::State, ConsensusCall::Linearize),
            ClientControlRequest::Version => r == (Asked::Version, ConsensusCall::Linearize),
            ClientControlRequest::Propose(change) => r == (
                Asked::Commit,
                ConsensusCall::Write(change),
            ),
            ClientControlRequest::ChangeMembership(voters) => r.0 == Asked::Commit
                && (r.1 matches ConsensusCall::ChangeMembership(v) && v@ == voter_set(voters@)),
            ClientControlRequest::Leader => r == (Asked::Leader, ConsensusCall::CurrentLeader),
        },
{
    match request {
        ClientControlRequest::GetState => (Asked::State, ConsensusCall::Linearize),
        ClientControlRequest::Version => (Asked::Version, ConsensusCall::Linearize),
        ClientControlRequest::Propose(change) => (Asked::Commit, ConsensusCall::Write(change)),
        ClientControlRequest::ChangeMembership(voters) => {
            (Asked::Commit, ConsensusCall::ChangeMembership(sort_dedup(&voters)))
        },
        ClientControlRequest::Leader => (Asked::Leader, ConsensusCall::CurrentLeader),
    }
}

/// What the consensus engine answered.
pub enum ConsensusAnswer {
    /// The document, where this node leads.
    Read(Result<ClusterState, CheckLeaderFault>),
    /// The version after the commit.
    Written(Result<u64, ClientWriteFault>),
    /// The leader that this node sees.
    Leader(Option<u64>),
}

/// The answer is to a call for what was asked.
pub open spec fn answers(asked: Asked, answer: ConsensusAnswer) -> bool {
    match asked {
        Asked::State | Asked::Version => answer is Read,
        Asked::Commit => answer is Written,
        Asked::Leader => answer is Leader,
    }
}

/// The reply to what was asked. An error is sent whole, so that the client can follow the leader.
pub fn control_reply(asked: Asked, answer: ConsensusAnswer) -> (r: ClientControlReply)
    requires
        answers(asked, answer),
    ensures
        match answer {
            ConsensusAnswer::Read(Ok(state)) => match asked {
                Asked::State => r matches ClientControlReply::State(s) && *s == state,
                _ => r == ClientControlReply::Version(state.epoch),
            },
            ConsensusAnswer::Read(Err(f)) => r matches ClientControlReply::Refused(e) && e@
                == check_error(f),
            ConsensusAnswer::Written(Ok(version)) => r == ClientControlReply::Committed(version),
            ConsensusAnswer::Written(Err(f)) => r matches ClientControlReply::Refused(e) && e@
                == write_error(f),
            ConsensusAnswer::Leader(leader) => r == ClientControlReply::Leader(node_of(leader)),
        },
{
    match answer {
        ConsensusAnswer::Read(Ok(state)) => {
            if asked == Asked::State {
                ClientControlReply::State(Box::new(state))
            } else {
                ClientControlReply::Version(state.epoch)
            }
        },
        ConsensusAnswer::Read(Err(f)) => ClientControlReply::Refused(
            WireControlError::of(&map_check_leader(f)),
        ),
        ConsensusAnswer::Written(Ok(version)) => ClientControlReply::Committed(version),
        ConsensusAnswer::Written(Err(f)) => ClientControlReply::Refused(
            WireControlError::of(&map_client_write(f)),
        ),
        ConsensusAnswer::Leader(leader) => ClientControlReply::Leader(leader_node(leader)),
    }
}

/// What a server without a control plane answers.
pub fn not_enabled() -> (r: &'static str)
    ensures
        r@ == "ClientControl is not enabled on this control server (Raft-only)"@,
{
    "ClientControl is not enabled on this control server (Raft-only)"
}

} // verus!
