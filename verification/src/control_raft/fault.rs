//! What the control plane reports where the consensus engine refuses.
use crate::control::{ControlError, ControlErrorView, NodeId};
use crate::text::opt_text;
use vstd::prelude::*;

verus! {

/// Why a write or a change of the members was refused.
pub enum ClientWriteFault {
    /// Another node leads.
    ForwardToLeader { leader: Option<u64>, addr: Option<String> },
    /// The change of the members was not accepted.
    ChangeMembership(String),
    /// The consensus engine stopped.
    Fatal(String),
}

/// Why a linearizable read was refused.
pub enum CheckLeaderFault {
    /// Another node leads.
    ForwardToLeader { leader: Option<u64>, addr: Option<String> },
    /// A quorum did not confirm that this node leads.
    QuorumNotEnough,
    /// The consensus engine stopped.
    Fatal(String),
}

/// The node with an id.
pub open spec fn node_of(leader: Option<u64>) -> Option<NodeId> {
    match leader {
        Some(id) => Some(NodeId(id)),
        None => None,
    }
}

/// The control error for a refused write.
pub open spec fn write_error(f: ClientWriteFault) -> ControlErrorView {
    match f {
        ClientWriteFault::ForwardToLeader { leader, addr } => ControlErrorView::ForwardToLeader {
            leader: node_of(leader),
            addr: opt_text(addr),
        },
        ClientWriteFault::ChangeMembership(e) => ControlErrorView::Backend(
            "change membership: "@ + e@,
        ),
        ClientWriteFault::Fatal(e) => ControlErrorView::Backend("raft fatal: "@ + e@),
    }
}

/// The control error for a refused read.
pub open spec fn check_error(f: CheckLeaderFault) -> ControlErrorView {
    match f {
        CheckLeaderFault::ForwardToLeader { leader, addr } => ControlErrorView::ForwardToLeader {
            leader: node_of(leader),
            addr: opt_text(addr),
        },
        CheckLeaderFault::QuorumNotEnough => ControlErrorView::NoQuorum,
        CheckLeaderFault::Fatal(e) => ControlErrorView::Backend("raft fatal: "@ + e@),
    }
}

/// The node with an id.
pub fn leader_node(leader: Option<u64>) -> (r: Option<NodeId>)
    ensures
        r == node_of(leader),
{
    match leader {
        Some(id) => Some(NodeId(id)),
        None => None,
    }
}

/// A backend error whose message is `context` and then `detail`.
pub fn backend_error(context: &str, detail: &String) -> (r: ControlError)
    ensures
        r@ == ControlErrorView::Backend(context@ + detail@),
{
    let mut m = String::from_str(context);
    m.append(detail.as_str());
    ControlError::Backend(m)
}

/// What the control plane reports of a refused write.
pub fn map_client_write(f: ClientWriteFault) -> (r: ControlError)
    ensures
        r@ == write_error(f),
{
    match f {
        ClientWriteFault::ForwardToLeader { leader, addr } => ControlError::ForwardToLeader {
            leader: leader_node(leader),
            addr,
        },
        ClientWriteFault::ChangeMembership(e) => backend_error("change membership: ", &e),
        ClientWriteFault::Fatal(e) => backend_error("raft fatal: ", &e),
    }
}

/// What the control plane reports of a refused read.
pub fn map_check_leader(f: CheckLeaderFault) -> (r: ControlError)
    ensures
        r@ == check_error(f),
{
    match f {
        CheckLeaderFault::ForwardToLeader { leader, addr } => ControlError::ForwardToLeader {
            leader: leader_node(leader),
            addr,
        },
        CheckLeaderFault::QuorumNotEnough => ControlError::NoQuorum,
        CheckLeaderFault::Fatal(e) => backend_error("raft fatal: ", &e),
    }
}

/// A refusal that names the leader is passed on whole, with its id and its address, whether a write
/// or a read was refused; only a read can lack a quorum.
pub proof fn law_the_leader_is_passed_on(w: ClientWriteFault, c: CheckLeaderFault)
    ensures
        write_error(w) is ForwardToLeader <==> w is ForwardToLeader,
        check_error(c) is ForwardToLeader <==> c is ForwardToLeader,
        w matches ClientWriteFault::ForwardToLeader { leader, addr } ==> {
            let e = write_error(w);
            &&& leader is None <==> e->leader is None
            &&& leader matches Some(id) ==> e->leader == Some(NodeId(id))
            &&& addr is None <==> e->addr is None
            &&& addr matches Some(a) ==> e->addr == Some(a@)
        },
        c matches CheckLeaderFault::ForwardToLeader { leader, addr } ==> {
            let e = check_error(c);
            &&& leader is None <==> e->leader is None
            &&& leader matches Some(id) ==> e->leader == Some(NodeId(id))
            &&& addr is None <==> e->addr is None
            &&& addr matches Some(a) ==> e->addr == Some(a@)
        },
        check_error(c) is NoQuorum <==> c is QuorumNotEnough,
        !(write_error(w) is NoQuorum),
{
}

} // verus!
