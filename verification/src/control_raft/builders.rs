//! Bringing up manager nodes: the settings of the consensus engine, the first members, and the
//! wait for a leader.
use crate::control::{ControlError, ControlErrorView};
use crate::control_raft::fault::backend_error;
use crate::text::{decimal, with_number};
use vstd::prelude::*;

verus! {

/// The settings that the control plane gives the consensus engine, times in milliseconds.
pub struct RaftSettings {
    pub cluster_name: String,
    pub heartbeat_interval: u64,
    pub election_timeout_min: u64,
    pub election_timeout_max: u64,
}

/// Why the consensus engine refuses settings, where it does.
pub open spec fn settings_fault(heartbeat: u64, min: u64, max: u64) -> Option<Seq<char>> {
    if min >= max {
        Some(
            "election timeout: min("@ + decimal(min as nat) + ") must be < max("@ + decimal(
                max as nat,
            ) + ")"@,
        )
    } else if min <= heartbeat {
        Some(
            "election_timeout_min("@ + decimal(min as nat) + ") must be > heartbeat_interval("@
                + decimal(heartbeat as nat) + ")"@,
        )
    } else {
        None
    }
}

/// Calls `openraft::Config::validate` on a configuration with these settings and the defaults of
/// the crate for the rest, whose payload limit is not zero. It gives the configuration back
/// unchanged unless the shortest election timeout is not below the longest or not above the
/// heartbeat, and then the message of its error, the first of the two that holds.
#[verifier::external_body]
fn validate(s: RaftSettings) -> (r: Result<RaftSettings, String>)
    ensures
        match r {
            Ok(v) => settings_fault(
                s.heartbeat_interval,
                s.election_timeout_min,
                s.election_timeout_max,
            ) is None && v == s,
            Err(m) => settings_fault(
                s.heartbeat_interval,
                s.election_timeout_min,
                s.election_timeout_max,
            ) == Some(m@),
        },
{
    let mut config = openraft::Config::default();
    config.cluster_name = s.cluster_name;
    config.heartbeat_interval = s.heartbeat_interval;
    config.election_timeout_min = s.election_timeout_min;
    config.election_timeout_max = s.election_timeout_max;
    let checked = config.validate().map_err(|e| e.to_string())?;
    Ok(RaftSettings {
        cluster_name: checked.cluster_name,
        heartbeat_interval: checked.heartbeat_interval,
        election_timeout_min: checked.election_timeout_min,
        election_timeout_max: checked.election_timeout_max,
    })
}

/// Settings that the consensus engine accepts.
pub fn check_settings(s: RaftSettings) -> (r: Result<RaftSettings, ControlError>)
    ensures
        match settings_fault(
            s.heartbeat_interval,
            s.election_timeout_min,
            s.election_timeout_max,
        ) {
            None => r == Ok::<RaftSettings, ControlError>(s),
            Some(m) => r matches Err(e) && e@ == ControlErrorView::Backend(
                "invalid raft config: "@ + m,
            ),
        },
{
    match validate(s) {
        Ok(v) => Ok(v),
        Err(e) => Err(backend_error("invalid raft config: ", &e)),
    }
}

/// The settings of the control plane.
pub fn control_config() -> (r: Result<RaftSettings, ControlError>)
    ensures
        r matches Ok(s) && s.cluster_name@ == "reverse-rusty-control"@ && s.heartbeat_interval
            == 150 && s.election_timeout_min == 300 && s.election_timeout_max == 600,
{
    check_settings(
        RaftSettings {
            cluster_name: String::from_str("reverse-rusty-control"),
            heartbeat_interval: 150,
            election_timeout_min: 300,
            election_timeout_max: 600,
        },
    )
}

/// The address of a node that runs in this process.
pub open spec fn in_process_addr(id: u64) -> Seq<char> {
    "inproc://"@ + decimal(id as nat)
}

/// The first members of a cluster of nodes in this process; it needs at least one.
pub fn in_process_members(ids: &Vec<u64>) -> (r: Result<Vec<(u64, String)>, ControlError>)
    ensures
        match r {
            Ok(v) => ids@.len() > 0 && v@.len() == ids@.len() && forall|i: int|
                0 <= i < ids@.len() ==> (#[trigger] v@[i]).0 == ids@[i] && v@[i].1@
                    == in_process_addr(ids@[i]),
            Err(e) => ids@.len() == 0 && e@ == ControlErrorView::Backend(
                "in_process_cluster needs at least one node"@,
            ),
        },
{
    let n: usize = ids.len();
    if n == 0 {
        return Err(
            ControlError::Backend(String::from_str("in_process_cluster needs at least one node")),
        );
    }
    let mut r: Vec<(u64, String)> = Vec::new();
    let mut i: usize = 0;
    while i < n
        invariant
            n == ids@.len(),
            i <= n,
            r@.len() == i,
            forall|k: int|
                0 <= k < i ==> (#[trigger] r@[k]).0 == ids@[k] && r@[k].1@ == in_process_addr(
                    ids@[k],
                ),
        decreases n - i,
    {
        let addr = with_number("inproc://", ids[i], "");
        assert(addr@ =~= in_process_addr(ids@[i as int])) by {
            reveal_strlit("");
        }
        r.push((ids[i], addr));
        i = i + 1;
    }
    Ok(r)
}

/// How forming a cluster ended.
pub enum InitOutcome {
    Done,
    /// The cluster was formed before.
    NotAllowed,
    Failed(String),
}

/// Forming a cluster that is formed is no error.
pub fn initialized(outcome: InitOutcome) -> (r: Result<(), ControlError>)
    ensures
        match outcome {
            InitOutcome::Done | InitOutcome::NotAllowed => r is Ok,
            InitOutcome::Failed(e) => r matches Err(x) && x@ == ControlErrorView::Backend(
                "initialize: "@ + e@,
            ),
        },
{
    match outcome {
        InitOutcome::Done | InitOutcome::NotAllowed => Ok(()),
        InitOutcome::Failed(e) => Err(backend_error("initialize: ", &e)),
    }
}

/// How long to sleep between two looks at the leader, in milliseconds.
pub const LEADER_POLL_MS: u64 = 25;

/// How long a cluster may take to elect its first leader, in milliseconds.
pub const LEADER_TIMEOUT_MS: u64 = 10_000;

/// What to do after one look at the leader.
pub enum LeaderStep {
    /// There is a leader.
    Elected(u64),
    /// There is none and the time is up.
    GaveUp(ControlError),
    /// Sleep for `LEADER_POLL_MS`, then look again.
    Sleep,
}

/// What to do after one look: a leader ends the wait even where the time is up.
pub fn wait_for_leader(leader: Option<u64>, waited_ms: u64, timeout_ms: u64) -> (r: LeaderStep)
    ensures
        match r {
            LeaderStep::Elected(id) => leader == Some(id),
            LeaderStep::GaveUp(e) => leader is None && waited_ms >= timeout_ms && e@
                == ControlErrorView::Backend("no control-plane leader elected within timeout"@),
            LeaderStep::Sleep => leader is None && waited_ms < timeout_ms,
        },
{
    match leader {
        Some(id) => LeaderStep::Elected(id),
        None => if waited_ms >= timeout_ms {
            LeaderStep::GaveUp(
                ControlError::Backend(
                    String::from_str("no control-plane leader elected within timeout"),
                ),
            )
        } else {
            LeaderStep::Sleep
        },
    }
}

/// The error of a node that cannot be started.
pub fn start_error(node: u64, detail: &String) -> (r: ControlError)
    ensures
        r@ == ControlErrorView::Backend("Raft::new("@ + decimal(node as nat) + "): "@ + detail@),
{
    let context = with_number("Raft::new(", node, "): ");
    backend_error(context.as_str(), detail)
}

/// The consensus engine accepts settings exactly where the heartbeat is shorter than the shortest
/// election timeout and that is shorter than the longest.
pub proof fn law_what_settings_are_accepted(heartbeat: u64, min: u64, max: u64)
    ensures
        settings_fault(heartbeat, min, max) is None <==> heartbeat < min < max,
{
}

} // verus!
