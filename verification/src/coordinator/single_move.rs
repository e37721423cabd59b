//! Moving one position to one node, from the request to the committed map.
//!
//! The move is planned from a read of the committed state; its endpoints are reserved; a second
//! read must find nothing changed; the data moves where routing does not reach the target yet; and
//! the new owner is committed only if the committed entry is still the one that was planned from.
use crate::control::{ClusterState, NodeId, ShardAssignment};
use crate::coordinator::reassign::{
    after_commit, bare_entry, control_position, plan_single, recheck_single, single_planned,
    single_refusal, single_unchanged, CommitStep, HandoffRoute, LiveRoute, ReassignOutcome,
    Recheck, Settled, SinglePlan, COMMIT_ATTEMPTS, PLAN_ATTEMPTS,
};
use crate::endpoint::normalized_spec;
use crate::shard::{ShardError, ShardErrorView};
use crate::text::decimal;
use vstd::prelude::*;

verus! {

/// What to do next.
pub enum MoveCall {
    /// Read the committed state and the live primary of the position.
    ReadState,
    /// Reserve these endpoints.
    Reserve(Vec<String>),
    /// Read both again, and the generation that the position serves at.
    ReadAgain,
    /// Ask whether the move may still start.
    Start,
    /// Move the data from one endpoint to the other and swap routing.
    Handoff { source: String, target: String },
    /// Read the committed state once more.
    ReadForCommit,
    /// Propose this assignment; pause first where it is not the first try.
    Propose { assignment: ShardAssignment, pause: bool },
}

/// What came of it.
pub enum MoveEvent {
    /// The committed state could not be read.
    Unreadable(ShardError),
    /// The state and the live primary.
    Seen { state: ClusterState, live: LiveRoute },
    /// Whether the endpoints were reserved.
    Reserved(bool),
    /// The state, the live primary and the generation.
    SeenAgain { state: ClusterState, live: Option<String>, generation: u64 },
    /// Whether the move may still start.
    MayStart(bool),
    /// The generation that routing was swapped at, or why it was not.
    Handed(Result<u64, ShardError>),
    /// The state.
    SeenForCommit(ClusterState),
    /// Whether the assignment was committed, or the message of the error.
    Proposed(Result<(), String>),
}

/// What the operator is told.
pub struct MoveNotice {
    pub detail: String,
    pub error: String,
}

/// How far a move is.
pub enum SingleMove {
    Plan { position: u32, to: NodeId, attempt: usize },
    Reserve { plan: SinglePlan, attempt: usize },
    Recheck { plan: SinglePlan, attempt: usize },
    Start { plan: SinglePlan, generation: u64 },
    Handoff { plan: SinglePlan },
    Settle { plan: SinglePlan, generation: u64, moved: bool },
    Commit { plan: SinglePlan, generation: u64, moved: bool, attempt: usize },
    Ended(Result<Option<ReassignOutcome>, ShardError>),
}

/// The attempts made so far are within their limits.
pub open spec fn single_valid(s: SingleMove) -> bool {
    match s {
        SingleMove::Plan { position: _, to: _, attempt } => attempt < PLAN_ATTEMPTS,
        SingleMove::Reserve { plan: _, attempt } => attempt < PLAN_ATTEMPTS,
        SingleMove::Recheck { plan: _, attempt } => attempt < PLAN_ATTEMPTS,
        SingleMove::Commit { plan: _, generation: _, moved: _, attempt } => attempt
            < COMMIT_ATTEMPTS,
        _ => true,
    }
}

/// The event is one that follows what was asked.
pub open spec fn single_fits(s: SingleMove, e: MoveEvent) -> bool {
    match s {
        SingleMove::Plan { .. } => e is Unreadable || e is Seen,
        SingleMove::Reserve { .. } => e is Reserved,
        SingleMove::Recheck { .. } => e is Unreadable || e is SeenAgain,
        SingleMove::Start { .. } => e is MayStart,
        SingleMove::Handoff { .. } => e is Handed,
        SingleMove::Settle { .. } => e is Unreadable || e is SeenForCommit,
        SingleMove::Commit { .. } => e is Proposed,
        SingleMove::Ended(_) => false,
    }
}

/// Whether the endpoints of the move are reserved. They are given back when this ends.
pub open spec fn holds_endpoints(s: SingleMove) -> bool {
    s is Recheck || s is Start || s is Handoff || s is Settle || s is Commit
}

/// Routing reaches the target already.
pub open spec fn at_target(p: SinglePlan) -> bool {
    normalized_spec(p.live_endpoint@) == normalized_spec(p.target_endpoint@)
}

/// The outcome of a commit.
pub open spec fn committed_outcome(p: SinglePlan, generation: u64, moved: bool) -> ReassignOutcome {
    if moved {
        ReassignOutcome::Moved { position: p.position, from: p.from, to: p.to, generation }
    } else {
        ReassignOutcome::Reconciled { position: p.position, from: p.from, to: p.to, generation }
    }
}

/// The outcome without a commit.
pub open spec fn uncommitted_outcome(p: SinglePlan, generation: u64, moved: bool) -> ReassignOutcome {
    ReassignOutcome::MovedButNotCommitted {
        position: p.position,
        from: p.from,
        to: p.to,
        generation,
        moved,
    }
}

/// The committed owner is the target already, under the endpoint that was moved to.
pub open spec fn owned_already(p: SinglePlan) -> bool {
    p.from == p.to && normalized_spec(p.from_endpoint@) == normalized_spec(p.target_endpoint@)
}

/// The notice that the committed owner changed while the data moved.
pub open spec fn superseded_text(p: SinglePlan) -> Seq<char> {
    "reassign_and_move made shard "@ + decimal(p.position as nat) + " live on node "@ + decimal(
        p.to.0 as nat,
    )
        + " but the committed primary changed under it (a concurrent reassign); not overwriting the map. Re-run to reconcile."@
}

/// The notice that no commit went through.
pub open spec fn commit_failed_text(p: SinglePlan) -> Seq<char> {
    "reassign_and_move made shard "@ + decimal(p.position as nat) + " live on node "@ + decimal(
        p.to.0 as nat,
    ) + " but committing the new owner failed after 3 attempts; live routing stays on node "@
        + decimal(p.to.0 as nat) + " and the committed map still names node "@ + decimal(
        p.from.0 as nat,
    ) + ". Re-run promptly to reconcile before a coordinator restart."@
}

/// The error of a move whose live primary is gone.
pub open spec fn lost_primary_text(position: u32) -> Seq<char> {
    "reassign_and_move: shard position "@ + decimal(position as nat)
        + " lost its live remote primary"@
}

/// The error of a move that was planned too often.
pub open spec fn churning_text(position: u32) -> Seq<char> {
    "reassign_and_move: the committed assignment or live primary for shard position "@ + decimal(
        position as nat,
    ) + " kept changing while planning (4 attempts); retry once routing stops churning"@
}

/// A step of the move: `n` follows `s` on `e`.
pub open spec fn single_step(s: SingleMove, e: MoveEvent, n: SingleMove) -> bool {
    match (s, e) {
        (SingleMove::Plan { position, to, attempt }, MoveEvent::Seen { state, live }) =>
            match single_refusal(state@, position, to, live) {
            Some(x) => n matches SingleMove::Ended(Err(y)) && y@ == x,
            None => n matches SingleMove::Reserve { plan, attempt: a } && a == attempt
                && single_planned(plan, state@, position, to, live),
        },
        (SingleMove::Reserve { plan, attempt }, MoveEvent::Reserved(ok)) => if ok {
            n == (SingleMove::Recheck { plan, attempt })
        } else {
            n == SingleMove::Ended(Ok(None))
        },
        (
            SingleMove::Recheck { plan, attempt },
            MoveEvent::SeenAgain { state, live, generation },
        ) => match live {
            None => n matches SingleMove::Ended(Err(y)) && y@ == ShardErrorView::Config(
                lost_primary_text(plan.position),
            ),
            Some(l) => if single_unchanged(plan, state@, l@) {
                n == (SingleMove::Start { plan, generation })
            } else if attempt + 1 < PLAN_ATTEMPTS {
                n == (SingleMove::Plan {
                    position: plan.position,
                    to: plan.to,
                    attempt: (attempt + 1) as usize,
                })
            } else {
                n matches SingleMove::Ended(Err(y)) && y@ == ShardErrorView::ControlPlane(
                    churning_text(plan.position),
                )
            },
        },
        (SingleMove::Start { plan, generation }, MoveEvent::MayStart(ok)) => if !ok {
            n == SingleMove::Ended(Ok(None))
        } else if at_target(plan) {
            n == (SingleMove::Settle { plan, generation, moved: false })
        } else {
            n == (SingleMove::Handoff { plan })
        },
        (SingleMove::Handoff { plan }, MoveEvent::Handed(r)) => match r {
            Ok(generation) => n == (SingleMove::Settle { plan, generation, moved: true }),
            Err(x) => n == SingleMove::Ended(Err(x)),
        },
        (SingleMove::Settle { plan, generation, moved }, MoveEvent::SeenForCommit(state)) =>
            if !bare_entry(state@, plan.position, plan.from) {
                n == SingleMove::Ended(Ok(Some(uncommitted_outcome(plan, generation, moved))))
            } else if owned_already(plan) {
                n == SingleMove::Ended(
                    Ok(
                        Some(
                            if moved {
                                committed_outcome(plan, generation, true)
                            } else {
                                ReassignOutcome::NoChange { position: plan.position, generation }
                            },
                        ),
                    ),
                )
            } else {
                n == (SingleMove::Commit { plan, generation, moved, attempt: 0 })
            },
        (SingleMove::Commit { plan, generation, moved, attempt }, MoveEvent::Proposed(r)) =>
            if r is Ok {
                n == SingleMove::Ended(Ok(Some(committed_outcome(plan, generation, moved))))
            } else if attempt + 1 < COMMIT_ATTEMPTS {
                n == (SingleMove::Commit {
                    plan,
                    generation,
                    moved,
                    attempt: (attempt + 1) as usize,
                })
            } else {
                n == SingleMove::Ended(Ok(Some(uncommitted_outcome(plan, generation, moved))))
            },
        (_, MoveEvent::Unreadable(x)) => n == SingleMove::Ended(Err(x)),
        _ => n == s,
    }
}

/// What the operator is told of a step, if anything.
pub open spec fn single_notice(s: SingleMove, e: MoveEvent) -> Option<(Seq<char>, Seq<char>)> {
    match (s, e) {
        (SingleMove::Settle { plan, generation: _, moved: _ }, MoveEvent::SeenForCommit(state)) =>
            if !bare_entry(state@, plan.position, plan.from) {
                Some((superseded_text(plan), "committed assignment changed during reassign"@))
            } else {
                None
            },
        (
            SingleMove::Commit { plan, generation: _, moved: _, attempt },
            MoveEvent::Proposed(Err(x)),
        ) => if attempt + 1 < COMMIT_ATTEMPTS {
            None
        } else {
            Some((commit_failed_text(plan), x@))
        },
        _ => None,
    }
}

/// A notice, as a mathematical value.
pub open spec fn notice_view(n: Option<MoveNotice>) -> Option<(Seq<char>, Seq<char>)> {
    match n {
        Some(n) => Some((n.detail@, n.error@)),
        None => None,
    }
}

impl SingleMove {
    /// A move of `position` to `to`; a position that the control plane cannot name is refused.
    pub fn new(position: usize, to: NodeId) -> (r: Result<Self, ShardError>)
        ensures
            match r {
                Ok(s) => position <= u32::MAX && s == (SingleMove::Plan {
                    position: position as u32,
                    to,
                    attempt: 0,
                }) && single_valid(s),
                Err(e) => position > u32::MAX && e@ == ShardErrorView::Config(
                    "reassign_and_move"@ + ": shard position "@ + decimal(position as nat)
                        + " exceeds the u32 wire/control limit"@,
                ),
            },
    {
        match control_position(position, "reassign_and_move") {
            Ok(p) => Ok(SingleMove::Plan { position: p, to, attempt: 0 }),
            Err(e) => Err(e),
        }
    }

    /// What to do next; nothing once it ended.
    pub fn call(&self) -> (r: Option<MoveCall>)
        ensures
            match *self {
                SingleMove::Plan { .. } => r == Some(MoveCall::ReadState),
                SingleMove::Reserve { plan, attempt: _ } => r matches Some(MoveCall::Reserve(v))
                    && crate::text::texts(v@) == seq![
                    plan.from_endpoint@,
                    plan.live_endpoint@,
                    plan.target_endpoint@,
                ],
                SingleMove::Recheck { .. } => r == Some(MoveCall::ReadAgain),
                SingleMove::Start { .. } => r == Some(MoveCall::Start),
                SingleMove::Handoff { plan } => r matches Some(
                    MoveCall::Handoff { source, target },
                ) && source@ == plan.live_endpoint@ && target@ == plan.target_endpoint@,
                SingleMove::Settle { .. } => r == Some(MoveCall::ReadForCommit),
                SingleMove::Commit { plan, generation: _, moved: _, attempt } => r matches Some(
                    MoveCall::Propose { assignment, pause },
                ) && assignment@.position == plan.position && assignment@.primary == plan.to
                    && assignment@.replicas.len() == 0 && pause == (attempt > 0),
                SingleMove::Ended(_) => r is None,
            },
    {
        match self {
            SingleMove::Plan { .. } => Some(MoveCall::ReadState),
            SingleMove::Reserve { plan, attempt: _ } => Some(MoveCall::Reserve(plan.footprint())),
            SingleMove::Recheck { .. } => Some(MoveCall::ReadAgain),
            SingleMove::Start { .. } => Some(MoveCall::Start),
            SingleMove::Handoff { plan } => Some(
                MoveCall::Handoff {
                    source: plan.live_endpoint.clone(),
                    target: plan.target_endpoint.clone(),
                },
            ),
            SingleMove::Settle { .. } => Some(MoveCall::ReadForCommit),
            SingleMove::Commit { plan, generation: _, moved: _, attempt } => Some(
                MoveCall::Propose {
                    assignment: ShardAssignment {
                        position: plan.position,
                        primary: plan.to,
                        replicas: Vec::new(),
                    },
                    pause: *attempt > 0,
                },
            ),
            SingleMove::Ended(_) => None,
        }
    }

    /// Takes an event.
    pub fn next(self, event: MoveEvent) -> (r: (Self, Option<MoveNotice>))
        requires
            single_fits(self, event),
            single_valid(self),
        ensures
            single_step(self, event, r.0),
            single_valid(r.0),
            notice_view(r.1) == single_notice(self, event),
    {
        match (self, event) {
            (SingleMove::Plan { position, to, attempt }, MoveEvent::Seen { state, live }) => {
                match plan_single(&state, position, to, live) {
                    Ok(plan) => (SingleMove::Reserve { plan, attempt }, None),
                    Err(e) => (SingleMove::Ended(Err(e)), None),
                }
            },
            (SingleMove::Reserve { plan, attempt }, MoveEvent::Reserved(ok)) => {
                if ok {
                    (SingleMove::Recheck { plan, attempt }, None)
                } else {
                    (SingleMove::Ended(Ok(None)), None)
                }
            },
            (
                SingleMove::Recheck { plan, attempt },
                MoveEvent::SeenAgain { state, live, generation },
            ) => {
                match recheck_single(&plan, &state, live, attempt) {
                    Ok(Recheck::Ready) => (SingleMove::Start { plan, generation }, None),
                    Ok(Recheck::Again { attempt }) => (
                        SingleMove::Plan { position: plan.position, to: plan.to, attempt },
                        None,
                    ),
                    Err(e) => (SingleMove::Ended(Err(e)), None),
                }
            },
            (SingleMove::Start { plan, generation }, MoveEvent::MayStart(ok)) => {
                if !ok {
                    return (SingleMove::Ended(Ok(None)), None);
                }
                match plan.route() {
                    HandoffRoute::AlreadyAtTarget => (
                        SingleMove::Settle { plan, generation, moved: false },
                        None,
                    ),
                    HandoffRoute::Move => (SingleMove::Handoff { plan }, None),
                }
            },
            (SingleMove::Handoff { plan }, MoveEvent::Handed(r)) => {
                match r {
                    Ok(generation) => (
                        SingleMove::Settle { plan, generation, moved: true },
                        None,
                    ),
                    Err(e) => (SingleMove::Ended(Err(e)), None),
                }
            },
            (SingleMove::Settle { plan, generation, moved }, MoveEvent::SeenForCommit(state)) => {
                match plan.settle(&state, generation, moved) {
                    Settled::Done(outcome) => (SingleMove::Ended(Ok(Some(outcome))), None),
                    Settled::Superseded { outcome, detail } => (
                        SingleMove::Ended(Ok(Some(outcome))),
                        Some(
                            MoveNotice {
                                detail,
                                error: String::from_str(
                                    "committed assignment changed during reassign",
                                ),
                            },
                        ),
                    ),
                    Settled::Commit(_) => (
                        SingleMove::Commit { plan, generation, moved, attempt: 0 },
                        None,
                    ),
                }
            },
            (SingleMove::Commit { plan, generation, moved, attempt }, MoveEvent::Proposed(r)) => {
                match r {
                    Ok(_) => (
                        SingleMove::Ended(Ok(Some(plan.committed(generation, moved)))),
                        None,
                    ),
                    Err(error) => match after_commit(attempt, false) {
                        CommitStep::Retry { attempt } => (
                            SingleMove::Commit { plan, generation, moved, attempt },
                            None,
                        ),
                        _ => {
                            let detail = plan.commit_failed_detail();
                            (
                                SingleMove::Ended(Ok(Some(plan.uncommitted(generation, moved)))),
                                Some(MoveNotice { detail, error }),
                            )
                        },
                    },
                }
            },
            (_, MoveEvent::Unreadable(e)) => (SingleMove::Ended(Err(e)), None),
            (s, _) => (s, None),
        }
    }

    /// How it ended: the outcome, nothing where it was not started, or the error.
    pub fn outcome(self) -> (r: Option<Result<Option<ReassignOutcome>, ShardError>>)
        ensures
            r == match self {
                SingleMove::Ended(x) => Some(x),
                _ => None,
            },
    {
        match self {
            SingleMove::Ended(x) => Some(x),
            _ => None,
        }
    }
}

/// The endpoints are reserved from the moment they are granted until the move is planned anew or
/// ends, and at no other time.
pub proof fn law_endpoints_are_held_throughout(s: SingleMove, e: MoveEvent, n: SingleMove)
    requires
        single_fits(s, e),
        single_step(s, e, n),
    ensures
        holds_endpoints(n) && !holds_endpoints(s) ==> e == MoveEvent::Reserved(true),
        holds_endpoints(s) && !holds_endpoints(n) ==> n is Plan || n is Ended,
{
}

/// Data moves only for a plan that a second read, with the endpoints reserved, found unchanged, and
/// only where routing does not reach the target yet.
pub proof fn law_data_moves_only_where_it_must(s: SingleMove, e: MoveEvent, n: SingleMove)
    requires
        single_fits(s, e),
        single_step(s, e, n),
    ensures
        n is Start ==> s is Recheck && (e matches MoveEvent::SeenAgain {
            state,
            live: Some(l),
            generation: _,
        } && single_unchanged(s->Recheck_plan, state@, l@)),
        n is Handoff ==> s is Start && !at_target(s->Start_plan),
{
}

/// The map is changed only after routing reaches the target, and only while the committed entry is
/// the one that was planned from.
pub proof fn law_commit_is_compare_and_set(s: SingleMove, e: MoveEvent, n: SingleMove)
    requires
        single_fits(s, e),
        single_step(s, e, n),
        n is Commit,
        !(s is Commit),
    ensures
        s is Settle,
        e matches MoveEvent::SeenForCommit(state) && bare_entry(
            state@,
            (s->Settle_plan).position,
            (s->Settle_plan).from,
        ),
        n->Commit_plan == s->Settle_plan,
{
}

/// Routing that was swapped is never reported as unmoved: once the data moved, the outcome says so.
pub proof fn law_moved_is_reported(s: SingleMove, e: MoveEvent, n: SingleMove)
    requires
        single_fits(s, e),
        single_step(s, e, n),
        s matches SingleMove::Settle { plan: _, generation: _, moved } && moved || (
        s matches SingleMove::Commit { plan: _, generation: _, moved, attempt: _ } && moved),
        !(e is Unreadable),
        n is Ended,
    ensures
        n matches SingleMove::Ended(Ok(Some(o))) && (o is Moved || o is MovedButNotCommitted),
{
}

/// How many steps a move can still take.
pub open spec fn single_steps(s: SingleMove) -> int {
    match s {
        SingleMove::Plan { position: _, to: _, attempt } => 3 * (PLAN_ATTEMPTS - attempt) + 7,
        SingleMove::Reserve { plan: _, attempt } => 3 * (PLAN_ATTEMPTS - attempt) + 6,
        SingleMove::Recheck { plan: _, attempt } => 3 * (PLAN_ATTEMPTS - attempt) + 5,
        SingleMove::Start { .. } => 7,
        SingleMove::Handoff { .. } => 6,
        SingleMove::Settle { .. } => 5,
        SingleMove::Commit { plan: _, generation: _, moved: _, attempt } => COMMIT_ATTEMPTS
            - attempt + 1,
        SingleMove::Ended(_) => 0,
    }
}

/// A move ends.
pub proof fn law_single_move_ends(s: SingleMove, e: MoveEvent, n: SingleMove)
    requires
        single_fits(s, e),
        single_valid(s),
        single_step(s, e, n),
    ensures
        single_valid(n),
        0 <= single_steps(n) < single_steps(s),
{
}

/// The plan that a stage works by.
pub open spec fn plan_of(s: SingleMove) -> Option<SinglePlan> {
    match s {
        SingleMove::Reserve { plan, .. } => Some(plan),
        SingleMove::Recheck { plan, .. } => Some(plan),
        SingleMove::Start { plan, .. } => Some(plan),
        SingleMove::Handoff { plan } => Some(plan),
        SingleMove::Settle { plan, .. } => Some(plan),
        SingleMove::Commit { plan, .. } => Some(plan),
        _ => None,
    }
}

/// What an outcome speaks of: the position, the node it came from and the node it goes to.
pub open spec fn speaks_of(o: ReassignOutcome, p: SinglePlan) -> bool {
    match o {
        ReassignOutcome::NoChange { position, generation: _ } => position == p.position,
        ReassignOutcome::Moved { position, from, to, generation: _ } => position == p.position
            && from == p.from && to == p.to,
        ReassignOutcome::Reconciled { position, from, to, generation: _ } => position == p.position
            && from == p.from && to == p.to,
        ReassignOutcome::MovedButNotCommitted { position, from, to, .. } => position == p.position
            && from == p.from && to == p.to,
    }
}

/// An outcome says what happened. Moved: the data moved, and the new owner was committed or was the
/// committed one already. Reconciled: only the map changed. No change: neither. Not committed: the
/// committed entry was another by then, or each of three tries to commit failed. It speaks of the
/// planned position and nodes, and names the generation that the position serves at.
pub proof fn law_a_single_outcome_says_what_happened(s: SingleMove, e: MoveEvent, n: SingleMove)
    requires
        single_fits(s, e),
        single_valid(s),
        single_step(s, e, n),
        n matches SingleMove::Ended(Ok(Some(_))),
    ensures
        ({
            let o = n->Ended_0->Ok_0->0;
            let plan = plan_of(s)->0;
            let (generation, moved) = match s {
                SingleMove::Settle { plan: _, generation, moved } => (generation, moved),
                SingleMove::Commit { plan: _, generation, moved, attempt: _ } => (
                    generation,
                    moved,
                ),
                _ => (0, false),
            };
            let committed = s is Commit && e is Proposed && e->Proposed_0 is Ok;
            &&& s is Settle || s is Commit
            &&& speaks_of(o, plan)
            &&& match o {
                ReassignOutcome::NoChange { position: _, generation: g } => !moved && s is Settle
                    && owned_already(plan) && g == generation,
                ReassignOutcome::Moved { generation: g, .. } => moved && (committed || s is Settle
                    && owned_already(plan)) && g == generation,
                ReassignOutcome::Reconciled { generation: g, .. } => !moved && committed && g
                    == generation,
                ReassignOutcome::MovedButNotCommitted { generation: g, moved: m, .. } => m == moved
                    && g == generation && !committed && (s is Commit ==> s->Commit_attempt + 1
                    == 3) && (s is Settle ==> (e matches MoveEvent::SeenForCommit(
                    state,
                ) && !bare_entry(state@, plan.position, plan.from))),
            }
        }),
{
}

/// A move sticks to its plan from the reservation to the commit, goes on where it can, and stops
/// with what stopped it: what could not be read or moved is its error; without the reservation, or
/// where it may not start any more, it ends with nothing done; and a failed commit is tried again
/// while tries are left.
pub proof fn law_a_single_move_goes_on_as_planned(s: SingleMove, e: MoveEvent, n: SingleMove)
    requires
        single_fits(s, e),
        single_valid(s),
        single_step(s, e, n),
    ensures
        plan_of(s) is Some && plan_of(n) is Some ==> plan_of(n) == plan_of(s),
        e matches MoveEvent::Unreadable(x) ==> n == SingleMove::Ended(Err(x)),
        e matches MoveEvent::Handed(Err(x)) ==> n == SingleMove::Ended(Err(x)),
        e == MoveEvent::Reserved(false) || e == MoveEvent::MayStart(false) ==> n
            == SingleMove::Ended(Ok(None)),
        e == MoveEvent::Reserved(true) ==> n is Recheck,
        e == MoveEvent::MayStart(true) ==> (at_target(plan_of(s)->0) ==> n is Settle
            && !n->Settle_moved && n->Settle_generation == s->Start_generation) && (!at_target(
            plan_of(s)->0,
        ) ==> n is Handoff),
        e matches MoveEvent::Handed(Ok(g)) ==> n is Settle && n->Settle_moved
            && n->Settle_generation == g,
        e matches MoveEvent::SeenForCommit(state) ==> (n is Commit <==> bare_entry(
            state@,
            plan_of(s)->0.position,
            plan_of(s)->0.from,
        ) && !owned_already(plan_of(s)->0)),
        e is Proposed && e->Proposed_0 is Err && s->Commit_attempt + 1 < 3 ==> n
            is Commit && n->Commit_attempt == s->Commit_attempt + 1,
{
}

/// The operator is told exactly where live routing and the committed map are left apart; where a
/// commit failed, with its error.
pub proof fn law_the_operator_is_told_of_what_is_left_apart(
    s: SingleMove,
    e: MoveEvent,
    n: SingleMove,
)
    requires
        single_fits(s, e),
        single_valid(s),
        single_step(s, e, n),
    ensures
        single_notice(s, e) is Some <==> (n matches SingleMove::Ended(Ok(Some(o))) && o
            is MovedButNotCommitted),
        e matches MoveEvent::Proposed(Err(x)) ==> (single_notice(s, e) matches Some(t) ==> t.1
            == x@),
{
}

/// A plan that no longer holds is made again, for the same position and node, up to four times in
/// all; commits are counted from none.
pub proof fn law_a_single_plan_is_made_again(s: SingleMove, e: MoveEvent, n: SingleMove)
    requires
        single_fits(s, e),
        single_valid(s),
        single_step(s, e, n),
    ensures
        s matches SingleMove::Recheck { plan, attempt } ==> (e matches MoveEvent::SeenAgain {
            state,
            live,
            generation,
        } ==> (live matches Some(l) ==> {
            &&& single_unchanged(plan, state@, l@) ==> n == (SingleMove::Start { plan, generation })
            &&& !single_unchanged(plan, state@, l@) && attempt + 1 < 4 ==> n == (
            SingleMove::Plan {
                position: plan.position,
                to: plan.to,
                attempt: (attempt + 1) as usize,
            })
            &&& !single_unchanged(plan, state@, l@) && attempt + 1 == 4 ==> n is Ended
                && n->Ended_0 is Err
        })),
        s matches SingleMove::Plan { position: _, to: _, attempt } ==> (n matches SingleMove::Reserve {
            plan: _,
            attempt: a,
        } ==> a == attempt),
        s is Settle && n is Commit ==> n->Commit_attempt == 0 && n->Commit_generation
            == s->Settle_generation && n->Commit_moved == s->Settle_moved,
        s is Commit && n is Commit ==> n->Commit_generation == s->Commit_generation
            && n->Commit_moved == s->Commit_moved,
{
}

} // verus!
