//! Moving the group of a position, from the request to the committed map.
//!
//! As for a single move, the plan is rechecked once its endpoints are reserved, and the new group
//! is committed only if the committed group is still the one that was planned from. What happens
//! between the two, from the first copy to the swap, is the business of [`GroupMove`].
//!
//! [`GroupMove`]: crate::coordinator::group_move::GroupMove
use crate::control::{ClusterState, ShardAssignment};
use crate::coordinator::reassign::{
    after_commit, check_group_request, group_refusal, group_stands, group_unchanged, in_place,
    member_views, plan_group, plan_matches, CommitStep, GroupPlan, GroupPlanned, MemberView,
    ReassignOutcome, Recheck, Settled, COMMIT_ATTEMPTS, PLAN_ATTEMPTS,
};
use crate::coordinator::single_move::{notice_view, MoveNotice};
use crate::shard::{ShardError, ShardErrorView};
use crate::text::{decimal, texts, with_number};
use vstd::prelude::*;

verus! {

/// What to do next.
pub enum GroupRunCall {
    /// Read the committed state, and the generation that the position serves at.
    ReadState,
    /// Reserve these endpoints.
    Reserve(Vec<String>),
    /// Read the state again, and whether the position can be moved at all.
    ReadAgain,
    /// Move the group.
    Move,
    /// Read the committed state once more.
    ReadForCommit,
    /// Propose this assignment; pause first where it is not the first try.
    Propose { assignment: ShardAssignment, pause: bool },
}

/// What came of it.
pub enum GroupRunEvent {
    /// The committed state could not be read.
    Unreadable(ShardError),
    /// The state and the generation.
    Seen { state: ClusterState, generation: u64 },
    /// The endpoints are reserved.
    Reserved,
    /// The state, and whether the position can be moved.
    SeenAgain { state: ClusterState, movable: bool },
    /// The generation that routing was swapped at, or why it was not.
    Moved(Result<u64, ShardError>),
    /// The state.
    SeenForCommit(ClusterState),
    /// Whether the assignment was committed, or the message of the error.
    Proposed(Result<(), String>),
}

/// How far the move of a group is.
pub enum GroupRun {
    Plan { desired: ShardAssignment, attempt: usize },
    Reserve { plan: GroupPlan, attempt: usize },
    Recheck { plan: GroupPlan, attempt: usize },
    Move { plan: GroupPlan },
    Settle { plan: GroupPlan, generation: u64 },
    Commit { plan: GroupPlan, generation: u64, attempt: usize },
    Ended(Result<ReassignOutcome, ShardError>),
}

/// The attempts made so far are within their limits.
pub open spec fn run_valid(s: GroupRun) -> bool {
    match s {
        GroupRun::Plan { desired: _, attempt } => attempt < PLAN_ATTEMPTS,
        GroupRun::Reserve { plan: _, attempt } => attempt < PLAN_ATTEMPTS,
        GroupRun::Recheck { plan: _, attempt } => attempt < PLAN_ATTEMPTS,
        GroupRun::Commit { plan: _, generation: _, attempt } => attempt < COMMIT_ATTEMPTS,
        _ => true,
    }
}

/// The event is one that follows what was asked.
pub open spec fn run_fits(s: GroupRun, e: GroupRunEvent) -> bool {
    match s {
        GroupRun::Plan { .. } => e is Unreadable || e is Seen,
        GroupRun::Reserve { .. } => e is Reserved,
        GroupRun::Recheck { .. } => e is Unreadable || e is SeenAgain,
        GroupRun::Move { .. } => e is Moved,
        GroupRun::Settle { .. } => e is Unreadable || e is SeenForCommit,
        GroupRun::Commit { .. } => e is Proposed,
        GroupRun::Ended(_) => false,
    }
}

/// Whether the endpoints of the move are reserved. They are given back when this ends.
pub open spec fn run_holds_endpoints(s: GroupRun) -> bool {
    s is Recheck || s is Move || s is Settle || s is Commit
}

/// The outcome of a commit.
pub open spec fn run_committed(p: GroupPlan, generation: u64) -> ReassignOutcome {
    ReassignOutcome::Moved {
        position: p.committed.position,
        from: p.committed.primary,
        to: p.desired.primary,
        generation,
    }
}

/// The outcome without a commit.
pub open spec fn run_uncommitted(p: GroupPlan, generation: u64) -> ReassignOutcome {
    ReassignOutcome::MovedButNotCommitted {
        position: p.committed.position,
        from: p.committed.primary,
        to: p.desired.primary,
        generation,
        moved: true,
    }
}

/// The error of a position that cannot be moved.
pub open spec fn not_movable_text(position: u32) -> Seq<char> {
    "reassign_group_and_move: shard position "@ + decimal(position as nat)
        + " is not handoff-capable (the cluster was not built via connect_remote/connect_replicated)"@
}

/// The error of a move that was planned too often.
pub open spec fn group_churning_text(position: u32) -> Seq<char> {
    "reassign_group_and_move: the committed group for shard position "@ + decimal(position as nat)
        + " kept changing while planning the move (4 attempts); retry once the map stops churning"@
}

/// The notice that the committed group changed while the data moved.
pub open spec fn group_superseded_text(p: GroupPlan) -> Seq<char> {
    "reassign_group_and_move moved shard "@ + decimal(p.committed.position as nat)
        + "'s group to primary node "@ + decimal(p.desired.primary.0 as nat)
        + " and flipped routing, but the committed group changed under it (a concurrent reassign); not overwriting the committed map. Re-run to reconcile."@
}

/// The notice that no commit went through.
pub open spec fn group_commit_failed_text(p: GroupPlan) -> Seq<char> {
    "reassign_group_and_move moved shard "@ + decimal(p.committed.position as nat)
        + "'s group to primary node "@ + decimal(p.desired.primary.0 as nat)
        + " and flipped routing, but committing the new group failed after 3 attempts; live routing stays on the new group (which holds every acked write) and the committed map still names the reads-serving old group — re-run to reconcile the durable map (idempotent)."@
}

/// A step of the move: `n` follows `s` on `e`.
pub open spec fn run_step(s: GroupRun, e: GroupRunEvent, n: GroupRun) -> bool {
    match (s, e) {
        (GroupRun::Plan { desired, attempt }, GroupRunEvent::Seen { state, generation }) =>
            if in_place(state@, desired@) {
                n == GroupRun::Ended(
                    Ok(ReassignOutcome::NoChange { position: desired.position, generation }),
                )
            } else {
                match group_refusal(state@, desired@) {
                    Some(x) => n matches GroupRun::Ended(Err(y)) && y@ == x,
                    None => n matches GroupRun::Reserve { plan, attempt: a } && a == attempt
                        && plan_matches(plan, state@, desired@),
                }
            },
        (GroupRun::Reserve { plan, attempt }, _) => n == (GroupRun::Recheck { plan, attempt }),
        (GroupRun::Recheck { plan, attempt }, GroupRunEvent::SeenAgain { state, movable }) =>
            if group_unchanged(plan, state@) {
                if movable {
                    n == (GroupRun::Move { plan })
                } else {
                    n matches GroupRun::Ended(Err(y)) && y@ == ShardErrorView::Config(
                        not_movable_text(plan.committed.position),
                    )
                }
            } else if attempt + 1 < PLAN_ATTEMPTS {
                n == (GroupRun::Plan { desired: plan.desired, attempt: (attempt + 1) as usize })
            } else {
                n matches GroupRun::Ended(Err(y)) && y@ == ShardErrorView::ControlPlane(
                    group_churning_text(plan.committed.position),
                )
            },
        (GroupRun::Move { plan }, GroupRunEvent::Moved(r)) => match r {
            Ok(generation) => n == (GroupRun::Settle { plan, generation }),
            Err(x) => n == GroupRun::Ended(Err(x)),
        },
        (GroupRun::Settle { plan, generation }, GroupRunEvent::SeenForCommit(state)) =>
            if group_stands(plan, state@) {
                n == (GroupRun::Commit { plan, generation, attempt: 0 })
            } else {
                n == GroupRun::Ended(Ok(run_uncommitted(plan, generation)))
            },
        (GroupRun::Commit { plan, generation, attempt }, GroupRunEvent::Proposed(r)) => if r is Ok {
            n == GroupRun::Ended(Ok(run_committed(plan, generation)))
        } else if attempt + 1 < COMMIT_ATTEMPTS {
            n == (GroupRun::Commit { plan, generation, attempt: (attempt + 1) as usize })
        } else {
            n == GroupRun::Ended(Ok(run_uncommitted(plan, generation)))
        },
        (_, GroupRunEvent::Unreadable(x)) => n == GroupRun::Ended(Err(x)),
        _ => n == s,
    }
}

/// What the operator is told of a step, if anything.
pub open spec fn run_notice(s: GroupRun, e: GroupRunEvent) -> Option<(Seq<char>, Seq<char>)> {
    match (s, e) {
        (GroupRun::Settle { plan, generation: _ }, GroupRunEvent::SeenForCommit(state)) =>
            if !group_stands(plan, state@) {
                Some(
                    (
                        group_superseded_text(plan),
                        "committed assignment changed during a data-moving group reassign"@,
                    ),
                )
            } else {
                None
            },
        (
            GroupRun::Commit { plan, generation: _, attempt },
            GroupRunEvent::Proposed(Err(x)),
        ) => if attempt + 1 < COMMIT_ATTEMPTS {
            None
        } else {
            Some((group_commit_failed_text(plan), x@))
        },
        _ => None,
    }
}

impl GroupRun {
    /// A move of the group of `position` to `desired`, which must be for that position.
    pub fn new(position: usize, desired: ShardAssignment) -> (r: Result<Self, ShardError>)
        ensures
            match r {
                Ok(s) => desired.position == position && s == (GroupRun::Plan { desired, attempt: 0 })
                    && run_valid(s),
                Err(e) => if position > u32::MAX {
                    e@ == ShardErrorView::Config(
                        "reassign_group_and_move"@ + ": shard position "@ + decimal(
                            position as nat,
                        ) + " exceeds the u32 wire/control limit"@,
                    )
                } else {
                    desired.position != position && e@ == ShardErrorView::Config(
                        "reassign_group_and_move: desired assignment names position "@ + decimal(
                            desired.position as nat,
                        ) + " but the move is for position "@ + decimal(position as nat),
                    )
                },
            },
    {
        match check_group_request(position, &desired) {
            Ok(_) => Ok(GroupRun::Plan { desired, attempt: 0 }),
            Err(e) => Err(e),
        }
    }

    /// What to do next; nothing once it ended.
    pub fn call(&self) -> (r: Option<GroupRunCall>)
        ensures
            match *self {
                GroupRun::Plan { .. } => r == Some(GroupRunCall::ReadState),
                GroupRun::Reserve { plan, attempt: _ } => r matches Some(GroupRunCall::Reserve(v))
                    && texts(v@) == seq![plan.source_endpoint@] + member_views(
                    plan.members@,
                ).map_values(|m: MemberView| m.endpoint),
                GroupRun::Recheck { .. } => r == Some(GroupRunCall::ReadAgain),
                GroupRun::Move { .. } => r == Some(GroupRunCall::Move),
                GroupRun::Settle { .. } => r == Some(GroupRunCall::ReadForCommit),
                GroupRun::Commit { plan, generation: _, attempt } => r matches Some(
                    GroupRunCall::Propose { assignment, pause },
                ) && assignment@ == plan.desired@ && pause == (attempt > 0),
                GroupRun::Ended(_) => r is None,
            },
    {
        match self {
            GroupRun::Plan { .. } => Some(GroupRunCall::ReadState),
            GroupRun::Reserve { plan, attempt: _ } => Some(GroupRunCall::Reserve(plan.footprint())),
            GroupRun::Recheck { .. } => Some(GroupRunCall::ReadAgain),
            GroupRun::Move { .. } => Some(GroupRunCall::Move),
            GroupRun::Settle { .. } => Some(GroupRunCall::ReadForCommit),
            GroupRun::Commit { plan, generation: _, attempt } => Some(
                GroupRunCall::Propose {
                    assignment: plan.desired.duplicate(),
                    pause: *attempt > 0,
                },
            ),
            GroupRun::Ended(_) => None,
        }
    }

    /// Takes an event.
    pub fn next(self, event: GroupRunEvent) -> (r: (Self, Option<MoveNotice>))
        requires
            run_fits(self, event),
            run_valid(self),
        ensures
            run_step(self, event, r.0),
            run_valid(r.0),
            notice_view(r.1) == run_notice(self, event),
    {
        match (self, event) {
            (GroupRun::Plan { desired, attempt }, GroupRunEvent::Seen { state, generation }) => {
                match plan_group(&state, &desired) {
                    Ok(GroupPlanned::InPlace) => (
                        GroupRun::Ended(
                            Ok(
                                ReassignOutcome::NoChange {
                                    position: desired.position,
                                    generation,
                                },
                            ),
                        ),
                        None,
                    ),
                    Ok(GroupPlanned::Plan(plan)) => (GroupRun::Reserve { plan, attempt }, None),
                    Err(e) => (GroupRun::Ended(Err(e)), None),
                }
            },
            (GroupRun::Reserve { plan, attempt }, _) => (GroupRun::Recheck { plan, attempt }, None),
            (GroupRun::Recheck { plan, attempt }, GroupRunEvent::SeenAgain { state, movable }) => {
                match plan.recheck(&state, attempt) {
                    Ok(Recheck::Ready) => {
                        if movable {
                            (GroupRun::Move { plan }, None)
                        } else {
                            let m = with_number(
                                "reassign_group_and_move: shard position ",
                                plan.committed.position as u64,
                                " is not handoff-capable (the cluster was not built via connect_remote/connect_replicated)",
                            );
                            (GroupRun::Ended(Err(ShardError::Config(m))), None)
                        }
                    },
                    Ok(Recheck::Again { attempt }) => (
                        GroupRun::Plan { desired: plan.desired, attempt },
                        None,
                    ),
                    Err(e) => (GroupRun::Ended(Err(e)), None),
                }
            },
            (GroupRun::Move { plan }, GroupRunEvent::Moved(r)) => {
                match r {
                    Ok(generation) => (GroupRun::Settle { plan, generation }, None),
                    Err(e) => (GroupRun::Ended(Err(e)), None),
                }
            },
            (GroupRun::Settle { plan, generation }, GroupRunEvent::SeenForCommit(state)) => {
                match plan.settle(&state, generation) {
                    Settled::Superseded { outcome, detail } => (
                        GroupRun::Ended(Ok(outcome)),
                        Some(
                            MoveNotice {
                                detail,
                                error: String::from_str(
                                    "committed assignment changed during a data-moving group reassign",
                                ),
                            },
                        ),
                    ),
                    Settled::Done(outcome) => (GroupRun::Ended(Ok(outcome)), None),
                    Settled::Commit(_) => (
                        GroupRun::Commit { plan, generation, attempt: 0 },
                        None,
                    ),
                }
            },
            (GroupRun::Commit { plan, generation, attempt }, GroupRunEvent::Proposed(r)) => {
                match r {
                    Ok(_) => (GroupRun::Ended(Ok(plan.committed_outcome(generation))), None),
                    Err(error) => match after_commit(attempt, false) {
                        CommitStep::Retry { attempt } => (
                            GroupRun::Commit { plan, generation, attempt },
                            None,
                        ),
                        _ => {
                            let detail = plan.commit_failed_detail();
                            (
                                GroupRun::Ended(Ok(plan.uncommitted(generation))),
                                Some(MoveNotice { detail, error }),
                            )
                        },
                    },
                }
            },
            (_, GroupRunEvent::Unreadable(e)) => (GroupRun::Ended(Err(e)), None),
            (s, _) => (s, None),
        }
    }

    /// The plan of the move that is to be carried out.
    pub fn plan(&self) -> (r: Option<&GroupPlan>)
        ensures
            match *self {
                GroupRun::Move { plan } => r matches Some(p) && *p == plan,
                _ => r is None,
            },
    {
        match self {
            GroupRun::Move { plan } => Some(plan),
            _ => None,
        }
    }

    /// How it ended.
    pub fn outcome(self) -> (r: Option<Result<ReassignOutcome, ShardError>>)
        ensures
            r == match self {
                GroupRun::Ended(x) => Some(x),
                _ => None,
            },
    {
        match self {
            GroupRun::Ended(x) => Some(x),
            _ => None,
        }
    }
}

/// The endpoints are reserved from the moment they are granted until the move is planned anew or
/// ends, and at no other time.
pub proof fn law_group_endpoints_are_held_throughout(s: GroupRun, e: GroupRunEvent, n: GroupRun)
    requires
        run_fits(s, e),
        run_step(s, e, n),
    ensures
        run_holds_endpoints(n) && !run_holds_endpoints(s) ==> e is Reserved,
        run_holds_endpoints(s) && !run_holds_endpoints(n) ==> n is Plan || n is Ended,
{
}

/// A group moves only for a plan that a second read, with the endpoints reserved, found unchanged.
pub proof fn law_group_moves_only_as_planned(s: GroupRun, e: GroupRunEvent, n: GroupRun)
    requires
        run_fits(s, e),
        run_step(s, e, n),
        n is Move,
    ensures
        s is Recheck,
        e matches GroupRunEvent::SeenAgain { state, movable } && movable && group_unchanged(
            s->Recheck_plan,
            state@,
        ),
        n->Move_plan == s->Recheck_plan,
{
}

/// The map is changed only after routing was swapped, and only while the committed group is the one
/// that was planned from.
pub proof fn law_group_commit_is_compare_and_set(s: GroupRun, e: GroupRunEvent, n: GroupRun)
    requires
        run_fits(s, e),
        run_step(s, e, n),
        n is Commit,
        !(s is Commit),
    ensures
        s is Settle,
        e matches GroupRunEvent::SeenForCommit(state) && group_stands(s->Settle_plan, state@),
        n->Commit_plan == s->Settle_plan,
{
}

/// A position whose committed group is the desired one is left alone.
pub proof fn law_group_in_place_is_left_alone(
    desired: ShardAssignment,
    attempt: usize,
    state: ClusterState,
    generation: u64,
    n: GroupRun,
)
    requires
        in_place(state@, desired@),
        run_step(
            GroupRun::Plan { desired, attempt },
            GroupRunEvent::Seen { state, generation },
            n,
        ),
    ensures
        n == GroupRun::Ended(
            Ok(ReassignOutcome::NoChange { position: desired.position, generation }),
        ),
{
}

/// How many steps the move of a group can still take.
pub open spec fn run_steps(s: GroupRun) -> int {
    match s {
        GroupRun::Plan { desired: _, attempt } => 3 * (PLAN_ATTEMPTS - attempt) + 6,
        GroupRun::Reserve { plan: _, attempt } => 3 * (PLAN_ATTEMPTS - attempt) + 5,
        GroupRun::Recheck { plan: _, attempt } => 3 * (PLAN_ATTEMPTS - attempt) + 4,
        GroupRun::Move { .. } => 6,
        GroupRun::Settle { .. } => 5,
        GroupRun::Commit { plan: _, generation: _, attempt } => COMMIT_ATTEMPTS - attempt + 1,
        GroupRun::Ended(_) => 0,
    }
}

/// The move of a group ends.
pub proof fn law_group_run_ends(s: GroupRun, e: GroupRunEvent, n: GroupRun)
    requires
        run_fits(s, e),
        run_valid(s),
        run_step(s, e, n),
    ensures
        run_valid(n),
        0 <= run_steps(n) < run_steps(s),
{
}

/// The plan that a stage works by.
pub open spec fn run_plan(s: GroupRun) -> Option<GroupPlan> {
    match s {
        GroupRun::Reserve { plan, .. } => Some(plan),
        GroupRun::Recheck { plan, .. } => Some(plan),
        GroupRun::Move { plan } => Some(plan),
        GroupRun::Settle { plan, .. } => Some(plan),
        GroupRun::Commit { plan, .. } => Some(plan),
        _ => None,
    }
}

/// An outcome says what happened: the group moved and was committed; or it moved, but the committed
/// group was another by then or every try to commit failed; or it was in place already. It speaks
/// of the planned position and primaries, and names the generation of the swap.
pub proof fn law_a_group_outcome_says_what_happened(s: GroupRun, e: GroupRunEvent, n: GroupRun)
    requires
        run_fits(s, e),
        run_valid(s),
        run_step(s, e, n),
        n matches GroupRun::Ended(Ok(_)),
    ensures
        match n->Ended_0->Ok_0 {
            ReassignOutcome::NoChange { position, generation } => s is Plan && (
            e matches GroupRunEvent::Seen { state, generation: g } && g == generation && in_place(
                state@,
                s->desired@,
            )) && position == s->desired.position,
            ReassignOutcome::Moved { position, from, to, generation } => {
                let p = run_plan(s)->0;
                &&& s is Commit && e is Proposed && e->Proposed_0 is Ok
                &&& position == p.committed.position && from == p.committed.primary && to
                    == p.desired.primary && generation == s->Commit_generation
            },
            ReassignOutcome::Reconciled { .. } => false,
            ReassignOutcome::MovedButNotCommitted { position, from, to, generation, moved } => {
                let p = run_plan(s)->0;
                &&& moved
                &&& position == p.committed.position && from == p.committed.primary && to
                    == p.desired.primary
                &&& s is Settle && generation == s->Settle_generation && (
                e matches GroupRunEvent::SeenForCommit(state) && !group_stands(p, state@)) || s
                    is Commit && generation == s->Commit_generation && s->Commit_attempt + 1
                    == 3 && e is Proposed && e->Proposed_0 is Err
            },
        },
{
}

/// The move of a group sticks to its plan from the reservation to the commit, goes on where it can,
/// and stops with what stopped it.
pub proof fn law_a_group_goes_on_as_planned(s: GroupRun, e: GroupRunEvent, n: GroupRun)
    requires
        run_fits(s, e),
        run_valid(s),
        run_step(s, e, n),
    ensures
        run_plan(s) is Some && run_plan(n) is Some ==> run_plan(n) == run_plan(s),
        e matches GroupRunEvent::Unreadable(x) ==> n == GroupRun::Ended(Err(x)),
        e matches GroupRunEvent::Moved(Err(x)) ==> n == GroupRun::Ended(Err(x)),
        e is Reserved ==> n is Recheck,
        e matches GroupRunEvent::Moved(Ok(g)) ==> n is Settle && n->Settle_generation == g,
        e matches GroupRunEvent::SeenForCommit(state) ==> (n is Commit <==> group_stands(
            run_plan(s)->0,
            state@,
        )),
        e matches GroupRunEvent::SeenAgain { state, movable } ==> (n is Move <==> movable
            && group_unchanged(run_plan(s)->0, state@)),
        n is Plan ==> s is Recheck && n->desired == run_plan(s)->0.desired,
        e is Proposed && e->Proposed_0 is Err && s->Commit_attempt + 1 < 3 ==> n
            is Commit && n->Commit_attempt == s->Commit_attempt + 1,
{
}

/// The operator is told exactly where live routing and the committed map are left apart; where a
/// commit failed, with its error.
pub proof fn law_the_operator_is_told_of_a_group_left_apart(
    s: GroupRun,
    e: GroupRunEvent,
    n: GroupRun,
)
    requires
        run_fits(s, e),
        run_valid(s),
        run_step(s, e, n),
    ensures
        run_notice(s, e) is Some <==> (n matches GroupRun::Ended(Ok(o)) && o is MovedButNotCommitted),
        e matches GroupRunEvent::Proposed(Err(x)) ==> (run_notice(s, e) matches Some(t) ==> t.1
            == x@),
{
}

/// A plan that no longer holds is made again, for the same group, up to four times in all; commits
/// are counted from none.
pub proof fn law_a_group_plan_is_made_again(s: GroupRun, e: GroupRunEvent, n: GroupRun)
    requires
        run_fits(s, e),
        run_valid(s),
        run_step(s, e, n),
    ensures
        s matches GroupRun::Recheck { plan, attempt } ==> (e matches GroupRunEvent::SeenAgain {
            state,
            movable,
        } ==> {
            &&& group_unchanged(plan, state@) && movable ==> n == (GroupRun::Move { plan })
            &&& group_unchanged(plan, state@) && !movable ==> n is Ended && n->Ended_0 is Err
            &&& !group_unchanged(plan, state@) && attempt + 1 < 4 ==> n == (
            GroupRun::Plan { desired: plan.desired, attempt: (attempt + 1) as usize })
            &&& !group_unchanged(plan, state@) && attempt + 1 == 4 ==> n is Ended
                && n->Ended_0 is Err
        }),
        s matches GroupRun::Plan { desired: _, attempt } ==> (n matches GroupRun::Reserve {
            plan: _,
            attempt: a,
        } ==> a == attempt),
        s is Settle && n is Commit ==> n->Commit_attempt == 0 && n->Commit_generation
            == s->Settle_generation,
        s is Commit && n is Commit ==> n->Commit_generation == s->Commit_generation,
{
}

} // verus!
