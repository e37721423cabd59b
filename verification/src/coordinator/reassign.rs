//! Reassigning a position: planning the move, settling it against the committed map, and the
//! reports of a sweep.
//!
//! A move is planned from a read of the committed state, its endpoints are reserved, and a second
//! read must show that nothing changed meanwhile; otherwise it is planned again. The new owner is
//! committed only after the data has moved, and only if the committed entry is still the one that
//! the move was planned from.
use crate::allocator::{entry, find_position};
use crate::control::{AssignmentView, ClusterState, NodeId, ShardAssignment, StateView};
use crate::coordinator::group_move::{Fenced, GroupFault, GroupNotice, MemberRole};
use crate::coordinator::group_plan::{groups_equal, has_id, same_group};
use crate::coordinator::waves::{addr_of, address};
use crate::endpoint::{normalized, normalized_spec};
use crate::shard::{ShardError, ShardErrorView};
use crate::text::{decimal, push_decimal, quote, quoted, same_text, texts, with_number};
use vstd::prelude::*;

verus! {

/// How often a move is planned before it gives up.
pub const PLAN_ATTEMPTS: usize = 4;

/// How often a commit is tried.
pub const COMMIT_ATTEMPTS: usize = 3;

/// What became of a move.
#[derive(Debug, Clone, Copy, PartialEq, Eq, Structural)]
pub enum ReassignOutcome {
    /// The position is already there: nothing moved, nothing was proposed.
    NoChange { position: u32, generation: u64 },
    /// The data moved and the committed map names the new owner.
    Moved { position: u32, from: NodeId, to: NodeId, generation: u64 },
    /// Routing was already there; the committed map now says so too.
    Reconciled { position: u32, from: NodeId, to: NodeId, generation: u64 },
    /// Routing is there, but the committed map does not say so.
    MovedButNotCommitted {
        position: u32,
        from: NodeId,
        to: NodeId,
        generation: u64,
        /// Whether this move flipped the routing.
        moved: bool,
    },
}

/// The position as the control plane and the wire have it.
pub fn control_position(position: usize, context: &str) -> (r: Result<u32, ShardError>)
    ensures
        match r {
            Ok(p) => p == position,
            Err(e) => position > u32::MAX && e@ == ShardErrorView::Config(
                context@ + ": shard position "@ + decimal(position as nat)
                    + " exceeds the u32 wire/control limit"@,
            ),
        },
{
    if position as u64 > u32::MAX as u64 {
        let mut m = String::from_str(context);
        m.append(": shard position ");
        push_decimal(&mut m, position as u64);
        m.append(" exceeds the u32 wire/control limit");
        Err(ShardError::Config(m))
    } else {
        Ok(position as u32)
    }
}

// ---- one target ----

/// What routing knows of a position.
#[derive(Debug)]
pub enum LiveRoute {
    /// The position cannot be moved at all.
    NotMovable,
    /// It can, but it has no remote primary.
    NoPrimary,
    /// Its live primary is this endpoint.
    Primary(String),
}

/// A move of one position to one node, as planned.
#[derive(Debug)]
pub struct SinglePlan {
    pub position: u32,
    /// The committed primary.
    pub from: NodeId,
    pub to: NodeId,
    pub from_endpoint: String,
    /// The live primary's endpoint, from which the data is taken.
    pub live_endpoint: String,
    pub target_endpoint: String,
}

/// Which way a planned move goes.
#[derive(Debug, Clone, Copy, PartialEq, Eq, Structural)]
pub enum HandoffRoute {
    /// Routing already reaches the target.
    AlreadyAtTarget,
    /// The data has to move.
    Move,
}

/// The committed entry of a position that has no replicas and this primary.
pub open spec fn bare_entry(s: StateView, position: u32, primary: NodeId) -> bool {
    match entry(s.assignments, position) {
        Some(a) => a.primary == primary && a.replicas.len() == 0,
        None => false,
    }
}

/// The error of a node without an address.
pub open spec fn no_endpoint_text(context: Seq<char>, id: NodeId) -> Seq<char> {
    context + ": node "@ + decimal(id.0 as nat) + " has no registered endpoint (addr)"@
}

fn endpoint_of(state: &ClusterState, id: NodeId, context: &str) -> (r: Result<String, ShardError>)
    ensures
        match address(state@, id) {
            Some(a) => r matches Ok(t) && t@ == a,
            None => r matches Err(e) && e@ == ShardErrorView::ControlPlane(
                no_endpoint_text(context@, id),
            ),
        },
{
    match addr_of(state, id) {
        Some(a) => Ok(a),
        None => {
            let mut m = String::from_str(context);
            m.append(": node ");
            push_decimal(&mut m, id.0);
            m.append(" has no registered endpoint (addr)");
            Err(ShardError::ControlPlane(m))
        },
    }
}

/// Why a single move cannot be planned, if it cannot: the first of these that holds.
pub open spec fn single_refusal(s: StateView, position: u32, to: NodeId, live: LiveRoute) -> Option<
    ShardErrorView,
> {
    let p = decimal(position as nat);
    match entry(s.assignments, position) {
        None => Some(
            ShardErrorView::ControlPlane(
                "reassign_and_move: no committed assignment for shard position "@ + p + ""@,
            ),
        ),
        Some(a) => if a.replicas.len() != 0 {
            Some(
                ShardErrorView::Config(
                    "reassign_and_move: shard position "@ + p + " has "@ + decimal(a.replicas.len())
                        + " committed replica(s); a single-target move would de-replicate it — use reassign_group_and_move (or rebalance_and_move / reconcile, which dispatch group moves) instead (ADR-094)"@,
                ),
            )
        } else if address(s, a.primary) is None {
            Some(ShardErrorView::ControlPlane(no_endpoint_text("reassign_and_move"@, a.primary)))
        } else if address(s, to) is None {
            Some(ShardErrorView::ControlPlane(no_endpoint_text("reassign_and_move"@, to)))
        } else {
            match live {
                LiveRoute::NotMovable => Some(
                    ShardErrorView::Config(
                        "reassign_and_move: shard position "@ + p
                            + " is not handoff-capable (the cluster was not built via connect_remote/connect_replicated)"@,
                    ),
                ),
                LiveRoute::NoPrimary => Some(
                    ShardErrorView::Config(
                        "reassign_and_move: shard position "@ + p + " has no live remote primary"@,
                    ),
                ),
                LiveRoute::Primary(_) => None,
            }
        },
    }
}

/// The plan is the one for this state, this position and this target.
pub open spec fn single_planned(
    p: SinglePlan,
    s: StateView,
    position: u32,
    to: NodeId,
    live: LiveRoute,
) -> bool {
    &&& p.position == position
    &&& p.to == to
    &&& bare_entry(s, position, p.from)
    &&& address(s, p.from) == Some(p.from_endpoint@)
    &&& address(s, to) == Some(p.target_endpoint@)
    &&& live == LiveRoute::Primary(p.live_endpoint)
}

/// Plans a move of `position` to `to` from a read of the committed state.
pub fn plan_single(state: &ClusterState, position: u32, to: NodeId, live: LiveRoute) -> (r: Result<
    SinglePlan,
    ShardError,
>)
    ensures
        match single_refusal(state@, position, to, live) {
            Some(e) => r matches Err(x) && x@ == e,
            None => r matches Ok(p) && single_planned(p, state@, position, to, live),
        },
{
    let i: usize = match find_position(&state.assignments, position) {
        Some(i) => i,
        None => {
            return Err(
                ShardError::ControlPlane(
                    with_number(
                        "reassign_and_move: no committed assignment for shard position ",
                        position as u64,
                        "",
                    ),
                ),
            );
        },
    };
    let from = state.assignments[i].primary;
    let replicas: usize = state.assignments[i].replicas.len();
    if replicas != 0 {
        let mut m = with_number("reassign_and_move: shard position ", position as u64, " has ");
        push_decimal(&mut m, replicas as u64);
        m.append(
            " committed replica(s); a single-target move would de-replicate it — use reassign_group_and_move (or rebalance_and_move / reconcile, which dispatch group moves) instead (ADR-094)",
        );
        return Err(ShardError::Config(m));
    }
    let from_endpoint = match endpoint_of(state, from, "reassign_and_move") {
        Ok(a) => a,
        Err(e) => {
            return Err(e);
        },
    };
    let target_endpoint = match endpoint_of(state, to, "reassign_and_move") {
        Ok(a) => a,
        Err(e) => {
            return Err(e);
        },
    };
    match live {
        LiveRoute::NotMovable => Err(
            ShardError::Config(
                with_number(
                    "reassign_and_move: shard position ",
                    position as u64,
                    " is not handoff-capable (the cluster was not built via connect_remote/connect_replicated)",
                ),
            ),
        ),
        LiveRoute::NoPrimary => Err(
            ShardError::Config(
                with_number(
                    "reassign_and_move: shard position ",
                    position as u64,
                    " has no live remote primary",
                ),
            ),
        ),
        LiveRoute::Primary(live_endpoint) => Ok(
            SinglePlan { position, from, to, from_endpoint, live_endpoint, target_endpoint },
        ),
    }
}

/// The address of `id` is spelled like `endpoint`, up to letter case and slashes at the end.
pub open spec fn resolves_to(s: StateView, id: NodeId, endpoint: Seq<char>) -> bool {
    match address(s, id) {
        Some(a) => normalized_spec(a) == normalized_spec(endpoint),
        None => false,
    }
}

fn still_resolves(state: &ClusterState, id: NodeId, endpoint: &String) -> (r: bool)
    ensures
        r == resolves_to(state@, id, endpoint@),
{
    match addr_of(state, id) {
        Some(a) => same_text(&normalized(a.as_str()), &normalized(endpoint.as_str())),
        None => false,
    }
}

fn is_bare(state: &ClusterState, position: u32, primary: NodeId) -> (r: bool)
    ensures
        r == bare_entry(state@, position, primary),
{
    match find_position(&state.assignments, position) {
        Some(i) => state.assignments[i].primary.0 == primary.0
            && state.assignments[i].replicas.len() == 0,
        None => false,
    }
}

/// Nothing that the plan rests on has changed.
pub open spec fn single_unchanged(p: SinglePlan, now: StateView, live_now: Seq<char>) -> bool {
    &&& bare_entry(now, p.position, p.from)
    &&& resolves_to(now, p.from, p.from_endpoint@)
    &&& resolves_to(now, p.to, p.target_endpoint@)
    &&& normalized_spec(live_now) == normalized_spec(p.live_endpoint@)
}

/// What a second read, with the endpoints reserved, says of a plan.
#[derive(Debug)]
pub enum Recheck {
    /// Go ahead.
    Ready,
    /// Something changed: give the endpoints back and plan again.
    Again { attempt: usize },
}

/// Checks a plan, made in attempt `attempt`, against a second read of the state and of the live
/// primary.
pub fn recheck_single(plan: &SinglePlan, now: &ClusterState, live_now: Option<String>, attempt: usize) -> (r:
    Result<Recheck, ShardError>)
    requires
        attempt < PLAN_ATTEMPTS,
    ensures
        match live_now {
            None => r matches Err(e) && e@ == ShardErrorView::Config(
                "reassign_and_move: shard position "@ + decimal(plan.position as nat)
                    + " lost its live remote primary"@,
            ),
            Some(live) => if single_unchanged(*plan, now@, live@) {
                r == Ok::<Recheck, ShardError>(Recheck::Ready)
            } else if attempt + 1 < PLAN_ATTEMPTS {
                r == Ok::<Recheck, ShardError>(Recheck::Again { attempt: (attempt + 1) as usize })
            } else {
                r matches Err(e) && e@ == ShardErrorView::ControlPlane(
                    "reassign_and_move: the committed assignment or live primary for shard position "@
                        + decimal(plan.position as nat)
                        + " kept changing while planning (4 attempts); retry once routing stops churning"@,
                )
            },
        },
{
    let live = match live_now {
        Some(l) => l,
        None => {
            return Err(
                ShardError::Config(
                    with_number(
                        "reassign_and_move: shard position ",
                        plan.position as u64,
                        " lost its live remote primary",
                    ),
                ),
            );
        },
    };
    let unchanged: bool = is_bare(now, plan.position, plan.from) && still_resolves(
        now,
        plan.from,
        &plan.from_endpoint,
    ) && still_resolves(now, plan.to, &plan.target_endpoint) && same_text(
        &normalized(live.as_str()),
        &normalized(plan.live_endpoint.as_str()),
    );
    if unchanged {
        Ok(Recheck::Ready)
    } else if attempt + 1 < PLAN_ATTEMPTS {
        Ok(Recheck::Again { attempt: attempt + 1 })
    } else {
        Err(
            ShardError::ControlPlane(
                with_number(
                    "reassign_and_move: the committed assignment or live primary for shard position ",
                    plan.position as u64,
                    " kept changing while planning (4 attempts); retry once routing stops churning",
                ),
            ),
        )
    }
}

/// What is left to do once routing reaches the target.
#[derive(Debug)]
pub enum Settled {
    /// Nothing.
    Done(ReassignOutcome),
    /// The committed map changed meanwhile; the operator is told, and nothing is committed.
    Superseded { outcome: ReassignOutcome, detail: String },
    /// This assignment is to be committed.
    Commit(ShardAssignment),
}

impl SinglePlan {
    /// The endpoints to reserve.
    pub fn footprint(&self) -> (r: Vec<String>)
        ensures
            texts(r@) == seq![self.from_endpoint@, self.live_endpoint@, self.target_endpoint@],
    {
        let mut v: Vec<String> = Vec::new();
        v.push(self.from_endpoint.clone());
        v.push(self.live_endpoint.clone());
        v.push(self.target_endpoint.clone());
        assert(texts(v@) =~= seq![
            self.from_endpoint@,
            self.live_endpoint@,
            self.target_endpoint@,
        ]);
        v
    }

    /// Which way the move goes.
    pub fn route(&self) -> (r: HandoffRoute)
        ensures
            r == if normalized_spec(self.live_endpoint@) == normalized_spec(
                self.target_endpoint@,
            ) {
                HandoffRoute::AlreadyAtTarget
            } else {
                HandoffRoute::Move
            },
    {
        if same_text(
            &normalized(self.live_endpoint.as_str()),
            &normalized(self.target_endpoint.as_str()),
        ) {
            HandoffRoute::AlreadyAtTarget
        } else {
            HandoffRoute::Move
        }
    }

    /// The outcome of a commit.
    pub fn committed(&self, generation: u64, moved: bool) -> (r: ReassignOutcome)
        ensures
            r == if moved {
                ReassignOutcome::Moved {
                    position: self.position,
                    from: self.from,
                    to: self.to,
                    generation,
                }
            } else {
                ReassignOutcome::Reconciled {
                    position: self.position,
                    from: self.from,
                    to: self.to,
                    generation,
                }
            },
    {
        if moved {
            ReassignOutcome::Moved {
                position: self.position,
                from: self.from,
                to: self.to,
                generation,
            }
        } else {
            ReassignOutcome::Reconciled {
                position: self.position,
                from: self.from,
                to: self.to,
                generation,
            }
        }
    }

    /// The outcome without a commit.
    pub fn uncommitted(&self, generation: u64, moved: bool) -> (r: ReassignOutcome)
        ensures
            r == (ReassignOutcome::MovedButNotCommitted {
                position: self.position,
                from: self.from,
                to: self.to,
                generation,
                moved,
            }),
    {
        ReassignOutcome::MovedButNotCommitted {
            position: self.position,
            from: self.from,
            to: self.to,
            generation,
            moved,
        }
    }

    /// Settles a move whose routing reaches the target against a fresh read of the state.
    pub fn settle(&self, now: &ClusterState, generation: u64, moved: bool) -> (r: Settled)
        ensures
            if !bare_entry(now@, self.position, self.from) {
                r matches Settled::Superseded { outcome, detail } && outcome
                    == (ReassignOutcome::MovedButNotCommitted {
                    position: self.position,
                    from: self.from,
                    to: self.to,
                    generation,
                    moved,
                }) && detail@ == "reassign_and_move made shard "@ + decimal(self.position as nat)
                    + " live on node "@ + decimal(self.to.0 as nat)
                    + " but the committed primary changed under it (a concurrent reassign); not overwriting the map. Re-run to reconcile."@
            } else if self.from == self.to && normalized_spec(self.from_endpoint@)
                == normalized_spec(self.target_endpoint@) {
                r == Settled::Done(
                    if moved {
                        ReassignOutcome::Moved {
                            position: self.position,
                            from: self.from,
                            to: self.to,
                            generation,
                        }
                    } else {
                        ReassignOutcome::NoChange { position: self.position, generation }
                    },
                )
            } else {
                r matches Settled::Commit(a) && a@ == (AssignmentView {
                    position: self.position,
                    primary: self.to,
                    replicas: Seq::empty(),
                })
            },
    {
        if !is_bare(now, self.position, self.from) {
            let mut m = with_number(
                "reassign_and_move made shard ",
                self.position as u64,
                " live on node ",
            );
            push_decimal(&mut m, self.to.0);
            m.append(
                " but the committed primary changed under it (a concurrent reassign); not overwriting the map. Re-run to reconcile.",
            );
            return Settled::Superseded {
                outcome: self.uncommitted(generation, moved),
                detail: m,
            };
        }
        if self.from.0 == self.to.0 && same_text(
            &normalized(self.from_endpoint.as_str()),
            &normalized(self.target_endpoint.as_str()),
        ) {
            if moved {
                return Settled::Done(self.committed(generation, true));
            }
            return Settled::Done(
                ReassignOutcome::NoChange { position: self.position, generation },
            );
        }
        let a = ShardAssignment {
            position: self.position,
            primary: self.to,
            replicas: Vec::new(),
        };
        assert(a@.replicas =~= Seq::empty());
        Settled::Commit(a)
    }

    /// What the operator is told when no commit went through.
    pub fn commit_failed_detail(&self) -> (r: String)
        ensures
            r@ == "reassign_and_move made shard "@ + decimal(self.position as nat)
                + " live on node "@ + decimal(self.to.0 as nat)
                + " but committing the new owner failed after 3 attempts; live routing stays on node "@
                + decimal(self.to.0 as nat) + " and the committed map still names node "@ + decimal(
                self.from.0 as nat,
            ) + ". Re-run promptly to reconcile before a coordinator restart."@,
    {
        let mut m = with_number(
            "reassign_and_move made shard ",
            self.position as u64,
            " live on node ",
        );
        push_decimal(&mut m, self.to.0);
        m.append(
            " but committing the new owner failed after 3 attempts; live routing stays on node ",
        );
        push_decimal(&mut m, self.to.0);
        m.append(" and the committed map still names node ");
        push_decimal(&mut m, self.from.0);
        m.append(". Re-run promptly to reconcile before a coordinator restart.");
        m
    }
}

/// What follows a try to commit.
#[derive(Debug, Clone, Copy, PartialEq, Eq, Structural)]
pub enum CommitStep {
    /// It went through.
    Committed,
    /// Pause, then try again.
    Retry { attempt: usize },
    /// It failed for the last time.
    GiveUp,
}

/// What follows try number `attempt`, counted from zero.
pub fn after_commit(attempt: usize, ok: bool) -> (r: CommitStep)
    requires
        attempt < COMMIT_ATTEMPTS,
    ensures
        r == if ok {
            CommitStep::Committed
        } else if attempt + 1 < COMMIT_ATTEMPTS {
            CommitStep::Retry { attempt: (attempt + 1) as usize }
        } else {
            CommitStep::GiveUp
        },
{
    if ok {
        CommitStep::Committed
    } else if attempt + 1 < COMMIT_ATTEMPTS {
        CommitStep::Retry { attempt: attempt + 1 }
    } else {
        CommitStep::GiveUp
    }
}

// ---- a whole group ----

/// A member of a planned group and its endpoint.
#[derive(Debug)]
pub struct Member {
    pub id: NodeId,
    pub endpoint: String,
}

/// A member, as a mathematical value.
pub ghost struct MemberView {
    pub id: NodeId,
    pub endpoint: Seq<char>,
}

/// The members as mathematical values.
pub open spec fn member_views(v: Seq<Member>) -> Seq<MemberView> {
    v.map_values(|m: Member| MemberView { id: m.id, endpoint: m.endpoint@ })
}

/// A move of a position's group, as planned.
#[derive(Debug)]
pub struct GroupPlan {
    /// The committed group that the plan starts from.
    pub committed: ShardAssignment,
    /// The committed primary's endpoint: the source.
    pub source_endpoint: String,
    /// The desired members, primary first.
    pub members: Vec<Member>,
    pub desired: ShardAssignment,
}

/// The ids of a group, primary first.
pub open spec fn group_ids(a: AssignmentView) -> Seq<NodeId> {
    seq![a.primary] + a.replicas
}

/// The debug form of one member.
pub open spec fn member_text(m: MemberView) -> Seq<char> {
    "(NodeId("@ + decimal(m.id.0 as nat) + "), "@ + quoted(m.endpoint) + ")"@
}

/// The debug form of a list of members.
pub open spec fn members_text(v: Seq<MemberView>) -> Seq<char> {
    "["@ + crate::text::joined(v.map_values(|m: MemberView| member_text(m)), ", "@) + "]"@
}

/// Two members have the same endpoint.
pub open spec fn shares_endpoint(v: Seq<MemberView>) -> bool {
    exists|i: int, j: int|
        0 <= i < j < v.len() && (#[trigger] v[i]).endpoint == (#[trigger] v[j]).endpoint
}

/// The members of `a` with their addresses, where all have one.
pub open spec fn resolved(s: StateView, ids: Seq<NodeId>) -> Seq<MemberView> {
    ids.map_values(|id: NodeId| MemberView { id, endpoint: address(s, id)->0 })
}

/// The first of the ids that has no address.
pub open spec fn unresolved(s: StateView, ids: Seq<NodeId>) -> Option<NodeId> {
    crate::seqs::find(ids, |id: NodeId| address(s, id) is None)
}

/// Why a group move cannot be planned, if it cannot: the first of these that holds. A group that is
/// already in place needs no plan.
pub open spec fn group_refusal(s: StateView, desired: AssignmentView) -> Option<ShardErrorView> {
    let p = decimal(desired.position as nat);
    match entry(s.assignments, desired.position) {
        None => Some(
            ShardErrorView::ControlPlane(
                "reassign_group_and_move: no committed assignment for shard position "@ + p + ""@,
            ),
        ),
        Some(c) => {
            let ids = seq![c.primary] + group_ids(desired);
            match unresolved(s, ids) {
                Some(id) => Some(
                    ShardErrorView::ControlPlane(
                        no_endpoint_text("reassign_group_and_move"@, id),
                    ),
                ),
                None => {
                    let members = resolved(s, group_ids(desired));
                    if shares_endpoint(members) {
                        Some(
                            ShardErrorView::Config(
                                "reassign_group_and_move: desired group for position "@ + p
                                    + " resolves two members to one endpoint ("@ + members_text(
                                    members,
                                ) + ")"@,
                            ),
                        )
                    } else {
                        None
                    }
                },
            }
        },
    }
}

fn push_member_text(out: &mut String, m: &Member)
    ensures
        final(out)@ == old(out)@ + member_text(MemberView { id: m.id, endpoint: m.endpoint@ }),
{
    out.append("(NodeId(");
    push_decimal(out, m.id.0);
    out.append("), ");
    out.append(quote(m.endpoint.as_str()).as_str());
    out.append(")");
    assert(out@ =~= old(out)@ + member_text(MemberView { id: m.id, endpoint: m.endpoint@ }));
}

fn describe_members(v: &Vec<Member>) -> (r: String)
    ensures
        r@ == members_text(member_views(v@)),
{
    let n: usize = v.len();
    let ghost parts = member_views(v@).map_values(|m: MemberView| member_text(m));
    let mut out = String::from_str("[");
    let mut i: usize = 0;
    assert(out@ =~= "["@ + crate::text::joined(parts.take(0), ", "@));
    while i < n
        invariant
            n == v@.len(),
            parts == member_views(v@).map_values(|m: MemberView| member_text(m)),
            i <= n,
            out@ == "["@ + crate::text::joined(parts.take(i as int), ", "@),
        decreases n - i,
    {
        let ghost before = out@;
        proof {
            assert(parts.take(i + 1).drop_last() =~= parts.take(i as int));
            assert(parts.take(i + 1).last() == member_text(
                MemberView { id: v@[i as int].id, endpoint: v@[i as int].endpoint@ },
            ));
        }
        if i > 0 {
            out.append(", ");
        }
        push_member_text(&mut out, &v[i]);
        proof {
            assert(out@ =~= "["@ + crate::text::joined(parts.take(i + 1), ", "@));
        }
        i = i + 1;
    }
    assert(parts.take(n as int) =~= parts);
    out.append("]");
    out
}

fn has_shared_endpoint(v: &Vec<Member>) -> (r: bool)
    ensures
        r == shares_endpoint(member_views(v@)),
{
    let n: usize = v.len();
    let ghost mv = member_views(v@);
    let mut i: usize = 0;
    while i < n
        invariant
            n == v@.len(),
            mv == member_views(v@),
            i <= n,
            forall|a: int, b: int|
                0 <= a < b < n && a < i ==> (#[trigger] mv[a]).endpoint != (#[trigger] mv[b]).endpoint,
        decreases n - i,
    {
        let mut j: usize = i + 1;
        while j < n
            invariant
                n == v@.len(),
                mv == member_views(v@),
                i < j <= n,
                forall|b: int| i < b < j ==> mv[i as int].endpoint != (#[trigger] mv[b]).endpoint,
            decreases n - j,
        {
            assert(mv[i as int].endpoint == v@[i as int].endpoint@);
            assert(mv[j as int].endpoint == v@[j as int].endpoint@);
            if same_text(&v[i].endpoint, &v[j].endpoint) {
                assert(mv[i as int].endpoint == mv[j as int].endpoint);
                return true;
            }
            j = j + 1;
        }
        i = i + 1;
    }
    false
}

/// What planning a group move gives.
#[derive(Debug)]
pub enum GroupPlanned {
    /// The committed group is already the desired one.
    InPlace,
    /// The group has to move.
    Plan(GroupPlan),
}

/// Whether the committed group is already the desired one.
pub open spec fn in_place(s: StateView, desired: AssignmentView) -> bool {
    match entry(s.assignments, desired.position) {
        Some(c) => same_group(c, desired),
        None => false,
    }
}

/// The plan is the one for this state and this desired group.
pub open spec fn plan_matches(p: GroupPlan, s: StateView, desired: AssignmentView) -> bool {
    &&& entry(s.assignments, desired.position) == Some(p.committed@)
    &&& address(s, p.committed.primary) == Some(p.source_endpoint@)
    &&& member_views(p.members@) == resolved(s, group_ids(desired))
    &&& p.desired@ == desired
}

/// Plans a move of the group of `desired.position` to `desired`.
pub fn plan_group(state: &ClusterState, desired: &ShardAssignment) -> (r: Result<
    GroupPlanned,
    ShardError,
>)
    ensures
        if in_place(state@, desired@) {
            r == Ok::<GroupPlanned, ShardError>(GroupPlanned::InPlace)
        } else {
            match group_refusal(state@, desired@) {
                Some(e) => r matches Err(x) && x@ == e,
                None => r matches Ok(GroupPlanned::Plan(p)) && plan_matches(p, state@, desired@),
            }
        },
{
    let context = "reassign_group_and_move";
    let i: usize = match find_position(&state.assignments, desired.position) {
        Some(i) => i,
        None => {
            return Err(
                ShardError::ControlPlane(
                    with_number(
                        "reassign_group_and_move: no committed assignment for shard position ",
                        desired.position as u64,
                        "",
                    ),
                ),
            );
        },
    };
    let committed = state.assignments[i].duplicate();
    if groups_equal(&committed, desired) {
        return Ok(GroupPlanned::InPlace);
    }
    let ghost s = state@;
    let ghost missing = |id: NodeId| address(s, id) is None;
    let ghost ids = seq![committed.primary] + group_ids(desired@);
    let source_endpoint = match endpoint_of(state, committed.primary, context) {
        Ok(a) => a,
        Err(e) => {
            proof {
                assert(ids[0] == committed.primary);
                crate::seqs::lemma_find_at(ids, missing, 0);
            }
            return Err(e);
        },
    };
    let mut members: Vec<Member> = Vec::new();
    let n: usize = desired.replicas.len();
    let ghost want = group_ids(desired@);
    let first = match endpoint_of(state, desired.primary, context) {
        Ok(a) => a,
        Err(e) => {
            proof {
                assert(ids[1] == desired.primary);
                assert forall|j: int| 0 <= j < 1 implies !missing(#[trigger] ids[j]) by {
                    assert(ids[0] == committed.primary);
                }
                crate::seqs::lemma_find_at(ids, missing, 1);
            }
            return Err(e);
        },
    };
    members.push(Member { id: desired.primary, endpoint: first });
    assert(member_views(members@) =~= resolved(s, want.take(1)));
    let mut k: usize = 0;
    while k < n
        invariant
            n == desired.replicas@.len(),
            s == state@,
            context@ == "reassign_group_and_move"@,
            want == group_ids(desired@),
            ids == seq![committed.primary] + want,
            missing == (|id: NodeId| address(s, id) is None),
            k <= n,
            member_views(members@) == resolved(s, want.take(k + 1)),
            entry(s.assignments, desired@.position) == Some(committed@),
            !in_place(s, desired@),
            forall|j: int| 0 <= j < k + 2 ==> !missing(#[trigger] ids[j]),
        decreases n - k,
    {
        let id = desired.replicas[k];
        assert(ids[k + 2] == id);
        match endpoint_of(state, id, context) {
            Ok(a) => {
                let ghost before = members@;
                members.push(Member { id, endpoint: a });
                proof {
                    let m = MemberView { id, endpoint: a@ };
                    assert(member_views(members@) =~= member_views(before).push(m));
                    assert(want.take(k + 2) =~= want.take(k + 1).push(id));
                    assert(member_views(members@) =~= resolved(s, want.take(k + 2)));
                }
            },
            Err(e) => {
                proof {
                    crate::seqs::lemma_find_at(ids, missing, k + 2);
                }
                return Err(e);
            },
        }
        k = k + 1;
    }
    proof {
        assert(want.take(n + 1) =~= want);
        crate::seqs::lemma_find_none(ids, missing);
    }
    if has_shared_endpoint(&members) {
        let mut m = with_number(
            "reassign_group_and_move: desired group for position ",
            desired.position as u64,
            " resolves two members to one endpoint (",
        );
        m.append(describe_members(&members).as_str());
        m.append(")");
        return Err(ShardError::Config(m));
    }
    Ok(
        GroupPlanned::Plan(
            GroupPlan { committed, source_endpoint, members, desired: desired.duplicate() },
        ),
    )
}

/// Checks that the desired group is for the position that is to move.
pub fn check_group_request(position: usize, desired: &ShardAssignment) -> (r: Result<
    u32,
    ShardError,
>)
    ensures
        match r {
            Ok(p) => p == position && desired.position == p,
            Err(e) => if position > u32::MAX {
                e@ == ShardErrorView::Config(
                    "reassign_group_and_move"@ + ": shard position "@ + decimal(position as nat)
                        + " exceeds the u32 wire/control limit"@,
                )
            } else {
                desired.position != position && e@ == ShardErrorView::Config(
                    "reassign_group_and_move: desired assignment names position "@ + decimal(
                        desired.position as nat,
                    ) + " but the move is for position "@ + decimal(position as nat),
                )
            },
        },
{
    let p: u32 = match control_position(position, "reassign_group_and_move") {
        Ok(p) => p,
        Err(e) => {
            return Err(e);
        },
    };
    if desired.position != p {
        let mut m = with_number(
            "reassign_group_and_move: desired assignment names position ",
            desired.position as u64,
            " but the move is for position ",
        );
        push_decimal(&mut m, p as u64);
        return Err(ShardError::Config(m));
    }
    Ok(p)
}

/// The role of a member in the move of a committed group.
pub open spec fn role_of(committed: AssignmentView, id: NodeId) -> MemberRole {
    if id == committed.primary {
        MemberRole::Source
    } else if committed.replicas.contains(id) {
        MemberRole::Retained
    } else {
        MemberRole::Fresh
    }
}

/// Nothing that the plan rests on has changed.
pub open spec fn group_unchanged(p: GroupPlan, now: StateView) -> bool {
    &&& match entry(now.assignments, p.committed.position) {
        Some(a) => same_group(a, p.committed@),
        None => false,
    }
    &&& address(now, p.committed.primary) == Some(p.source_endpoint@)
    &&& forall|i: int|
        0 <= i < p.members@.len() ==> address(now, (#[trigger] p.members@[i]).id) == Some(
            p.members@[i].endpoint@,
        )
}

fn has_address(state: &ClusterState, id: NodeId, endpoint: &String) -> (r: bool)
    ensures
        r == (address(state@, id) == Some(endpoint@)),
{
    match addr_of(state, id) {
        Some(a) => same_text(&a, endpoint),
        None => false,
    }
}

/// The committed group is still the planned-from one.
pub open spec fn group_stands(p: GroupPlan, now: StateView) -> bool {
    match entry(now.assignments, p.committed.position) {
        Some(a) => same_group(a, p.committed@),
        None => false,
    }
}

impl GroupPlan {
    /// The endpoints to reserve.
    pub fn footprint(&self) -> (r: Vec<String>)
        ensures
            texts(r@) == seq![self.source_endpoint@] + member_views(self.members@).map_values(
                |m: MemberView| m.endpoint,
            ),
    {
        let mut v: Vec<String> = Vec::new();
        v.push(self.source_endpoint.clone());
        let ghost eps = member_views(self.members@).map_values(|m: MemberView| m.endpoint);
        let n: usize = self.members.len();
        let mut i: usize = 0;
        assert(texts(v@) =~= seq![self.source_endpoint@] + eps.take(0));
        while i < n
            invariant
                n == self.members@.len(),
                eps == member_views(self.members@).map_values(|m: MemberView| m.endpoint),
                i <= n,
                texts(v@) == seq![self.source_endpoint@] + eps.take(i as int),
            decreases n - i,
        {
            let ghost before = texts(v@);
            v.push(self.members[i].endpoint.clone());
            proof {
                assert(texts(v@) =~= before.push(eps[i as int]));
                assert(texts(v@) =~= seq![self.source_endpoint@] + eps.take(i + 1));
            }
            i = i + 1;
        }
        assert(eps.take(n as int) =~= eps);
        v
    }

    /// The roles of the desired members.
    pub fn roles(&self) -> (r: Vec<MemberRole>)
        ensures
            r@ == self.members@.map_values(|m: Member| role_of(self.committed@, m.id)),
    {
        let n: usize = self.members.len();
        let mut r: Vec<MemberRole> = Vec::new();
        let mut i: usize = 0;
        while i < n
            invariant
                n == self.members@.len(),
                i <= n,
                r@.len() == i,
                forall|k: int|
                    0 <= k < i ==> #[trigger] r@[k] == role_of(
                        self.committed@,
                        self.members@[k].id,
                    ),
            decreases n - i,
        {
            let id = self.members[i].id;
            if id.0 == self.committed.primary.0 {
                r.push(MemberRole::Source);
            } else if has_id(&self.committed.replicas, id) {
                r.push(MemberRole::Retained);
            } else {
                r.push(MemberRole::Fresh);
            }
            i = i + 1;
        }
        assert(r@ =~= self.members@.map_values(|m: Member| role_of(self.committed@, m.id)));
        r
    }

    fn stands(&self, now: &ClusterState) -> (r: bool)
        ensures
            r == group_stands(*self, now@),
    {
        match find_position(&now.assignments, self.committed.position) {
            Some(i) => groups_equal(&now.assignments[i], &self.committed),
            None => false,
        }
    }

    /// Checks the plan, made in attempt `attempt`, against a second read of the state.
    pub fn recheck(&self, now: &ClusterState, attempt: usize) -> (r: Result<Recheck, ShardError>)
        requires
            attempt < PLAN_ATTEMPTS,
        ensures
            if group_unchanged(*self, now@) {
                r == Ok::<Recheck, ShardError>(Recheck::Ready)
            } else if attempt + 1 < PLAN_ATTEMPTS {
                r == Ok::<Recheck, ShardError>(Recheck::Again { attempt: (attempt + 1) as usize })
            } else {
                r matches Err(e) && e@ == ShardErrorView::ControlPlane(
                    "reassign_group_and_move: the committed group for shard position "@ + decimal(
                        self.committed.position as nat,
                    )
                        + " kept changing while planning the move (4 attempts); retry once the map stops churning"@,
                )
            },
    {
        let mut unchanged: bool = self.stands(now) && has_address(
            now,
            self.committed.primary,
            &self.source_endpoint,
        );
        let n: usize = self.members.len();
        let mut i: usize = 0;
        while i < n && unchanged
            invariant
                n == self.members@.len(),
                i <= n,
                unchanged ==> group_stands(*self, now@) && address(now@, self.committed.primary)
                    == Some(self.source_endpoint@) && forall|k: int|
                    0 <= k < i ==> address(now@, (#[trigger] self.members@[k]).id) == Some(
                        self.members@[k].endpoint@,
                    ),
                !unchanged ==> !group_unchanged(*self, now@),
            decreases n - i,
        {
            if !has_address(now, self.members[i].id, &self.members[i].endpoint) {
                assert(address(now@, self.members@[i as int].id) != Some(
                    self.members@[i as int].endpoint@,
                ));
                unchanged = false;
            }
            i = i + 1;
        }
        if unchanged {
            Ok(Recheck::Ready)
        } else if attempt + 1 < PLAN_ATTEMPTS {
            Ok(Recheck::Again { attempt: attempt + 1 })
        } else {
            Err(
                ShardError::ControlPlane(
                    with_number(
                        "reassign_group_and_move: the committed group for shard position ",
                        self.committed.position as u64,
                        " kept changing while planning the move (4 attempts); retry once the map stops churning",
                    ),
                ),
            )
        }
    }

    /// Settles a move whose routing is swapped against a fresh read of the state.
    pub fn settle(&self, now: &ClusterState, generation: u64) -> (r: Settled)
        ensures
            if !group_stands(*self, now@) {
                r matches Settled::Superseded { outcome, detail } && outcome
                    == (ReassignOutcome::MovedButNotCommitted {
                    position: self.committed.position,
                    from: self.committed.primary,
                    to: self.desired.primary,
                    generation,
                    moved: true,
                }) && detail@ == "reassign_group_and_move moved shard "@ + decimal(
                    self.committed.position as nat,
                ) + "'s group to primary node "@ + decimal(self.desired.primary.0 as nat)
                    + " and flipped routing, but the committed group changed under it (a concurrent reassign); not overwriting the committed map. Re-run to reconcile."@
            } else {
                r matches Settled::Commit(a) && a@ == self.desired@
            },
    {
        if self.stands(now) {
            Settled::Commit(self.desired.duplicate())
        } else {
            let mut m = with_number(
                "reassign_group_and_move moved shard ",
                self.committed.position as u64,
                "'s group to primary node ",
            );
            push_decimal(&mut m, self.desired.primary.0);
            m.append(
                " and flipped routing, but the committed group changed under it (a concurrent reassign); not overwriting the committed map. Re-run to reconcile.",
            );
            Settled::Superseded { outcome: self.uncommitted(generation), detail: m }
        }
    }

    /// The outcome of a commit.
    pub fn committed_outcome(&self, generation: u64) -> (r: ReassignOutcome)
        ensures
            r == (ReassignOutcome::Moved {
                position: self.committed.position,
                from: self.committed.primary,
                to: self.desired.primary,
                generation,
            }),
    {
        ReassignOutcome::Moved {
            position: self.committed.position,
            from: self.committed.primary,
            to: self.desired.primary,
            generation,
        }
    }

    /// The outcome without a commit.
    pub fn uncommitted(&self, generation: u64) -> (r: ReassignOutcome)
        ensures
            r == (ReassignOutcome::MovedButNotCommitted {
                position: self.committed.position,
                from: self.committed.primary,
                to: self.desired.primary,
                generation,
                moved: true,
            }),
    {
        ReassignOutcome::MovedButNotCommitted {
            position: self.committed.position,
            from: self.committed.primary,
            to: self.desired.primary,
            generation,
            moved: true,
        }
    }

    /// What the operator is told when no commit went through.
    pub fn commit_failed_detail(&self) -> (r: String)
        ensures
            r@ == "reassign_group_and_move moved shard "@ + decimal(self.committed.position as nat)
                + "'s group to primary node "@ + decimal(self.desired.primary.0 as nat)
                + " and flipped routing, but committing the new group failed after 3 attempts; live routing stays on the new group (which holds every acked write) and the committed map still names the reads-serving old group — re-run to reconcile the durable map (idempotent)."@,
    {
        let mut m = with_number(
            "reassign_group_and_move moved shard ",
            self.committed.position as u64,
            "'s group to primary node ",
        );
        push_decimal(&mut m, self.desired.primary.0);
        m.append(
            " and flipped routing, but committing the new group failed after 3 attempts; live routing stays on the new group (which holds every acked write) and the committed map still names the reads-serving old group — re-run to reconcile the durable map (idempotent).",
        );
        m
    }

    /// The error of a move that did not swap.
    pub fn fault_error(&self, fault: GroupFault<ShardError>, cap: usize) -> (r: ShardError)
        ensures
            r@ == fault_view(fault, self.source_endpoint@, cap),
    {
        match fault {
            GroupFault::Reported(e) => e,
            GroupFault::StaleFence { who, stale, now } => {
                let mut m = String::from_str(
                    match who {
                        Fenced::Source => "reassign_group_and_move: source",
                        Fenced::Fresh => "reassign_group_and_move: fresh member",
                        Fenced::Retained => "reassign_group_and_move: retained member",
                    },
                );
                m.append(": clearing a stale fence (generation ");
                push_decimal(&mut m, stale);
                m.append(
                    ") on a group member failed — the slot is still fenced at generation ",
                );
                push_decimal(&mut m, now);
                m.append(" (a concurrent handoff?)");
                ShardError::Remote(m)
            },
            GroupFault::NotFrozen { past } => {
                let mut m = String::from_str("reassign_group_and_move: fenced source ");
                m.append(self.source_endpoint.as_str());
                m.append(" did not converge (tail still advancing past ");
                push_decimal(&mut m, past);
                m.append(") within ");
                push_decimal(&mut m, cap as u64);
                m.append(" passes; aborting the flip to avoid dropping a write");
                ShardError::Remote(m)
            },
            GroupFault::FreshBehind => ShardError::Remote(
                with_number(
                    "reassign_group_and_move: fresh member did not converge on the frozen source within ",
                    cap as u64,
                    " passes; aborting the flip",
                ),
            ),
            GroupFault::RetainedTail { tail, seal } => {
                let mut m = with_number(
                    "reassign_group_and_move: retained member re-established from the frozen source still had a translog tail past its seal point (",
                    tail,
                    " > ",
                );
                push_decimal(&mut m, seal);
                m.append(") — the source is not actually frozen; aborting the flip");
                ShardError::Remote(m)
            },
        }
    }

    /// What the operator is told of a notice.
    pub fn notice_detail<E>(&self, notice: &GroupNotice<E>) -> (r: String)
        ensures
            r@ == match notice {
                GroupNotice::FenceCleanupFailed(_) =>
                    "fence failed during a group move and the CAS-safe unfence cleanup also failed; if the server had applied the fence the source remains fenced and needs manual recovery"@,
                GroupNotice::UnfenceFailed(_) =>
                    "auto-unfence after an aborted group move failed; the source remains fenced at the move generation and needs manual recovery"@,
                GroupNotice::RetainedUnfenceFailed(_) => "group move of shard "@ + decimal(
                    self.committed.position as nat,
                ) + ": unfencing the retained source (node "@ + decimal(
                    self.committed.primary.0 as nat,
                )
                    + ") after the swap failed; its first replicated write will desync it (degraded redundancy, zero-FN) until peer re-recovery"@,
                GroupNotice::ReleaseFailed(_) =>
                    "releasing the group-move retention lease on the source failed; the old primary may retain extra translog until its next successful seal"@,
            },
    {
        match notice {
            GroupNotice::FenceCleanupFailed(_) => String::from_str(
                "fence failed during a group move and the CAS-safe unfence cleanup also failed; if the server had applied the fence the source remains fenced and needs manual recovery",
            ),
            GroupNotice::UnfenceFailed(_) => String::from_str(
                "auto-unfence after an aborted group move failed; the source remains fenced at the move generation and needs manual recovery",
            ),
            GroupNotice::RetainedUnfenceFailed(_) => {
                let mut m = with_number(
                    "group move of shard ",
                    self.committed.position as u64,
                    ": unfencing the retained source (node ",
                );
                push_decimal(&mut m, self.committed.primary.0);
                m.append(
                    ") after the swap failed; its first replicated write will desync it (degraded redundancy, zero-FN) until peer re-recovery",
                );
                m
            },
            GroupNotice::ReleaseFailed(_) => String::from_str(
                "releasing the group-move retention lease on the source failed; the old primary may retain extra translog until its next successful seal",
            ),
        }
    }
}

/// The error of a group move that did not swap.
pub open spec fn fault_view(fault: GroupFault<ShardError>, source: Seq<char>, cap: usize) -> ShardErrorView {
    match fault {
        GroupFault::Reported(e) => e@,
        GroupFault::StaleFence { who, stale, now } => ShardErrorView::Remote(
            stale_fence_text(who, stale, now),
        ),
        GroupFault::NotFrozen { past } => ShardErrorView::Remote(
            not_frozen_text(source, past, cap),
        ),
        GroupFault::FreshBehind => ShardErrorView::Remote(
            "reassign_group_and_move: fresh member did not converge on the frozen source within "@
                + decimal(cap as nat) + " passes; aborting the flip"@,
        ),
        GroupFault::RetainedTail { tail, seal } => ShardErrorView::Remote(
            "reassign_group_and_move: retained member re-established from the frozen source still had a translog tail past its seal point ("@
                + decimal(tail as nat) + " > "@ + decimal(seal as nat)
                + ") — the source is not actually frozen; aborting the flip"@,
        ),
    }
}

/// The error of a fence that could not be lifted.
pub open spec fn stale_fence_text(who: Fenced, stale: u64, now: u64) -> Seq<char> {
    (match who {
        Fenced::Source => "reassign_group_and_move: source"@,
        Fenced::Fresh => "reassign_group_and_move: fresh member"@,
        Fenced::Retained => "reassign_group_and_move: retained member"@,
    }) + ": clearing a stale fence (generation "@ + decimal(stale as nat)
        + ") on a group member failed — the slot is still fenced at generation "@ + decimal(
        now as nat,
    ) + " (a concurrent handoff?)"@
}

/// The error of a source that kept advancing.
pub open spec fn not_frozen_text(source: Seq<char>, past: u64, cap: usize) -> Seq<char> {
    "reassign_group_and_move: fenced source "@ + source
        + " did not converge (tail still advancing past "@ + decimal(past as nat) + ") within "@
        + decimal(cap as nat) + " passes; aborting the flip to avoid dropping a write"@
}

// ---- laws ----

/// A single move can be planned exactly where the position has an entry without replicas, both
/// nodes have an address and routing has a live primary for it; and then the plan is from the
/// committed primary to the node that was asked for, at their addresses.
pub proof fn law_what_a_single_move_needs(
    s: StateView,
    position: u32,
    to: NodeId,
    live: LiveRoute,
    p: SinglePlan,
)
    ensures
        single_refusal(s, position, to, live) is None <==> (entry(s.assignments, position)
            matches Some(a) && a.replicas.len() == 0 && address(s, a.primary) is Some && address(
            s,
            to,
        ) is Some && live is Primary),
        single_planned(p, s, position, to, live) ==> {
            &&& p.position == position && p.to == to
            &&& entry(s.assignments, position) matches Some(a) && a.primary == p.from
                && a.replicas.len() == 0
            &&& address(s, p.from) == Some(p.from_endpoint@)
            &&& address(s, p.to) == Some(p.target_endpoint@)
            &&& live == LiveRoute::Primary(p.live_endpoint)
        },
{
}

/// A second read that finds what the first found lets the move go on; a changed entry, a replica, a
/// changed address of either node and a changed live primary are each noticed.
pub proof fn law_a_change_under_a_single_plan_is_noticed(
    p: SinglePlan,
    s: StateView,
    position: u32,
    to: NodeId,
    live: LiveRoute,
    now: StateView,
    live_now: Seq<char>,
)
    ensures
        single_planned(p, s, position, to, live) ==> single_unchanged(p, s, p.live_endpoint@),
        single_unchanged(p, now, live_now) ==> {
            &&& entry(now.assignments, p.position) matches Some(a) && a.primary == p.from
                && a.replicas.len() == 0
            &&& address(now, p.from) matches Some(x) && normalized_spec(x) == normalized_spec(
                p.from_endpoint@,
            )
            &&& address(now, p.to) matches Some(y) && normalized_spec(y) == normalized_spec(
                p.target_endpoint@,
            )
            &&& normalized_spec(live_now) == normalized_spec(p.live_endpoint@)
        },
{
}

/// A group move can be planned exactly where the position has an entry, its primary and every
/// desired member have an address, and no two desired members share one.
pub proof fn law_what_a_group_move_needs(s: StateView, desired: AssignmentView)
    ensures
        group_refusal(s, desired) is None <==> {
            &&& entry(s.assignments, desired.position) matches Some(c) && address(s, c.primary)
                is Some
            &&& address(s, desired.primary) is Some
            &&& forall|k: int|
                0 <= k < desired.replicas.len() ==> address(s, #[trigger] desired.replicas[k])
                    is Some
            &&& forall|i: int, j: int|
                0 <= i < j < group_ids(desired).len() ==> address(s, #[trigger] group_ids(desired)[i])
                    != address(s, #[trigger] group_ids(desired)[j])
        },
{
    if let Some(c) = entry(s.assignments, desired.position) {
        let want = group_ids(desired);
        let ids = seq![c.primary] + want;
        let missing = |id: NodeId| address(s, id) is None;
        let m = resolved(s, want);
        crate::seqs::lemma_find(ids, missing);
        assert(ids[0] == c.primary);
        assert(ids[1] == desired.primary);
        assert(want[0] == desired.primary);
        assert forall|k: int| 0 <= k < desired.replicas.len() implies #[trigger] desired.replicas[k]
            == ids[k + 2] && desired.replicas[k] == want[k + 1] by {}
        if unresolved(s, ids) is None {
            assert forall|j: int| 0 <= j < ids.len() implies address(s, #[trigger] ids[j]) is Some by {
                assert(!missing(ids[j]));
            }
            assert forall|j: int| 0 <= j < want.len() implies address(s, #[trigger] want[j])
                is Some by {
                assert(ids[j + 1] == want[j]);
            }
            assert forall|k: int| 0 <= k < desired.replicas.len() implies address(
                s,
                #[trigger] desired.replicas[k],
            ) is Some by {
                assert(address(s, ids[k + 2]) is Some);
            }
            if shares_endpoint(m) {
                let (i, j) = choose|i: int, j: int|
                    0 <= i < j < m.len() && (#[trigger] m[i]).endpoint == (
                    #[trigger] m[j]).endpoint;
                assert(address(s, want[i]) == address(s, want[j]));
            } else {
                assert forall|i: int, j: int| 0 <= i < j < want.len() implies address(
                    s,
                    #[trigger] want[i],
                ) != address(s, #[trigger] want[j]) by {
                    assert(m[i].endpoint != m[j].endpoint);
                }
            }
        } else {
            let id = unresolved(s, ids)->0;
            let i = choose|i: int| 0 <= i < ids.len() && #[trigger] ids[i] == id && missing(id);
            if i >= 2 {
                assert(desired.replicas[i - 2] == id);
            }
        }
    }
}

/// The planned members are the desired ones, in their order, the primary first, each at its
/// address, and the data comes from the committed primary.
pub proof fn law_a_group_plan_is_for_the_desired_members(
    p: GroupPlan,
    s: StateView,
    desired: AssignmentView,
    i: int,
)
    requires
        plan_matches(p, s, desired),
        group_refusal(s, desired) is None,
        0 <= i <= desired.replicas.len(),
    ensures
        p.members@.len() == desired.replicas.len() + 1,
        p.members@[i].id == if i == 0 {
            desired.primary
        } else {
            desired.replicas[i - 1]
        },
        address(s, p.members@[i].id) == Some(p.members@[i].endpoint@),
        entry(s.assignments, desired.position) == Some(p.committed@),
        address(s, p.committed.primary) == Some(p.source_endpoint@),
        p.desired@ == desired,
{
    let m = member_views(p.members@);
    assert(m.len() == p.members@.len());
    assert(m[i] == resolved(s, group_ids(desired))[i]);
    law_what_a_group_move_needs(s, desired);
    if i > 0 {
        assert(group_ids(desired)[i] == desired.replicas[i - 1]);
        assert(address(s, desired.replicas[i - 1]) is Some);
    }
}

/// A second read that finds what the first found lets the move go on; a changed committed group and
/// a changed address of any server of the move are noticed.
pub proof fn law_a_change_under_a_group_plan_is_noticed(
    p: GroupPlan,
    s: StateView,
    desired: AssignmentView,
    now: StateView,
)
    ensures
        plan_matches(p, s, desired) && group_refusal(s, desired) is None && p.committed.position
            == desired.position ==> group_unchanged(p, s),
        group_unchanged(p, now) ==> {
            &&& entry(now.assignments, p.committed.position) matches Some(a) && a.primary
                == p.committed.primary && forall|n: NodeId| #[trigger]
                a.replicas.contains(n) <==> p.committed@.replicas.contains(n)
            &&& address(now, p.committed.primary) == Some(p.source_endpoint@)
            &&& forall|i: int|
                0 <= i < p.members@.len() ==> address(now, (#[trigger] p.members@[i]).id) == Some(
                    p.members@[i].endpoint@,
                )
        },
        group_stands(p, now) <==> (entry(now.assignments, p.committed.position) matches Some(a)
            && a.primary == p.committed.primary && forall|n: NodeId| #[trigger]
            a.replicas.contains(n) <==> p.committed@.replicas.contains(n)),
{
    if plan_matches(p, s, desired) && group_refusal(s, desired) is None && p.committed.position
        == desired.position {
        let c = p.committed@;
        crate::coordinator::group_plan::law_same_group_is_an_equivalence(c, c, c);
        assert forall|i: int| 0 <= i < p.members@.len() implies address(
            s,
            (#[trigger] p.members@[i]).id,
        ) == Some(p.members@[i].endpoint@) by {
            assert(member_views(p.members@).len() == p.members@.len());
            law_a_group_plan_is_for_the_desired_members(p, s, desired, i);
        }
    }
}

/// A desired member is the source exactly if it is the committed primary, stays exactly if it is
/// another committed replica, and is new otherwise.
pub proof fn law_roles_follow_the_committed_group(committed: AssignmentView, id: NodeId)
    ensures
        role_of(committed, id) == MemberRole::Source <==> id == committed.primary,
        role_of(committed, id) == MemberRole::Retained <==> id != committed.primary && exists|k: int|
            0 <= k < committed.replicas.len() && #[trigger] committed.replicas[k] == id,
{
    if committed.replicas.contains(id) {
        let k = choose|k: int| 0 <= k < committed.replicas.len() && committed.replicas[k] == id;
        assert(committed.replicas[k] == id);
    }
}

} // verus!
