//! Moving a replicated position's whole group, data first.
//!
//! Members that are new are filled while the source, the committed primary, keeps taking writes.
//! Then the source is fenced, its tail is read until it stops advancing, the new members are
//! drained to that point, and members that stay are copied again from the frozen source. Only then
//! is routing swapped. [`GroupMove`] decides which call comes next; the caller makes the call and
//! hands back the reply. `E` is the caller's error.
use vstd::prelude::*;

verus! {

/// What a desired member is to the committed group.
#[derive(Clone, Copy, PartialEq, Eq, Debug, Structural)]
pub enum MemberRole {
    /// Not in it: it serves nothing yet.
    Fresh,
    /// A committed replica.
    Retained,
    /// The committed primary: the source of the move.
    Source,
}

/// Whom a stale fence was found on.
#[derive(Clone, Copy, PartialEq, Eq, Debug, Structural)]
pub enum Fenced {
    Source,
    Fresh,
    Retained,
}

/// The call that is due. Members are named by their index in the desired group, primary first.
#[derive(Clone, Copy, PartialEq, Eq, Debug, Structural)]
pub enum GroupCall {
    /// Connect to the source.
    ConnectSource,
    /// Read the generation that the source is fenced at; zero is not fenced.
    ProbeSource,
    /// Lift the fence of this generation from the source; the reply is the generation left.
    ClearSource { stale: u64 },
    /// Pin the source's tail; the reply is where.
    AcquireLease,
    /// Connect to a member and ship it the dictionaries.
    Adopt { member: usize },
    /// Read the generation that a member is fenced at.
    Probe { member: usize },
    /// Lift the fence of this generation from a member; the reply is the generation left.
    Clear { member: usize, stale: u64 },
    /// Have a member copy the source's segments; the reply is the position they are sealed at.
    Recover { member: usize },
    /// Replay the source's tail behind `after` into a member; the reply is the new high water.
    CatchUp { member: usize, after: u64 },
    /// Let the source trim its tail up to `to`.
    RenewLease { to: u64 },
    /// Make the source refuse writes.
    FenceSource { generation: u64 },
    /// Let the source take writes again, if this generation fenced it.
    UnfenceSource { generation: u64 },
    /// Read the source's tail behind `after`; the reply is its highest position, if any.
    ReadTail { after: u64 },
    /// Open the connection of a member that is the source itself.
    Attach { member: usize },
    /// Assemble the desired group from the members' connections and route the position to it.
    SwapBacking { generation: u64 },
    /// Unpin the source's tail.
    ReleaseLease,
    /// Nothing: the move has ended.
    Nothing,
}

/// What came back from a call.
#[derive(Debug)]
pub enum GroupReply<E> {
    /// It succeeded.
    Done,
    /// It succeeded, with a position or a generation.
    At(u64),
    /// The highest position of a tail, if it has any.
    Tail(Option<u64>),
    /// It failed.
    Failed(E),
}

/// Why a move did not swap.
#[derive(Debug)]
pub enum GroupFault<E> {
    /// A call failed.
    Reported(E),
    /// A stale fence could not be lifted.
    StaleFence { who: Fenced, stale: u64, now: u64 },
    /// The fenced source kept advancing.
    NotFrozen { past: u64 },
    /// A new member did not reach the frozen tail.
    FreshBehind,
    /// A member that was copied from the frozen source still had a tail to replay.
    RetainedTail { tail: u64, seal: u64 },
}

/// Something that the operator should see; it does not change the outcome.
#[derive(Debug)]
pub enum GroupNotice<E> {
    /// The fence failed, and so did the attempt to lift it in case it had been set.
    FenceCleanupFailed(E),
    /// The move was aborted, and lifting the fence failed.
    UnfenceFailed(E),
    /// The swap is done, and lifting the fence from the source, which stays a member, failed.
    RetainedUnfenceFailed(E),
    /// Unpinning the source's tail failed.
    ReleaseFailed(E),
}

/// How far a move has come.
#[derive(Clone, Copy, PartialEq, Eq, Debug, Structural)]
pub enum GroupStage {
    Connect,
    ProbeSource,
    ClearSource { stale: u64 },
    Lease,
    Adopt { member: usize },
    Probe { member: usize },
    Clear { member: usize, stale: u64 },
    Recover { member: usize },
    CatchUp { member: usize, hwm: u64, pass: usize },
    Renew { member: usize, hwm: u64, next: u64, pass: usize },
    Fence,
    FenceCleanup,
    ReadTail { cursor: u64, pass: usize },
    TailRenew { cursor: u64, pass: usize },
    Drain { slot: usize, pass: usize },
    DrainRenew { slot: usize, before: u64, pass: usize },
    KeepAdopt { member: usize },
    KeepProbe { member: usize },
    KeepClear { member: usize, stale: u64 },
    KeepRecover { member: usize },
    KeepVerify { member: usize, seal: u64 },
    Attach { member: usize },
    Swap,
    Unfence,
    AbortUnfence,
    Release,
    Ended,
}

/// The limits of a move.
#[derive(Clone, Copy, PartialEq, Eq, Debug, Structural)]
pub struct GroupLimits {
    /// The generation that the move fences with.
    pub generation: u64,
    /// How often a tail is replayed before the fence.
    pub drain_passes: usize,
    /// How often it is read or replayed behind the fence, at most.
    pub final_drain_cap: usize,
}

/// A member that holds the source's data up to a high water.
#[derive(Clone, Copy, PartialEq, Eq, Debug, Structural)]
pub struct Established {
    pub member: usize,
    pub hwm: u64,
}

/// One move.
#[derive(Debug)]
pub struct GroupMove<E> {
    limits: GroupLimits,
    roles: Vec<MemberRole>,
    stage: GroupStage,
    pinned: u64,
    established: Vec<Established>,
    fault: Option<GroupFault<E>>,
}

/// A move, as a mathematical value.
#[verifier::ext_equal]
pub ghost struct GroupMoveView<E> {
    pub limits: GroupLimits,
    /// The desired members.
    pub roles: Seq<MemberRole>,
    pub stage: GroupStage,
    /// Where the source's tail is pinned.
    pub pinned: u64,
    /// The members that hold the source's data, in the order in which they came to.
    pub established: Seq<Established>,
    /// Set once it is known that the move does not swap.
    pub fault: Option<GroupFault<E>>,
}

impl<E> View for GroupMove<E> {
    type V = GroupMoveView<E>;

    closed spec fn view(&self) -> GroupMoveView<E> {
        GroupMoveView {
            limits: self.limits,
            roles: self.roles@,
            stage: self.stage,
            pinned: self.pinned,
            established: self.established@,
            fault: self.fault,
        }
    }
}

/// The lowest high water among the established members and `candidate`: how far the source may
/// trim.
pub open spec fn lease_floor(established: Seq<Established>, candidate: u64) -> u64
    decreases established.len(),
{
    if established.len() == 0 {
        candidate
    } else {
        let f = lease_floor(established.drop_last(), candidate);
        if established.last().hwm < f {
            established.last().hwm
        } else {
            f
        }
    }
}

/// The highest high water among the established members and `pinned`.
pub open spec fn furthest(established: Seq<Established>, pinned: u64) -> u64
    decreases established.len(),
{
    if established.len() == 0 {
        pinned
    } else {
        let f = furthest(established.drop_last(), pinned);
        if established.last().hwm > f {
            established.last().hwm
        } else {
            f
        }
    }
}

/// The first member at or behind `from` with this role; the number of members if there is none.
pub open spec fn next_member(roles: Seq<MemberRole>, role: MemberRole, from: nat) -> nat
    decreases roles.len() - from,
{
    if from >= roles.len() {
        roles.len()
    } else if roles[from as int] == role {
        from
    } else {
        next_member(roles, role, from + 1)
    }
}

/// The call that is due.
pub open spec fn group_call<E>(g: GroupMoveView<E>) -> GroupCall {
    let generation = g.limits.generation;
    match g.stage {
        GroupStage::Connect => GroupCall::ConnectSource,
        GroupStage::ProbeSource => GroupCall::ProbeSource,
        GroupStage::ClearSource { stale } => GroupCall::ClearSource { stale },
        GroupStage::Lease => GroupCall::AcquireLease,
        GroupStage::Adopt { member } => GroupCall::Adopt { member },
        GroupStage::Probe { member } => GroupCall::Probe { member },
        GroupStage::Clear { member, stale } => GroupCall::Clear { member, stale },
        GroupStage::Recover { member } => GroupCall::Recover { member },
        GroupStage::CatchUp { member, hwm, .. } => GroupCall::CatchUp { member, after: hwm },
        GroupStage::Renew { next, .. } => GroupCall::RenewLease {
            to: lease_floor(g.established, next),
        },
        GroupStage::Fence => GroupCall::FenceSource { generation },
        GroupStage::FenceCleanup => GroupCall::UnfenceSource { generation },
        GroupStage::ReadTail { cursor, .. } => GroupCall::ReadTail { after: cursor },
        GroupStage::TailRenew { .. } => GroupCall::RenewLease {
            to: lease_floor(g.established, g.pinned),
        },
        GroupStage::Drain { slot, .. } => GroupCall::CatchUp {
            member: g.established[slot as int].member,
            after: g.established[slot as int].hwm,
        },
        GroupStage::DrainRenew { slot, .. } => GroupCall::RenewLease {
            to: lease_floor(g.established, g.established[slot as int].hwm),
        },
        GroupStage::KeepAdopt { member } => GroupCall::Adopt { member },
        GroupStage::KeepProbe { member } => GroupCall::Probe { member },
        GroupStage::KeepClear { member, stale } => GroupCall::Clear { member, stale },
        GroupStage::KeepRecover { member } => GroupCall::Recover { member },
        GroupStage::KeepVerify { member, seal } => GroupCall::CatchUp { member, after: seal },
        GroupStage::Attach { member } => GroupCall::Attach { member },
        GroupStage::Swap => GroupCall::SwapBacking { generation },
        GroupStage::Unfence => GroupCall::UnfenceSource { generation },
        GroupStage::AbortUnfence => GroupCall::UnfenceSource { generation },
        GroupStage::Release => GroupCall::ReleaseLease,
        GroupStage::Ended => GroupCall::Nothing,
    }
}

/// Whether a reply is one that a call can have.
pub open spec fn group_answers<E>(call: GroupCall, reply: GroupReply<E>) -> bool {
    match call {
        GroupCall::ProbeSource | GroupCall::ClearSource { .. } | GroupCall::AcquireLease
        | GroupCall::Probe { .. } | GroupCall::Clear { .. } | GroupCall::Recover { .. }
        | GroupCall::CatchUp { .. } => reply is At || reply is Failed,
        GroupCall::ReadTail { .. } => reply is Tail || reply is Failed,
        GroupCall::SwapBacking { .. } => reply is Done,
        GroupCall::Nothing => false,
        _ => reply is Done || reply is Failed,
    }
}

// ---- the parts of a step ----

pub open spec fn group_to<E>(g: GroupMoveView<E>, stage: GroupStage) -> GroupMoveView<E> {
    GroupMoveView { stage, ..g }
}

pub open spec fn group_fail<E>(g: GroupMoveView<E>, stage: GroupStage, fault: GroupFault<E>) -> GroupMoveView<
    E,
> {
    GroupMoveView { stage, fault: Some(fault), ..g }
}

/// Where a fault leads, by how much there is to undo: nothing before the lease, the lease before
/// the fence, the fence and the lease behind it.
pub open spec fn fault_stage(stage: GroupStage) -> GroupStage {
    match stage {
        GroupStage::Connect | GroupStage::ProbeSource | GroupStage::ClearSource { .. }
        | GroupStage::Lease => GroupStage::Ended,
        GroupStage::Adopt { .. } | GroupStage::Probe { .. } | GroupStage::Clear { .. }
        | GroupStage::Recover { .. } | GroupStage::CatchUp { .. } | GroupStage::Renew { .. } =>
            GroupStage::Release,
        GroupStage::Fence => GroupStage::FenceCleanup,
        _ => GroupStage::AbortUnfence,
    }
}

/// The next new member at or behind `from`, or the fence.
pub open spec fn to_fresh<E>(g: GroupMoveView<E>, from: nat) -> GroupMoveView<E> {
    let i = next_member(g.roles, MemberRole::Fresh, from);
    group_to(
        g,
        if i < g.roles.len() {
            GroupStage::Adopt { member: i as usize }
        } else {
            GroupStage::Fence
        },
    )
}

/// The member holds the data up to `hwm`; the next new member is due.
pub open spec fn fresh_done<E>(g: GroupMoveView<E>, member: usize, hwm: u64) -> GroupMoveView<E> {
    to_fresh(
        GroupMoveView { established: g.established.push(Established { member, hwm }), ..g },
        (member + 1) as nat,
    )
}

/// A new member at `hwm` after `pass` replays before the fence.
pub open spec fn fresh_at<E>(g: GroupMoveView<E>, member: usize, hwm: u64, pass: usize) -> GroupMoveView<
    E,
> {
    if pass < g.limits.drain_passes {
        group_to(g, GroupStage::CatchUp { member, hwm, pass })
    } else {
        fresh_done(g, member, hwm)
    }
}

/// Behind the fence, at `cursor` after `pass` reads of the tail.
pub open spec fn reading_tail<E>(g: GroupMoveView<E>, cursor: u64, pass: usize) -> GroupMoveView<E> {
    if pass < g.limits.final_drain_cap {
        group_to(g, GroupStage::ReadTail { cursor, pass })
    } else {
        group_fail(g, GroupStage::AbortUnfence, GroupFault::NotFrozen { past: cursor })
    }
}

/// How often a new member is replayed behind the fence, at most; at least once.
pub open spec fn drain_cap(limits: GroupLimits) -> usize {
    if limits.final_drain_cap < 1 {
        1
    } else {
        limits.final_drain_cap
    }
}

/// The established member at `slot` is drained next, or the retained members follow.
pub open spec fn to_drain<E>(g: GroupMoveView<E>, slot: nat) -> GroupMoveView<E> {
    if slot < g.established.len() {
        group_to(g, GroupStage::Drain { slot: slot as usize, pass: 0 })
    } else {
        to_keep(g, 0)
    }
}

/// The next retained member at or behind `from`, or the assembly.
pub open spec fn to_keep<E>(g: GroupMoveView<E>, from: nat) -> GroupMoveView<E> {
    let i = next_member(g.roles, MemberRole::Retained, from);
    if i < g.roles.len() {
        group_to(g, GroupStage::KeepAdopt { member: i as usize })
    } else {
        let s = next_member(g.roles, MemberRole::Source, 0);
        group_to(
            g,
            if s < g.roles.len() {
                GroupStage::Attach { member: s as usize }
            } else {
                GroupStage::Swap
            },
        )
    }
}

/// The source stays a member.
pub open spec fn source_stays(roles: Seq<MemberRole>) -> bool {
    next_member(roles, MemberRole::Source, 0) < roles.len()
}

/// The move after a call that succeeded.
pub open spec fn group_succeeded<E>(g: GroupMoveView<E>, reply: GroupReply<E>) -> GroupMoveView<E> {
    match (g.stage, reply) {
        (GroupStage::Connect, GroupReply::Done) => group_to(g, GroupStage::ProbeSource),
        (GroupStage::ProbeSource, GroupReply::At(n)) => group_to(
            g,
            if n == 0 {
                GroupStage::Lease
            } else {
                GroupStage::ClearSource { stale: n }
            },
        ),
        (GroupStage::ClearSource { stale }, GroupReply::At(n)) => if n == 0 {
            group_to(g, GroupStage::Lease)
        } else {
            group_fail(
                g,
                GroupStage::Ended,
                GroupFault::StaleFence { who: Fenced::Source, stale, now: n },
            )
        },
        (GroupStage::Lease, GroupReply::At(p)) => to_fresh(GroupMoveView { pinned: p, ..g }, 0),
        (GroupStage::Adopt { member }, GroupReply::Done) => group_to(
            g,
            GroupStage::Probe { member },
        ),
        (GroupStage::Probe { member }, GroupReply::At(n)) => group_to(
            g,
            if n == 0 {
                GroupStage::Recover { member }
            } else {
                GroupStage::Clear { member, stale: n }
            },
        ),
        (GroupStage::Clear { member, stale }, GroupReply::At(n)) => if n == 0 {
            group_to(g, GroupStage::Recover { member })
        } else {
            group_fail(
                g,
                GroupStage::Release,
                GroupFault::StaleFence { who: Fenced::Fresh, stale, now: n },
            )
        },
        (GroupStage::Recover { member }, GroupReply::At(p)) => fresh_at(g, member, p, 0),
        (GroupStage::CatchUp { member, hwm, pass }, GroupReply::At(next)) => group_to(
            g,
            GroupStage::Renew { member, hwm, next, pass },
        ),
        (GroupStage::Renew { member, hwm, next, pass }, GroupReply::Done) => if next == hwm {
            fresh_done(g, member, hwm)
        } else {
            fresh_at(g, member, next, (pass + 1) as usize)
        },
        (GroupStage::Fence, GroupReply::Done) => reading_tail(
            g,
            furthest(g.established, g.pinned),
            0,
        ),
        (GroupStage::ReadTail { cursor, pass }, GroupReply::Tail(top)) => match top {
            None => to_drain(g, 0),
            Some(p) => group_to(
                g,
                GroupStage::TailRenew {
                    cursor: if p > cursor {
                        p
                    } else {
                        cursor
                    },
                    pass,
                },
            ),
        },
        (GroupStage::TailRenew { cursor, pass }, GroupReply::Done) => reading_tail(
            g,
            cursor,
            (pass + 1) as usize,
        ),
        (GroupStage::Drain { slot, pass }, GroupReply::At(next)) => {
            let e = g.established[slot as int];
            GroupMoveView {
                stage: GroupStage::DrainRenew { slot, before: e.hwm, pass },
                established: g.established.update(
                    slot as int,
                    Established { member: e.member, hwm: next },
                ),
                ..g
            }
        },
        (GroupStage::DrainRenew { slot, before, pass }, GroupReply::Done) => if g.established[slot as int].hwm
            == before {
            to_drain(g, (slot + 1) as nat)
        } else if pass + 1 < drain_cap(g.limits) {
            group_to(g, GroupStage::Drain { slot, pass: (pass + 1) as usize })
        } else {
            group_fail(g, GroupStage::AbortUnfence, GroupFault::FreshBehind)
        },
        (GroupStage::KeepAdopt { member }, GroupReply::Done) => group_to(
            g,
            GroupStage::KeepProbe { member },
        ),
        (GroupStage::KeepProbe { member }, GroupReply::At(n)) => group_to(
            g,
            if n == 0 {
                GroupStage::KeepRecover { member }
            } else {
                GroupStage::KeepClear { member, stale: n }
            },
        ),
        (GroupStage::KeepClear { member, stale }, GroupReply::At(n)) => if n == 0 {
            group_to(g, GroupStage::KeepRecover { member })
        } else {
            group_fail(
                g,
                GroupStage::AbortUnfence,
                GroupFault::StaleFence { who: Fenced::Retained, stale, now: n },
            )
        },
        (GroupStage::KeepRecover { member }, GroupReply::At(p)) => group_to(
            g,
            GroupStage::KeepVerify { member, seal: p },
        ),
        (GroupStage::KeepVerify { member, seal }, GroupReply::At(p)) => if p == seal {
            to_keep(
                GroupMoveView {
                    established: g.established.push(Established { member, hwm: seal }),
                    ..g
                },
                (member + 1) as nat,
            )
        } else {
            group_fail(g, GroupStage::AbortUnfence, GroupFault::RetainedTail { tail: p, seal })
        },
        (GroupStage::Attach { .. }, GroupReply::Done) => group_to(g, GroupStage::Swap),
        (GroupStage::Swap, GroupReply::Done) => group_to(
            g,
            if source_stays(g.roles) {
                GroupStage::Unfence
            } else {
                GroupStage::Release
            },
        ),
        (GroupStage::FenceCleanup, GroupReply::Done) => group_to(g, GroupStage::Release),
        (GroupStage::Unfence, GroupReply::Done) => group_to(g, GroupStage::Release),
        (GroupStage::AbortUnfence, GroupReply::Done) => group_to(g, GroupStage::Release),
        (GroupStage::Release, GroupReply::Done) => group_to(g, GroupStage::Ended),
        _ => g,
    }
}

/// The move after a reply, and what the operator should see.
pub open spec fn group_next<E>(g: GroupMoveView<E>, reply: GroupReply<E>) -> (
    GroupMoveView<E>,
    Option<GroupNotice<E>>,
) {
    match reply {
        GroupReply::Failed(e) => match g.stage {
            GroupStage::FenceCleanup => (
                group_to(g, GroupStage::Release),
                Some(GroupNotice::FenceCleanupFailed(e)),
            ),
            GroupStage::AbortUnfence => (
                group_to(g, GroupStage::Release),
                Some(GroupNotice::UnfenceFailed(e)),
            ),
            GroupStage::Unfence => (
                group_to(g, GroupStage::Release),
                Some(GroupNotice::RetainedUnfenceFailed(e)),
            ),
            GroupStage::Release => (
                group_to(g, GroupStage::Ended),
                Some(GroupNotice::ReleaseFailed(e)),
            ),
            _ => (group_fail(g, fault_stage(g.stage), GroupFault::Reported(e)), None),
        },
        _ => (group_succeeded(g, reply), None),
    }
}

/// Members, slots and passes are within their bounds, and no more members are established than
/// were gone through.
pub open spec fn group_valid<E>(g: GroupMoveView<E>) -> bool {
    let n = g.roles.len();
    let done = g.established.len();
    let cap = g.limits.final_drain_cap;
    &&& n < usize::MAX
    &&& match g.stage {
        GroupStage::Connect | GroupStage::ProbeSource | GroupStage::ClearSource { .. }
        | GroupStage::Lease => done == 0,
        GroupStage::Adopt { member } => done <= member < n,
        GroupStage::Probe { member } => done <= member < n,
        GroupStage::Clear { member, .. } => done <= member < n,
        GroupStage::Recover { member } => done <= member < n,
        GroupStage::CatchUp { member, pass, .. } => done <= member < n && pass
            < g.limits.drain_passes,
        GroupStage::Renew { member, pass, .. } => done <= member < n && pass < g.limits.drain_passes,
        GroupStage::Fence => done <= n,
        GroupStage::ReadTail { pass, .. } => done <= n && pass < cap,
        GroupStage::TailRenew { pass, .. } => done <= n && pass < cap,
        GroupStage::Drain { slot, pass } => slot < done <= n && pass < drain_cap(g.limits),
        GroupStage::DrainRenew { slot, pass, .. } => slot < done <= n && pass < drain_cap(g.limits),
        GroupStage::KeepAdopt { member } => member < n,
        GroupStage::KeepProbe { member } => member < n,
        GroupStage::KeepClear { member, .. } => member < n,
        GroupStage::KeepRecover { member } => member < n,
        GroupStage::KeepVerify { member, .. } => member < n,
        GroupStage::Attach { member } => member < n,
        _ => true,
    }
}

/// The move before its first call.
pub open spec fn group_start<E>(limits: GroupLimits, roles: Seq<MemberRole>) -> GroupMoveView<E> {
    GroupMoveView {
        limits,
        roles,
        stage: GroupStage::Connect,
        pinned: 0,
        established: Seq::empty(),
        fault: None,
    }
}

pub proof fn lemma_next_member(roles: Seq<MemberRole>, role: MemberRole, from: nat)
    ensures
        next_member(roles, role, from) <= roles.len() || from > roles.len(),
        from <= roles.len() ==> from <= next_member(roles, role, from) <= roles.len(),
        next_member(roles, role, from) < roles.len() ==> roles[next_member(roles, role, from) as int]
            == role,
        forall|k: int|
            from <= k < next_member(roles, role, from) && k < roles.len() ==> #[trigger] roles[k]
                != role,
    decreases roles.len() - from,
{
    if from < roles.len() && roles[from as int] != role {
        lemma_next_member(roles, role, from + 1);
    }
}

impl<E> GroupMove<E> {
    /// A move that is about to start.
    pub fn new(limits: GroupLimits, roles: Vec<MemberRole>) -> (r: Self)
        requires
            roles@.len() < usize::MAX,
        ensures
            r@ == group_start::<E>(limits, roles@),
            group_valid(r@),
    {
        GroupMove {
            limits,
            roles,
            stage: GroupStage::Connect,
            pinned: 0,
            established: Vec::new(),
            fault: None,
        }
    }

    fn floor(&self, candidate: u64) -> (r: u64)
        ensures
            r == lease_floor(self@.established, candidate),
    {
        let n: usize = self.established.len();
        let ghost e = self.established@;
        let mut f: u64 = candidate;
        let mut i: usize = 0;
        assert(e.take(0).len() == 0);
        while i < n
            invariant
                n == self.established@.len(),
                e == self.established@,
                i <= n,
                f == lease_floor(e.take(i as int), candidate),
            decreases n - i,
        {
            assert(e.take(i + 1).drop_last() =~= e.take(i as int));
            if self.established[i].hwm < f {
                f = self.established[i].hwm;
            }
            i = i + 1;
        }
        assert(e.take(n as int) =~= e);
        f
    }

    fn far(&self) -> (r: u64)
        ensures
            r == furthest(self@.established, self@.pinned),
    {
        let n: usize = self.established.len();
        let ghost e = self.established@;
        let mut f: u64 = self.pinned;
        let mut i: usize = 0;
        assert(e.take(0).len() == 0);
        while i < n
            invariant
                n == self.established@.len(),
                e == self.established@,
                i <= n,
                f == furthest(e.take(i as int), self.pinned),
            decreases n - i,
        {
            assert(e.take(i + 1).drop_last() =~= e.take(i as int));
            if self.established[i].hwm > f {
                f = self.established[i].hwm;
            }
            i = i + 1;
        }
        assert(e.take(n as int) =~= e);
        f
    }

    fn member_with(&self, role: MemberRole, from: usize) -> (r: usize)
        requires
            from <= self@.roles.len(),
        ensures
            r as nat == next_member(self@.roles, role, from as nat),
    {
        let n: usize = self.roles.len();
        let mut i: usize = from;
        while i < n && self.roles[i] != role
            invariant
                n == self.roles@.len(),
                from <= i <= n,
                next_member(self.roles@, role, i as nat) == next_member(
                    self.roles@,
                    role,
                    from as nat,
                ),
            decreases n - i,
        {
            i = i + 1;
        }
        i
    }

    /// The call that is due.
    pub fn call(&self) -> (r: GroupCall)
        requires
            group_valid(self@),
        ensures
            r == group_call(self@),
    {
        let generation: u64 = self.limits.generation;
        match self.stage {
            GroupStage::Connect => GroupCall::ConnectSource,
            GroupStage::ProbeSource => GroupCall::ProbeSource,
            GroupStage::ClearSource { stale } => GroupCall::ClearSource { stale },
            GroupStage::Lease => GroupCall::AcquireLease,
            GroupStage::Adopt { member } => GroupCall::Adopt { member },
            GroupStage::Probe { member } => GroupCall::Probe { member },
            GroupStage::Clear { member, stale } => GroupCall::Clear { member, stale },
            GroupStage::Recover { member } => GroupCall::Recover { member },
            GroupStage::CatchUp { member, hwm, .. } => GroupCall::CatchUp { member, after: hwm },
            GroupStage::Renew { next, .. } => GroupCall::RenewLease { to: self.floor(next) },
            GroupStage::Fence => GroupCall::FenceSource { generation },
            GroupStage::FenceCleanup => GroupCall::UnfenceSource { generation },
            GroupStage::ReadTail { cursor, .. } => GroupCall::ReadTail { after: cursor },
            GroupStage::TailRenew { .. } => GroupCall::RenewLease { to: self.floor(self.pinned) },
            GroupStage::Drain { slot, .. } => GroupCall::CatchUp {
                member: self.established[slot].member,
                after: self.established[slot].hwm,
            },
            GroupStage::DrainRenew { slot, .. } => GroupCall::RenewLease {
                to: self.floor(self.established[slot].hwm),
            },
            GroupStage::KeepAdopt { member } => GroupCall::Adopt { member },
            GroupStage::KeepProbe { member } => GroupCall::Probe { member },
            GroupStage::KeepClear { member, stale } => GroupCall::Clear { member, stale },
            GroupStage::KeepRecover { member } => GroupCall::Recover { member },
            GroupStage::KeepVerify { member, seal } => GroupCall::CatchUp { member, after: seal },
            GroupStage::Attach { member } => GroupCall::Attach { member },
            GroupStage::Swap => GroupCall::SwapBacking { generation },
            GroupStage::Unfence => GroupCall::UnfenceSource { generation },
            GroupStage::AbortUnfence => GroupCall::UnfenceSource { generation },
            GroupStage::Release => GroupCall::ReleaseLease,
            GroupStage::Ended => GroupCall::Nothing,
        }
    }

    fn go(&mut self, stage: GroupStage)
        ensures
            final(self)@ == group_to(old(self)@, stage),
    {
        self.stage = stage;
    }

    fn fail(&mut self, stage: GroupStage, fault: GroupFault<E>)
        ensures
            final(self)@ == group_fail(old(self)@, stage, fault),
    {
        self.stage = stage;
        self.fault = Some(fault);
    }

    fn go_fresh(&mut self, from: usize)
        requires
            old(self)@.established.len() <= from <= old(self)@.roles.len() < usize::MAX,
        ensures
            final(self)@ == to_fresh(old(self)@, from as nat),
            group_valid(final(self)@),
    {
        proof {
            lemma_next_member(self@.roles, MemberRole::Fresh, from as nat);
        }
        let i: usize = self.member_with(MemberRole::Fresh, from);
        if i < self.roles.len() {
            self.go(GroupStage::Adopt { member: i });
        } else {
            self.go(GroupStage::Fence);
        }
    }

    fn finish_fresh(&mut self, member: usize, hwm: u64)
        requires
            old(self)@.established.len() <= member < old(self)@.roles.len() < usize::MAX,
        ensures
            final(self)@ == fresh_done(old(self)@, member, hwm),
            group_valid(final(self)@),
    {
        self.established.push(Established { member, hwm });
        self.go_fresh(member + 1);
    }

    fn continue_fresh(&mut self, member: usize, hwm: u64, pass: usize)
        requires
            old(self)@.established.len() <= member < old(self)@.roles.len() < usize::MAX,
        ensures
            final(self)@ == fresh_at(old(self)@, member, hwm, pass),
            group_valid(final(self)@),
    {
        if pass < self.limits.drain_passes {
            self.go(GroupStage::CatchUp { member, hwm, pass });
        } else {
            self.finish_fresh(member, hwm);
        }
    }

    fn read_tail(&mut self, cursor: u64, pass: usize)
        requires
            old(self)@.established.len() <= old(self)@.roles.len() < usize::MAX,
        ensures
            final(self)@ == reading_tail(old(self)@, cursor, pass),
            group_valid(final(self)@),
    {
        if pass < self.limits.final_drain_cap {
            self.go(GroupStage::ReadTail { cursor, pass });
        } else {
            self.fail(GroupStage::AbortUnfence, GroupFault::NotFrozen { past: cursor });
        }
    }

    fn go_keep(&mut self, from: usize)
        requires
            from <= old(self)@.roles.len() < usize::MAX,
        ensures
            final(self)@ == to_keep(old(self)@, from as nat),
            group_valid(final(self)@),
    {
        let i: usize = self.member_with(MemberRole::Retained, from);
        if i < self.roles.len() {
            self.go(GroupStage::KeepAdopt { member: i });
        } else {
            let s: usize = self.member_with(MemberRole::Source, 0);
            if s < self.roles.len() {
                self.go(GroupStage::Attach { member: s });
            } else {
                self.go(GroupStage::Swap);
            }
        }
    }

    fn go_drain(&mut self, slot: usize)
        requires
            old(self)@.established.len() <= old(self)@.roles.len() < usize::MAX,
        ensures
            final(self)@ == to_drain(old(self)@, slot as nat),
            group_valid(final(self)@),
    {
        if slot < self.established.len() {
            self.go(GroupStage::Drain { slot, pass: 0 });
        } else {
            self.go_keep(0);
        }
    }

    fn succeed(&mut self, reply: GroupReply<E>)
        requires
            group_valid(old(self)@),
            group_answers(group_call(old(self)@), reply),
            !(reply is Failed),
        ensures
            final(self)@ == group_succeeded(old(self)@, reply),
            group_valid(final(self)@),
    {
        match self.stage {
            GroupStage::Connect => self.go(GroupStage::ProbeSource),
            GroupStage::ProbeSource => {
                if let GroupReply::At(n) = reply {
                    if n == 0 {
                        self.go(GroupStage::Lease);
                    } else {
                        self.go(GroupStage::ClearSource { stale: n });
                    }
                }
            },
            GroupStage::ClearSource { stale } => {
                if let GroupReply::At(n) = reply {
                    if n == 0 {
                        self.go(GroupStage::Lease);
                    } else {
                        self.fail(
                            GroupStage::Ended,
                            GroupFault::StaleFence { who: Fenced::Source, stale, now: n },
                        );
                    }
                }
            },
            GroupStage::Lease => {
                if let GroupReply::At(p) = reply {
                    self.pinned = p;
                    self.go_fresh(0);
                }
            },
            GroupStage::Adopt { member } => self.go(GroupStage::Probe { member }),
            GroupStage::Probe { member } => {
                if let GroupReply::At(n) = reply {
                    if n == 0 {
                        self.go(GroupStage::Recover { member });
                    } else {
                        self.go(GroupStage::Clear { member, stale: n });
                    }
                }
            },
            GroupStage::Clear { member, stale } => {
                if let GroupReply::At(n) = reply {
                    if n == 0 {
                        self.go(GroupStage::Recover { member });
                    } else {
                        self.fail(
                            GroupStage::Release,
                            GroupFault::StaleFence { who: Fenced::Fresh, stale, now: n },
                        );
                    }
                }
            },
            GroupStage::Recover { member } => {
                if let GroupReply::At(p) = reply {
                    self.continue_fresh(member, p, 0);
                }
            },
            GroupStage::CatchUp { member, hwm, pass } => {
                if let GroupReply::At(next) = reply {
                    self.go(GroupStage::Renew { member, hwm, next, pass });
                }
            },
            GroupStage::Renew { member, hwm, next, pass } => {
                if next == hwm {
                    self.finish_fresh(member, hwm);
                } else {
                    self.continue_fresh(member, next, pass + 1);
                }
            },
            GroupStage::Fence => {
                let cursor: u64 = self.far();
                self.read_tail(cursor, 0);
            },
            GroupStage::ReadTail { cursor, pass } => {
                if let GroupReply::Tail(top) = reply {
                    match top {
                        None => self.go_drain(0),
                        Some(p) => {
                            let further: u64 = if p > cursor {
                                p
                            } else {
                                cursor
                            };
                            self.go(GroupStage::TailRenew { cursor: further, pass });
                        },
                    }
                }
            },
            GroupStage::TailRenew { cursor, pass } => self.read_tail(cursor, pass + 1),
            GroupStage::Drain { slot, pass } => {
                if let GroupReply::At(next) = reply {
                    let e = self.established[slot];
                    self.established.set(slot, Established { member: e.member, hwm: next });
                    self.go(GroupStage::DrainRenew { slot, before: e.hwm, pass });
                }
            },
            GroupStage::DrainRenew { slot, before, pass } => {
                let cap: usize = if self.limits.final_drain_cap < 1 {
                    1
                } else {
                    self.limits.final_drain_cap
                };
                let slots: usize = self.established.len();
                assert(slot < slots);
                if self.established[slot].hwm == before {
                    self.go_drain(slot + 1);
                } else if pass + 1 < cap {
                    self.go(GroupStage::Drain { slot, pass: pass + 1 });
                } else {
                    self.fail(GroupStage::AbortUnfence, GroupFault::FreshBehind);
                }
            },
            GroupStage::KeepAdopt { member } => self.go(GroupStage::KeepProbe { member }),
            GroupStage::KeepProbe { member } => {
                if let GroupReply::At(n) = reply {
                    if n == 0 {
                        self.go(GroupStage::KeepRecover { member });
                    } else {
                        self.go(GroupStage::KeepClear { member, stale: n });
                    }
                }
            },
            GroupStage::KeepClear { member, stale } => {
                if let GroupReply::At(n) = reply {
                    if n == 0 {
                        self.go(GroupStage::KeepRecover { member });
                    } else {
                        self.fail(
                            GroupStage::AbortUnfence,
                            GroupFault::StaleFence { who: Fenced::Retained, stale, now: n },
                        );
                    }
                }
            },
            GroupStage::KeepRecover { member } => {
                if let GroupReply::At(p) = reply {
                    self.go(GroupStage::KeepVerify { member, seal: p });
                }
            },
            GroupStage::KeepVerify { member, seal } => {
                if let GroupReply::At(p) = reply {
                    if p == seal {
                        self.established.push(Established { member, hwm: seal });
                        self.go_keep(member + 1);
                    } else {
                        self.fail(
                            GroupStage::AbortUnfence,
                            GroupFault::RetainedTail { tail: p, seal },
                        );
                    }
                }
            },
            GroupStage::Attach { .. } => self.go(GroupStage::Swap),
            GroupStage::Swap => {
                let s: usize = self.member_with(MemberRole::Source, 0);
                if s < self.roles.len() {
                    self.go(GroupStage::Unfence);
                } else {
                    self.go(GroupStage::Release);
                }
            },
            GroupStage::FenceCleanup => self.go(GroupStage::Release),
            GroupStage::Unfence => self.go(GroupStage::Release),
            GroupStage::AbortUnfence => self.go(GroupStage::Release),
            GroupStage::Release => self.go(GroupStage::Ended),
            GroupStage::Ended => {},
        }
    }

    /// Takes the reply to the call that was due.
    pub fn next(&mut self, reply: GroupReply<E>) -> (r: Option<GroupNotice<E>>)
        requires
            group_valid(old(self)@),
            group_answers(group_call(old(self)@), reply),
        ensures
            (final(self)@, r) == group_next(old(self)@, reply),
            group_valid(final(self)@),
    {
        match reply {
            GroupReply::Failed(e) => match self.stage {
                GroupStage::FenceCleanup => {
                    self.go(GroupStage::Release);
                    Some(GroupNotice::FenceCleanupFailed(e))
                },
                GroupStage::AbortUnfence => {
                    self.go(GroupStage::Release);
                    Some(GroupNotice::UnfenceFailed(e))
                },
                GroupStage::Unfence => {
                    self.go(GroupStage::Release);
                    Some(GroupNotice::RetainedUnfenceFailed(e))
                },
                GroupStage::Release => {
                    self.go(GroupStage::Ended);
                    Some(GroupNotice::ReleaseFailed(e))
                },
                GroupStage::Connect | GroupStage::ProbeSource | GroupStage::ClearSource { .. }
                | GroupStage::Lease => {
                    self.fail(GroupStage::Ended, GroupFault::Reported(e));
                    None
                },
                GroupStage::Adopt { .. } | GroupStage::Probe { .. } | GroupStage::Clear { .. }
                | GroupStage::Recover { .. } | GroupStage::CatchUp { .. }
                | GroupStage::Renew { .. } => {
                    self.fail(GroupStage::Release, GroupFault::Reported(e));
                    None
                },
                GroupStage::Fence => {
                    self.fail(GroupStage::FenceCleanup, GroupFault::Reported(e));
                    None
                },
                _ => {
                    self.fail(GroupStage::AbortUnfence, GroupFault::Reported(e));
                    None
                },
            },
            GroupReply::Done => {
                self.succeed(GroupReply::Done);
                None
            },
            GroupReply::At(n) => {
                self.succeed(GroupReply::At(n));
                None
            },
            GroupReply::Tail(t) => {
                self.succeed(GroupReply::Tail(t));
                None
            },
        }
    }

    /// Whether the move has ended.
    pub fn ended(&self) -> (r: bool)
        ensures
            r == (self@.stage == GroupStage::Ended),
    {
        match self.stage {
            GroupStage::Ended => true,
            _ => false,
        }
    }

    /// The outcome of a move that has ended: the new generation, or why it did not swap.
    pub fn outcome(self) -> (r: Result<u64, GroupFault<E>>)
        requires
            self@.stage == GroupStage::Ended,
        ensures
            match self@.fault {
                Some(f) => r == Err::<u64, GroupFault<E>>(f),
                None => r == Ok::<u64, GroupFault<E>>(self@.limits.generation),
            },
    {
        match self.fault {
            Some(f) => Err(f),
            None => Ok(self.limits.generation),
        }
    }
}

} // verus!
