//! Laws of the group move.
use crate::coordinator::group_move::{
    drain_cap, furthest, group_answers, group_call, group_next, group_start, group_valid,
    lease_floor, lemma_next_member, next_member, source_stays, Established, Fenced, GroupCall,
    GroupFault, GroupLimits, GroupMoveView, GroupNotice, GroupReply, GroupStage, MemberRole,
};
use crate::coordinator::handoff::FenceKnown;
use vstd::prelude::*;

verus! {

/// What the calls of a move have done outside.
#[verifier::ext_equal]
pub ghost struct GroupWorld {
    /// How often the source's tail was pinned, and unpinning tried.
    pub leased: nat,
    pub released: nat,
    pub fence: FenceKnown,
    /// The fenced source's tail was read and was empty.
    pub frozen: bool,
    /// The members that a replay of the frozen tail found complete.
    pub complete: Set<int>,
    pub swapped: bool,
    /// A failed unfence or release was reported to the operator.
    pub reported: bool,
}

/// Before the first call.
pub open spec fn world_start() -> GroupWorld {
    GroupWorld {
        leased: 0,
        released: 0,
        fence: FenceKnown::Off,
        frozen: false,
        complete: Set::empty(),
        swapped: false,
        reported: false,
    }
}

/// What one call and its reply do outside.
pub open spec fn group_effect<E>(
    w: GroupWorld,
    call: GroupCall,
    reply: GroupReply<E>,
    notice: Option<GroupNotice<E>>,
) -> GroupWorld {
    let failed = reply is Failed;
    let w = GroupWorld { reported: w.reported || notice is Some, ..w };
    match call {
        GroupCall::AcquireLease => if failed {
            w
        } else {
            GroupWorld { leased: w.leased + 1, ..w }
        },
        GroupCall::ReleaseLease => GroupWorld { released: w.released + 1, ..w },
        GroupCall::FenceSource { .. } => GroupWorld {
            fence: if failed {
                FenceKnown::Unknown
            } else {
                FenceKnown::On
            },
            ..w
        },
        GroupCall::UnfenceSource { .. } => GroupWorld {
            fence: if failed {
                FenceKnown::Unknown
            } else {
                FenceKnown::Off
            },
            ..w
        },
        GroupCall::ReadTail { .. } => GroupWorld {
            frozen: w.frozen || (w.fence is On && reply == GroupReply::<E>::Tail(None)),
            ..w
        },
        GroupCall::CatchUp { member, after } => if w.frozen && reply == GroupReply::<E>::At(after) {
            GroupWorld { complete: w.complete.insert(member as int), ..w }
        } else {
            w
        },
        GroupCall::SwapBacking { .. } => GroupWorld { swapped: true, ..w },
        _ => w,
    }
}

/// The move and the world after a run of replies.
pub open spec fn group_run<E>(
    limits: GroupLimits,
    roles: Seq<MemberRole>,
    replies: Seq<GroupReply<E>>,
) -> (GroupMoveView<E>, GroupWorld)
    decreases replies.len(),
{
    if replies.len() == 0 {
        (group_start(limits, roles), world_start())
    } else {
        let (g, w) = group_run(limits, roles, replies.drop_last());
        let (next, notice) = group_next(g, replies.last());
        (next, group_effect(w, group_call(g), replies.last(), notice))
    }
}

/// Every reply answers the call that was due.
pub open spec fn group_runs<E>(
    limits: GroupLimits,
    roles: Seq<MemberRole>,
    replies: Seq<GroupReply<E>>,
) -> bool
    decreases replies.len(),
{
    &&& roles.len() < usize::MAX
    &&& replies.len() > 0 ==> {
        let (g, _) = group_run(limits, roles, replies.drop_last());
        &&& group_runs(limits, roles, replies.drop_last())
        &&& group_answers(group_call(g), replies.last())
    }
}

/// Every new member below `upto` is established.
spec fn fresh_covered(roles: Seq<MemberRole>, established: Seq<Established>, upto: int) -> bool {
    forall|i: int|
        0 <= i < upto && i < roles.len() && #[trigger] roles[i] == MemberRole::Fresh ==> exists|k: int|
            0 <= k < established.len() && (#[trigger] established[k]).member == i
}

/// The first `upto` established members are complete.
spec fn slots_complete(established: Seq<Established>, complete: Set<int>, upto: int) -> bool {
    forall|k: int|
        0 <= k < upto && k < established.len() ==> complete.contains(
            (#[trigger] established[k]).member as int,
        )
}

/// Every member below `upto` with this role is complete.
spec fn role_complete(roles: Seq<MemberRole>, complete: Set<int>, role: MemberRole, upto: int) -> bool {
    forall|i: int|
        0 <= i < upto && i < roles.len() && #[trigger] roles[i] == role ==> complete.contains(i)
}

spec fn fenced<E>(g: GroupMoveView<E>, w: GroupWorld) -> bool {
    &&& w.leased == 1
    &&& w.released == 0
    &&& w.fence is On
    &&& !w.swapped
    &&& !w.reported
}

spec fn group_consistent<E>(g: GroupMoveView<E>, w: GroupWorld) -> bool {
    let n = g.roles.len() as int;
    let fresh = MemberRole::Fresh;
    let kept = MemberRole::Retained;
    &&& group_valid(g)
    &&& match g.stage {
        GroupStage::Connect | GroupStage::ProbeSource | GroupStage::ClearSource { .. }
        | GroupStage::Lease => w.leased == 0 && w.released == 0 && w.fence is Off && !w.swapped
            && !w.reported && g.fault is None && g.established.len() == 0,
        GroupStage::Adopt { member } | GroupStage::Probe { member }
        | GroupStage::Clear { member, .. } | GroupStage::Recover { member }
        | GroupStage::CatchUp { member, .. } | GroupStage::Renew { member, .. } => w.leased == 1
            && w.released == 0 && w.fence is Off && !w.swapped && !w.reported && g.fault is None
            && fresh_covered(g.roles, g.established, member as int),
        GroupStage::Fence => w.leased == 1 && w.released == 0 && w.fence is Off && !w.swapped
            && !w.reported && g.fault is None && fresh_covered(g.roles, g.established, n),
        GroupStage::FenceCleanup => w.leased == 1 && w.released == 0 && w.fence is Unknown
            && !w.swapped && !w.reported && g.fault is Some,
        GroupStage::ReadTail { .. } | GroupStage::TailRenew { .. } => fenced(g, w) && g.fault is None
            && fresh_covered(g.roles, g.established, n),
        GroupStage::Drain { slot, .. } => fenced(g, w) && g.fault is None && w.frozen
            && fresh_covered(g.roles, g.established, n) && slots_complete(
            g.established,
            w.complete,
            slot as int,
        ),
        GroupStage::DrainRenew { slot, before, .. } => fenced(g, w) && g.fault is None && w.frozen
            && fresh_covered(g.roles, g.established, n) && slots_complete(
            g.established,
            w.complete,
            slot as int,
        ) && (g.established[slot as int].hwm == before ==> w.complete.contains(
            g.established[slot as int].member as int,
        )),
        GroupStage::KeepAdopt { member } | GroupStage::KeepProbe { member }
        | GroupStage::KeepClear { member, .. } | GroupStage::KeepRecover { member }
        | GroupStage::KeepVerify { member, .. } => fenced(g, w) && g.fault is None && w.frozen
            && role_complete(g.roles, w.complete, fresh, n) && role_complete(
            g.roles,
            w.complete,
            kept,
            member as int,
        ),
        GroupStage::Attach { .. } | GroupStage::Swap => fenced(g, w) && g.fault is None && w.frozen
            && role_complete(g.roles, w.complete, fresh, n) && role_complete(
            g.roles,
            w.complete,
            kept,
            n,
        ),
        GroupStage::Unfence => w.leased == 1 && w.released == 0 && w.fence is On && w.swapped
            && !w.reported && g.fault is None && source_stays(g.roles),
        GroupStage::AbortUnfence => fenced(g, w) && g.fault is Some,
        GroupStage::Release => w.leased == 1 && w.released == 0 && (g.fault is None <==> w.swapped)
            && (!w.reported ==> (w.fence is Off <==> (!w.swapped || source_stays(g.roles)))) && (
        w.swapped && !source_stays(g.roles) ==> w.fence is On),
        GroupStage::Ended => w.released == w.leased && w.leased <= 1 && (g.fault is None
            <==> w.swapped) && (!w.reported ==> (w.fence is Off <==> (!w.swapped || source_stays(
            g.roles,
        )))) && (w.swapped && !source_stays(g.roles) ==> w.fence is On),
    }
}

proof fn lemma_to_drain_consistent<E>(g: GroupMoveView<E>, w: GroupWorld, slot: nat)
    requires
        g.roles.len() < usize::MAX,
        fenced(g, w),
        g.fault is None,
        w.frozen,
        fresh_covered(g.roles, g.established, g.roles.len() as int),
        slots_complete(g.established, w.complete, slot as int),
        g.established.len() <= g.roles.len(),
    ensures
        group_consistent(crate::coordinator::group_move::to_drain(g, slot), w),
{
    if slot >= g.established.len() {
        assert(role_complete(g.roles, w.complete, MemberRole::Fresh, g.roles.len() as int)) by {
            assert forall|i: int|
                0 <= i < g.roles.len() && #[trigger] g.roles[i]
                    == MemberRole::Fresh implies w.complete.contains(i) by {
                let k = choose|k: int|
                    0 <= k < g.established.len() && (#[trigger] g.established[k]).member == i;
                assert(w.complete.contains(g.established[k].member as int));
            }
        }
        lemma_to_keep_consistent(g, w, 0);
    }
}

proof fn lemma_to_keep_consistent<E>(g: GroupMoveView<E>, w: GroupWorld, from: nat)
    requires
        g.roles.len() < usize::MAX,
        fenced(g, w),
        g.fault is None,
        w.frozen,
        from <= g.roles.len(),
        role_complete(g.roles, w.complete, MemberRole::Fresh, g.roles.len() as int),
        role_complete(g.roles, w.complete, MemberRole::Retained, from as int),
    ensures
        group_consistent(crate::coordinator::group_move::to_keep(g, from), w),
{
    lemma_next_member(g.roles, MemberRole::Retained, from);
    lemma_next_member(g.roles, MemberRole::Source, 0);
    let i = next_member(g.roles, MemberRole::Retained, from);
    assert(role_complete(g.roles, w.complete, MemberRole::Retained, i as int));
}

proof fn lemma_to_fresh_consistent<E>(g: GroupMoveView<E>, w: GroupWorld, from: nat)
    requires
        g.roles.len() < usize::MAX,
        w.leased == 1,
        w.released == 0,
        w.fence is Off,
        !w.swapped,
        !w.reported,
        g.fault is None,
        g.established.len() <= from <= g.roles.len(),
        fresh_covered(g.roles, g.established, from as int),
    ensures
        group_consistent(crate::coordinator::group_move::to_fresh(g, from), w),
{
    lemma_next_member(g.roles, MemberRole::Fresh, from);
    let i = next_member(g.roles, MemberRole::Fresh, from);
    assert(fresh_covered(g.roles, g.established, i as int));
}

proof fn lemma_covered_push(
    roles: Seq<MemberRole>,
    established: Seq<Established>,
    e: Established,
)
    requires
        fresh_covered(roles, established, e.member as int),
    ensures
        fresh_covered(roles, established.push(e), e.member + 1),
{
    let after = established.push(e);
    assert forall|i: int|
        0 <= i < e.member + 1 && i < roles.len() && #[trigger] roles[i]
            == MemberRole::Fresh implies exists|k: int|
        0 <= k < after.len() && (#[trigger] after[k]).member == i by {
        if i == e.member {
            assert(after[established.len() as int].member == i);
        } else {
            let k = choose|k: int|
                0 <= k < established.len() && (#[trigger] established[k]).member == i;
            assert(after[k].member == i);
        }
    }
}

proof fn lemma_covered_update(
    roles: Seq<MemberRole>,
    established: Seq<Established>,
    slot: int,
    hwm: u64,
    upto: int,
)
    requires
        0 <= slot < established.len(),
        fresh_covered(roles, established, upto),
    ensures
        fresh_covered(
            roles,
            established.update(slot, Established { member: established[slot].member, hwm }),
            upto,
        ),
{
    let after = established.update(slot, Established { member: established[slot].member, hwm });
    assert forall|i: int|
        0 <= i < upto && i < roles.len() && #[trigger] roles[i]
            == MemberRole::Fresh implies exists|k: int|
        0 <= k < after.len() && (#[trigger] after[k]).member == i by {
        let k = choose|k: int| 0 <= k < established.len() && (#[trigger] established[k]).member == i;
        assert(after[k].member == i);
    }
}

proof fn lemma_step_consistent<E>(g: GroupMoveView<E>, w: GroupWorld, reply: GroupReply<E>)
    requires
        group_consistent(g, w),
        group_answers(group_call(g), reply),
    ensures
        ({
            let (next, notice) = group_next(g, reply);
            group_consistent(next, group_effect(w, group_call(g), reply, notice))
        }),
{
    let (next, notice) = group_next(g, reply);
    let w1 = group_effect(w, group_call(g), reply, notice);
    if !(reply is Failed) {
        match g.stage {
            GroupStage::Lease => {
                let p = reply->At_0;
                lemma_to_fresh_consistent(GroupMoveView { pinned: p, ..g }, w1, 0);
            },
            GroupStage::Recover { member } => {
                let p = reply->At_0;
                if !(0 < g.limits.drain_passes) {
                    let e = Established { member, hwm: p };
                    lemma_covered_push(g.roles, g.established, e);
                    lemma_to_fresh_consistent(
                        GroupMoveView { established: g.established.push(e), ..g },
                        w1,
                        (member + 1) as nat,
                    );
                }
            },
            GroupStage::Renew { member, hwm, next: nx, pass } => {
                if nx == hwm || !(pass + 1 < g.limits.drain_passes) {
                    let e = Established { member, hwm: nx };
                    lemma_covered_push(g.roles, g.established, e);
                    lemma_to_fresh_consistent(
                        GroupMoveView { established: g.established.push(e), ..g },
                        w1,
                        (member + 1) as nat,
                    );
                }
            },
            GroupStage::ReadTail { .. } => {
                if reply == GroupReply::<E>::Tail(None) {
                    lemma_to_drain_consistent(g, w1, 0);
                }
            },
            GroupStage::Drain { slot, .. } => {
                let p = reply->At_0;
                lemma_covered_update(
                    g.roles,
                    g.established,
                    slot as int,
                    p,
                    g.roles.len() as int,
                );
                assert(slots_complete(next.established, w1.complete, slot as int)) by {
                    assert forall|k: int|
                        0 <= k < slot && k < next.established.len() implies w1.complete.contains(
                        (#[trigger] next.established[k]).member as int,
                    ) by {
                        assert(w.complete.contains(g.established[k].member as int));
                    }
                }
            },
            GroupStage::DrainRenew { slot, before, .. } => {
                if g.established[slot as int].hwm == before {
                    lemma_to_drain_consistent(g, w1, (slot + 1) as nat);
                }
            },
            GroupStage::KeepVerify { member, seal } => {
                let p = reply->At_0;
                if p == seal {
                    let g1 = GroupMoveView {
                        established: g.established.push(Established { member, hwm: seal }),
                        ..g
                    };
                    assert(role_complete(
                        g.roles,
                        w1.complete,
                        MemberRole::Retained,
                        member + 1,
                    ));
                    lemma_to_keep_consistent(g1, w1, (member + 1) as nat);
                }
            },
            _ => {},
        }
    }
}

proof fn lemma_group_consistent<E>(
    limits: GroupLimits,
    roles: Seq<MemberRole>,
    replies: Seq<GroupReply<E>>,
)
    requires
        group_runs(limits, roles, replies),
    ensures
        group_consistent(
            group_run(limits, roles, replies).0,
            group_run(limits, roles, replies).1,
        ),
        group_run(limits, roles, replies).0.roles == roles,
        group_run(limits, roles, replies).0.limits == limits,
    decreases replies.len(),
{
    if replies.len() > 0 {
        lemma_group_consistent(limits, roles, replies.drop_last());
        let (g, w) = group_run(limits, roles, replies.drop_last());
        lemma_step_consistent(g, w, replies.last());
    }
}

/// Routing is swapped only onto a group that misses nothing: when the swap is due, the source
/// refuses writes, its tail was read to its end, and every member but the source itself was found
/// complete behind that point.
pub proof fn law_swap_follows_a_complete_group<E>(
    limits: GroupLimits,
    roles: Seq<MemberRole>,
    replies: Seq<GroupReply<E>>,
)
    requires
        group_runs(limits, roles, replies),
        group_call(group_run(limits, roles, replies).0) is SwapBacking,
    ensures
        group_run(limits, roles, replies).1.fence is On,
        group_run(limits, roles, replies).1.frozen,
        forall|i: int|
            0 <= i < roles.len() && #[trigger] roles[i] != MemberRole::Source ==> group_run(
                limits,
                roles,
                replies,
            ).1.complete.contains(i),
{
    lemma_group_consistent(limits, roles, replies);
    let w = group_run(limits, roles, replies).1;
    assert forall|i: int|
        0 <= i < roles.len() && #[trigger] roles[i] != MemberRole::Source implies w.complete.contains(
        i,
    ) by {
        assert(roles[i] == MemberRole::Fresh || roles[i] == MemberRole::Retained);
    }
}

/// A member that serves reads is copied again only from a frozen source: while a retained member is
/// adopted, recovered or verified, the source refuses writes and its tail was read to its end.
pub proof fn law_retained_members_are_copied_frozen<E>(
    limits: GroupLimits,
    roles: Seq<MemberRole>,
    replies: Seq<GroupReply<E>>,
)
    requires
        group_runs(limits, roles, replies),
        match group_call(group_run(limits, roles, replies).0) {
            GroupCall::Recover { member } => member < roles.len() && roles[member as int]
                == MemberRole::Retained,
            _ => false,
        },
    ensures
        group_run(limits, roles, replies).1.fence is On,
        group_run(limits, roles, replies).1.frozen,
{
    lemma_group_consistent(limits, roles, replies);
    lemma_fresh_stage_is_fresh(limits, roles, replies);
}

/// The members that are filled before the fence are the new ones.
proof fn lemma_fresh_stage_is_fresh<E>(
    limits: GroupLimits,
    roles: Seq<MemberRole>,
    replies: Seq<GroupReply<E>>,
)
    requires
        group_runs(limits, roles, replies),
    ensures
        match group_run(limits, roles, replies).0.stage {
            GroupStage::Adopt { member } | GroupStage::Probe { member }
            | GroupStage::Clear { member, .. } | GroupStage::Recover { member }
            | GroupStage::CatchUp { member, .. } | GroupStage::Renew { member, .. } => member
                < roles.len() && roles[member as int] == MemberRole::Fresh,
            _ => true,
        },
    decreases replies.len(),
{
    if replies.len() > 0 {
        lemma_fresh_stage_is_fresh(limits, roles, replies.drop_last());
        lemma_group_consistent(limits, roles, replies.drop_last());
        let g = group_run(limits, roles, replies.drop_last()).0;
        lemma_next_member(roles, MemberRole::Fresh, 0);
        match g.stage {
            GroupStage::Recover { member } | GroupStage::Renew { member, .. } => {
                lemma_next_member(roles, MemberRole::Fresh, (member + 1) as nat);
            },
            _ => {},
        }
    }
}

/// A move that has ended either swapped and reports no fault, or did not swap and reports one. One
/// that did not swap leaves the source taking writes; after a swap the source takes writes if it
/// stays a member and stays fenced if it does not. A failed unfence was reported.
pub proof fn law_ended_group_move_swapped_or_rolled_back<E>(
    limits: GroupLimits,
    roles: Seq<MemberRole>,
    replies: Seq<GroupReply<E>>,
)
    requires
        group_runs(limits, roles, replies),
        group_run(limits, roles, replies).0.stage == GroupStage::Ended,
    ensures
        ({
            let (g, w) = group_run(limits, roles, replies);
            &&& g.fault is None <==> w.swapped
            &&& !w.reported ==> (w.fence is Off <==> (!w.swapped || source_stays(roles)))
            &&& w.swapped && !source_stays(roles) ==> w.fence is On
            &&& w.released == w.leased
        }),
{
    lemma_group_consistent(limits, roles, replies);
}

/// The source may never trim what a lagging member still needs: whenever the lease is renewed, it
/// is to no more than the high water of any established member.
pub proof fn law_lease_never_passes_a_lagging_member<E>(g: GroupMoveView<E>, k: int)
    requires
        group_call(g) is RenewLease,
        0 <= k < g.established.len(),
    ensures
        group_call(g)->to <= g.established[k].hwm,
{
    let candidate = match g.stage {
        GroupStage::Renew { next, .. } => next,
        GroupStage::TailRenew { .. } => g.pinned,
        GroupStage::DrainRenew { slot, .. } => g.established[slot as int].hwm,
        _ => 0,
    };
    lemma_lease_floor(g.established, candidate, k);
}

proof fn lemma_lease_floor(established: Seq<Established>, candidate: u64, k: int)
    requires
        0 <= k < established.len(),
    ensures
        lease_floor(established, candidate) <= established[k].hwm,
        lease_floor(established, candidate) <= candidate,
    decreases established.len(),
{
    if established.len() > 0 {
        if k < established.len() - 1 {
            lemma_lease_floor(established.drop_last(), candidate, k);
        } else if established.len() > 1 {
            lemma_lease_floor(established.drop_last(), candidate, 0);
        }
    }
}

/// How far a move still is from its end: by phase, then by members left, then by steps left.
pub open spec fn group_measure<E>(g: GroupMoveView<E>) -> (int, int, int) {
    let n = g.roles.len() as int;
    let passes = g.limits.drain_passes as int;
    match g.stage {
        GroupStage::Connect => (9, 0, 3),
        GroupStage::ProbeSource => (9, 0, 2),
        GroupStage::ClearSource { .. } => (9, 0, 1),
        GroupStage::Lease => (9, 0, 0),
        GroupStage::Adopt { member } => (8, n - member, 2 * passes + 4),
        GroupStage::Probe { member } => (8, n - member, 2 * passes + 3),
        GroupStage::Clear { member, .. } => (8, n - member, 2 * passes + 2),
        GroupStage::Recover { member } => (8, n - member, 2 * passes + 1),
        GroupStage::CatchUp { member, pass, .. } => (8, n - member, 2 * (passes - pass)),
        GroupStage::Renew { member, pass, .. } => (8, n - member, 2 * (passes - pass) - 1),
        GroupStage::Fence => (7, 0, 0),
        GroupStage::ReadTail { pass, .. } => (6, 0, 2 * (g.limits.final_drain_cap - pass) + 1),
        GroupStage::TailRenew { pass, .. } => (6, 0, 2 * (g.limits.final_drain_cap - pass)),
        GroupStage::Drain { slot, pass } => (
            5,
            g.established.len() - slot,
            2 * (drain_cap(g.limits) - pass) + 1,
        ),
        GroupStage::DrainRenew { slot, pass, .. } => (
            5,
            g.established.len() - slot,
            2 * (drain_cap(g.limits) - pass),
        ),
        GroupStage::KeepAdopt { member } => (4, n - member, 4),
        GroupStage::KeepProbe { member } => (4, n - member, 3),
        GroupStage::KeepClear { member, .. } => (4, n - member, 2),
        GroupStage::KeepRecover { member } => (4, n - member, 1),
        GroupStage::KeepVerify { member, .. } => (4, n - member, 0),
        GroupStage::Attach { .. } => (3, 0, 2),
        GroupStage::Swap => (3, 0, 1),
        GroupStage::Unfence | GroupStage::AbortUnfence | GroupStage::FenceCleanup => (2, 0, 0),
        GroupStage::Release => (1, 0, 0),
        GroupStage::Ended => (0, 0, 0),
    }
}

/// The order of measures.
pub open spec fn measure_less(a: (int, int, int), b: (int, int, int)) -> bool {
    &&& 0 <= a.0 && 0 <= a.1 && 0 <= a.2
    &&& a.0 < b.0 || (a.0 == b.0 && (a.1 < b.1 || (a.1 == b.1 && a.2 < b.2)))
}

/// Every reply brings a move nearer to its end, so it ends whatever the calls answer.
#[verifier::rlimit(80)]
pub proof fn law_group_move_ends<E>(g: GroupMoveView<E>, reply: GroupReply<E>)
    requires
        group_valid(g),
        group_answers(group_call(g), reply),
    ensures
        measure_less(group_measure(group_next(g, reply).0), group_measure(g)),
{
    lemma_next_member(g.roles, MemberRole::Source, 0);
    lemma_next_member(g.roles, MemberRole::Fresh, 0);
    lemma_next_member(g.roles, MemberRole::Retained, 0);
    match g.stage {
        GroupStage::Recover { member } | GroupStage::Renew { member, .. } => {
            lemma_next_member(g.roles, MemberRole::Fresh, (member + 1) as nat);
        },
        GroupStage::KeepVerify { member, .. } => {
            lemma_next_member(g.roles, MemberRole::Retained, (member + 1) as nat);
        },
        _ => {},
    }
}

/// How far each member holds the source's data: what the last copy into it or replay into it gave.
pub open spec fn group_reached<E>(
    limits: GroupLimits,
    roles: Seq<MemberRole>,
    replies: Seq<GroupReply<E>>,
) -> Map<int, u64>
    decreases replies.len(),
{
    if replies.len() == 0 {
        Map::empty()
    } else {
        let (g, _) = group_run(limits, roles, replies.drop_last());
        let before = group_reached(limits, roles, replies.drop_last());
        match (group_call(g), replies.last()) {
            (GroupCall::Recover { member }, GroupReply::At(p)) => before.insert(member as int, p),
            (GroupCall::CatchUp { member, .. }, GroupReply::At(p)) => before.insert(
                member as int,
                p,
            ),
            _ => before,
        }
    }
}

/// The established members are where they are known to be, and none is established twice.
spec fn known<E>(g: GroupMoveView<E>, at: Map<int, u64>) -> bool {
    &&& forall|k: int|
        0 <= k < g.established.len() ==> at.contains_key(
            (#[trigger] g.established[k]).member as int,
        ) && at[g.established[k].member as int] == g.established[k].hwm
    &&& forall|j: int, k: int|
        0 <= j < k < g.established.len() ==> (#[trigger] g.established[j]).member != (
        #[trigger] g.established[k]).member
}

/// Every established member is a new one, and below `upto`.
spec fn all_fresh<E>(g: GroupMoveView<E>, upto: int) -> bool {
    forall|k: int|
        0 <= k < g.established.len() ==> (#[trigger] g.established[k]).member < upto
            && g.established[k].member < g.roles.len()
            && g.roles[g.established[k].member as int] == MemberRole::Fresh
}

/// Every established member is a new one, or one that stays below `upto`.
spec fn fresh_or_kept<E>(g: GroupMoveView<E>, upto: int) -> bool {
    forall|k: int|
        0 <= k < g.established.len() ==> (#[trigger] g.established[k]).member < g.roles.len() && (
        g.roles[g.established[k].member as int] == MemberRole::Fresh
            || g.roles[g.established[k].member as int] == MemberRole::Retained
            && g.established[k].member < upto)
}

spec fn located<E>(g: GroupMoveView<E>, at: Map<int, u64>) -> bool {
    let n = g.roles.len() as int;
    match g.stage {
        GroupStage::Connect | GroupStage::ProbeSource | GroupStage::ClearSource { .. }
        | GroupStage::Lease => g.established.len() == 0,
        GroupStage::Adopt { member } | GroupStage::Probe { member }
        | GroupStage::Clear { member, .. } | GroupStage::Recover { member } => known(g, at)
            && all_fresh(g, member as int) && member < n && g.roles[member as int]
            == MemberRole::Fresh,
        GroupStage::CatchUp { member, hwm, .. } => known(g, at) && all_fresh(g, member as int)
            && member < n && g.roles[member as int] == MemberRole::Fresh && at.contains_key(
            member as int,
        ) && at[member as int] == hwm,
        GroupStage::Renew { member, next, .. } => known(g, at) && all_fresh(g, member as int)
            && member < n && g.roles[member as int] == MemberRole::Fresh && at.contains_key(
            member as int,
        ) && at[member as int] == next,
        GroupStage::Fence | GroupStage::ReadTail { .. } | GroupStage::TailRenew { .. }
        | GroupStage::Drain { .. } | GroupStage::DrainRenew { .. } => known(g, at) && all_fresh(
            g,
            n,
        ),
        GroupStage::KeepAdopt { member } | GroupStage::KeepProbe { member }
        | GroupStage::KeepClear { member, .. } | GroupStage::KeepRecover { member } => known(g, at)
            && fresh_or_kept(g, member as int) && member < n && g.roles[member as int]
            == MemberRole::Retained,
        GroupStage::KeepVerify { member, seal } => known(g, at) && fresh_or_kept(g, member as int)
            && member < n && g.roles[member as int] == MemberRole::Retained && at.contains_key(
            member as int,
        ) && at[member as int] == seal,
        _ => true,
    }
}

proof fn lemma_to_fresh_located<E>(g: GroupMoveView<E>, at: Map<int, u64>, from: nat)
    requires
        from <= g.roles.len(),
        g.roles.len() < usize::MAX,
        known(g, at),
        all_fresh(g, from as int),
    ensures
        located(crate::coordinator::group_move::to_fresh(g, from), at),
{
    lemma_next_member(g.roles, MemberRole::Fresh, from);
    let r = crate::coordinator::group_move::to_fresh(g, from);
    assert(known(r, at));
}

proof fn lemma_to_keep_located<E>(g: GroupMoveView<E>, at: Map<int, u64>, from: nat)
    requires
        from <= g.roles.len(),
        g.roles.len() < usize::MAX,
        known(g, at),
        fresh_or_kept(g, from as int),
    ensures
        located(crate::coordinator::group_move::to_keep(g, from), at),
{
    lemma_next_member(g.roles, MemberRole::Retained, from);
    lemma_next_member(g.roles, MemberRole::Source, 0);
    let r = crate::coordinator::group_move::to_keep(g, from);
    assert(known(r, at));
}

proof fn lemma_push_located<E>(g: GroupMoveView<E>, at: Map<int, u64>, e: Established)
    requires
        known(g, at),
        at.contains_key(e.member as int),
        at[e.member as int] == e.hwm,
        forall|k: int|
            0 <= k < g.established.len() ==> (#[trigger] g.established[k]).member != e.member,
    ensures
        known(GroupMoveView { established: g.established.push(e), ..g }, at),
{
}

proof fn lemma_step_located<E>(g: GroupMoveView<E>, at: Map<int, u64>, reply: GroupReply<E>)
    requires
        group_valid(g),
        located(g, at),
        group_answers(group_call(g), reply),
    ensures
        located(
            group_next(g, reply).0,
            match (group_call(g), reply) {
                (GroupCall::Recover { member }, GroupReply::At(p)) => at.insert(member as int, p),
                (GroupCall::CatchUp { member, .. }, GroupReply::At(p)) => at.insert(
                    member as int,
                    p,
                ),
                _ => at,
            },
        ),
{
    let next = group_next(g, reply).0;
    let now = match (group_call(g), reply) {
        (GroupCall::Recover { member }, GroupReply::At(p)) => at.insert(member as int, p),
        (GroupCall::CatchUp { member, .. }, GroupReply::At(p)) => at.insert(member as int, p),
        _ => at,
    };
    if !(reply is Failed) {
        match g.stage {
            GroupStage::Lease => {
                let g1 = GroupMoveView { pinned: reply->At_0, ..g };
                lemma_to_fresh_located(g1, now, 0);
            },
            GroupStage::Recover { member } => {
                assert(known(g, now));
                if !(0 < g.limits.drain_passes) {
                    let e = Established { member, hwm: reply->At_0 };
                    lemma_push_located(g, now, e);
                    lemma_to_fresh_located(
                        GroupMoveView { established: g.established.push(e), ..g },
                        now,
                        (member + 1) as nat,
                    );
                }
            },
            GroupStage::CatchUp { .. } => {
                assert(known(g, now));
            },
            GroupStage::Renew { member, hwm, next: nx, pass } => {
                if nx == hwm || !(pass + 1 < g.limits.drain_passes) {
                    let e = Established { member, hwm: nx };
                    lemma_push_located(g, now, e);
                    lemma_to_fresh_located(
                        GroupMoveView { established: g.established.push(e), ..g },
                        now,
                        (member + 1) as nat,
                    );
                }
            },
            GroupStage::ReadTail { .. } => {
                if reply == GroupReply::<E>::Tail(None) && g.established.len() == 0 {
                    lemma_to_keep_located(g, now, 0);
                }
            },
            GroupStage::Drain { slot, .. } => {
                assert forall|k: int| 0 <= k < next.established.len() implies now.contains_key(
                    (#[trigger] next.established[k]).member as int,
                ) && now[next.established[k].member as int] == next.established[k].hwm by {
                    if k != slot {
                        assert(next.established[k] == g.established[k]);
                        assert(g.established[k].member != g.established[slot as int].member);
                    }
                }
                assert forall|j: int, k: int| 0 <= j < k < next.established.len() implies (
                #[trigger] next.established[j]).member != (#[trigger] next.established[k]).member by {
                    assert(g.established[j].member != g.established[k].member);
                }
                assert forall|k: int| 0 <= k < next.established.len() implies (
                #[trigger] next.established[k]).member < g.roles.len()
                    && g.roles[next.established[k].member as int] == MemberRole::Fresh by {
                    assert(g.established[k].member < g.roles.len());
                }
            },
            GroupStage::DrainRenew { slot, before, .. } => {
                if g.established[slot as int].hwm == before && slot + 1 >= g.established.len() {
                    assert(fresh_or_kept(g, 0));
                    lemma_to_keep_located(g, now, 0);
                }
            },
            GroupStage::KeepRecover { .. } => {
                assert(known(g, now));
            },
            GroupStage::KeepVerify { member, seal } => {
                if reply->At_0 == seal {
                    let e = Established { member, hwm: seal };
                    assert(now =~= at);
                    lemma_push_located(g, now, e);
                    lemma_to_keep_located(
                        GroupMoveView { established: g.established.push(e), ..g },
                        now,
                        (member + 1) as nat,
                    );
                }
            },
            _ => {},
        }
    }
}

proof fn lemma_group_located<E>(
    limits: GroupLimits,
    roles: Seq<MemberRole>,
    replies: Seq<GroupReply<E>>,
)
    requires
        group_runs(limits, roles, replies),
    ensures
        located(group_run(limits, roles, replies).0, group_reached(limits, roles, replies)),
    decreases replies.len(),
{
    if replies.len() > 0 {
        let d = replies.drop_last();
        lemma_group_located(limits, roles, d);
        lemma_group_consistent(limits, roles, d);
        lemma_step_located(
            group_run(limits, roles, d).0,
            group_reached(limits, roles, d),
            replies.last(),
        );
    }
}

/// No record between two replays into a member is skipped: each starts at the position that this
/// member has reached, which is what the last copy or replay into it gave.
pub proof fn law_each_member_goes_on_where_it_was<E>(
    limits: GroupLimits,
    roles: Seq<MemberRole>,
    replies: Seq<GroupReply<E>>,
)
    requires
        group_runs(limits, roles, replies),
    ensures
        group_call(group_run(limits, roles, replies).0) matches GroupCall::CatchUp { member, after }
            ==> {
            let at = group_reached(limits, roles, replies);
            &&& at.contains_key(member as int)
            &&& at[member as int] == after
        },
{
    lemma_group_located(limits, roles, replies);
    let g = group_run(limits, roles, replies).0;
    lemma_group_consistent(limits, roles, replies);
    if let GroupStage::Drain { slot, .. } = g.stage {
        assert(g.established[slot as int].member < roles.len());
    }
}

/// The lease is renewed to where some member or the pin is, and no further than any member is.
pub proof fn law_the_lease_follows_the_slowest_member<E>(
    limits: GroupLimits,
    roles: Seq<MemberRole>,
    replies: Seq<GroupReply<E>>,
)
    requires
        group_runs(limits, roles, replies),
        group_call(group_run(limits, roles, replies).0) is RenewLease,
    ensures
        ({
            let g = group_run(limits, roles, replies).0;
            let at = group_reached(limits, roles, replies);
            let to = group_call(g)->to;
            &&& forall|k: int|
                0 <= k < g.established.len() ==> to <= at[(
                #[trigger] g.established[k]).member as int]
            &&& to == g.pinned || exists|m: int| #[trigger] at.contains_key(m) && at[m] == to
        }),
{
    lemma_group_located(limits, roles, replies);
    lemma_group_consistent(limits, roles, replies);
    let g = group_run(limits, roles, replies).0;
    let at = group_reached(limits, roles, replies);
    assert forall|k: int| 0 <= k < g.established.len() implies group_call(g)->to <= at[(
    #[trigger] g.established[k]).member as int] by {
        law_lease_never_passes_a_lagging_member(g, k);
    }
    let candidate = match g.stage {
        GroupStage::Renew { next, .. } => next,
        GroupStage::TailRenew { .. } => g.pinned,
        GroupStage::DrainRenew { slot, .. } => g.established[slot as int].hwm,
        _ => 0,
    };
    lemma_floor_attained(g.established, candidate);
    let to = group_call(g)->to;
    if to != candidate {
        let k = choose|k: int|
            0 <= k < g.established.len() && (#[trigger] g.established[k]).hwm == to;
        assert(at.contains_key(g.established[k].member as int));
    } else {
        match g.stage {
            GroupStage::Renew { member, .. } => {
                assert(at.contains_key(member as int));
            },
            GroupStage::DrainRenew { slot, .. } => {
                assert(at.contains_key(g.established[slot as int].member as int));
            },
            _ => {},
        }
    }
}

proof fn lemma_floor_attained(established: Seq<Established>, candidate: u64)
    ensures
        lease_floor(established, candidate) == candidate || exists|k: int|
            0 <= k < established.len() && (#[trigger] established[k]).hwm == lease_floor(
                established,
                candidate,
            ),
    decreases established.len(),
{
    if established.len() > 0 {
        let d = established.drop_last();
        lemma_floor_attained(d, candidate);
        let f = lease_floor(established, candidate);
        if f == established.last().hwm {
            assert(established[established.len() - 1].hwm == f);
        } else if f != candidate {
            let k = choose|k: int| 0 <= k < d.len() && (#[trigger] d[k]).hwm == f;
            assert(established[k].hwm == f);
        }
    }
}

proof fn lemma_furthest(established: Seq<Established>, pinned: u64)
    ensures
        furthest(established, pinned) >= pinned,
        forall|k: int|
            0 <= k < established.len() ==> (#[trigger] established[k]).hwm <= furthest(
                established,
                pinned,
            ),
        furthest(established, pinned) == pinned || exists|k: int|
            0 <= k < established.len() && (#[trigger] established[k]).hwm == furthest(
                established,
                pinned,
            ),
    decreases established.len(),
{
    if established.len() > 0 {
        let d = established.drop_last();
        lemma_furthest(d, pinned);
        let f = furthest(established, pinned);
        assert forall|k: int| 0 <= k < established.len() implies (#[trigger] established[k]).hwm
            <= f by {
            if k < d.len() {
                assert(d[k].hwm <= furthest(d, pinned));
            }
        }
        if f == established.last().hwm {
            assert(established[established.len() - 1].hwm == f);
        } else if f != pinned {
            let k = choose|k: int| 0 <= k < d.len() && (#[trigger] d[k]).hwm == f;
            assert(established[k].hwm == f);
        }
    }
}

/// The fenced source's tail is read from the furthest position that is known, and then from the
/// highest that was read, until nothing is left; only a source that goes on past the allowed number
/// of reads is given up on, with the position it was at.
pub proof fn law_the_frozen_tail_is_read_to_its_end<E>(g: GroupMoveView<E>, top: Option<u64>)
    requires
        group_valid(g),
        g.stage is Fence || g.stage is ReadTail || g.stage is TailRenew,
    ensures
        g.stage is Fence && g.limits.final_drain_cap > 0 ==> (group_call(
            group_next(g, GroupReply::Done).0,
        ) matches GroupCall::ReadTail { after } && after >= g.pinned && (forall|k: int|
            0 <= k < g.established.len() ==> (#[trigger] g.established[k]).hwm <= after) && (after
            == g.pinned || exists|k: int|
            0 <= k < g.established.len() && (#[trigger] g.established[k]).hwm == after)),
        g.stage matches GroupStage::ReadTail { cursor, pass } ==> {
            let r = group_next(g, GroupReply::Tail(top)).0;
            match top {
                None => !(r.stage is ReadTail) && !(r.stage is TailRenew) && r.fault == g.fault,
                Some(p) => r.stage is TailRenew && r.stage->TailRenew_pass == pass && (
                r.stage->TailRenew_cursor == p || r.stage->TailRenew_cursor == cursor)
                    && r.stage->TailRenew_cursor >= p && r.stage->TailRenew_cursor >= cursor,
            }
        },
        g.stage matches GroupStage::TailRenew { cursor, pass } ==> {
            let r = group_next(g, GroupReply::Done).0;
            if pass + 1 < g.limits.final_drain_cap {
                group_call(r) == (GroupCall::ReadTail { after: cursor }) && r.fault == g.fault
            } else {
                r.fault == Some(GroupFault::<E>::NotFrozen { past: cursor }) && group_call(r)
                    is UnfenceSource
            }
        },
{
    lemma_furthest(g.established, g.pinned);
    lemma_next_member(g.roles, MemberRole::Retained, 0);
}

/// The first error that a reply gave.
pub open spec fn group_first_error<E>(replies: Seq<GroupReply<E>>) -> Option<E>
    decreases replies.len(),
{
    if replies.len() == 0 {
        None
    } else {
        match group_first_error(replies.drop_last()) {
            Some(e) => Some(e),
            None => match replies.last() {
                GroupReply::Failed(e) => Some(e),
                _ => None,
            },
        }
    }
}

proof fn lemma_group_errors<E>(
    limits: GroupLimits,
    roles: Seq<MemberRole>,
    replies: Seq<GroupReply<E>>,
)
    requires
        group_runs(limits, roles, replies),
    ensures
        ({
            let g = group_run(limits, roles, replies).0;
            let e = group_first_error(replies);
            let over = g.stage is Release || g.stage is Ended;
            match g.fault {
                Some(GroupFault::Reported(x)) => e == Some(x),
                _ => e is None || over,
            }
        }),
    decreases replies.len(),
{
    if replies.len() > 0 {
        lemma_group_errors(limits, roles, replies.drop_last());
        lemma_group_consistent(limits, roles, replies.drop_last());
    }
}

/// A group move fails with the first error that came; where no call fails, it swaps, or one of the
/// named conditions kept it from it.
pub proof fn law_a_group_move_fails_with_the_first_error<E>(
    limits: GroupLimits,
    roles: Seq<MemberRole>,
    replies: Seq<GroupReply<E>>,
)
    requires
        group_runs(limits, roles, replies),
        group_run(limits, roles, replies).0.stage == GroupStage::Ended,
    ensures
        group_run(limits, roles, replies).0.fault matches Some(GroupFault::Reported(e))
            ==> group_first_error(replies) == Some(e),
        group_first_error(replies) is None ==> group_run(limits, roles, replies).1.swapped || (
        group_run(limits, roles, replies).0.fault is Some && !(group_run(
            limits,
            roles,
            replies,
        ).0.fault->0 is Reported)),
{
    lemma_group_errors(limits, roles, replies);
    lemma_group_consistent(limits, roles, replies);
}

/// Nothing is copied without the lease; fencing, freeing and routing are at the one generation of
/// the move.
pub proof fn law_a_group_is_copied_only_under_the_lease<E>(
    limits: GroupLimits,
    roles: Seq<MemberRole>,
    replies: Seq<GroupReply<E>>,
)
    requires
        group_runs(limits, roles, replies),
    ensures
        ({
            let (g, w) = group_run(limits, roles, replies);
            match group_call(g) {
                GroupCall::Adopt { .. } | GroupCall::Recover { .. } | GroupCall::CatchUp { .. }
                | GroupCall::RenewLease { .. } | GroupCall::ReadTail { .. } => w.leased == 1
                    && w.released == 0,
                GroupCall::FenceSource { generation } | GroupCall::UnfenceSource { generation }
                | GroupCall::SwapBacking { generation } => generation == limits.generation
                    && w.leased == 1 && w.released == 0,
                _ => true,
            }
        }),
{
    lemma_group_consistent(limits, roles, replies);
}

/// A stale fence is lifted before a server is used, at the generation it was found at; one that
/// stays is reported, with both generations.
pub proof fn law_stale_fences_are_lifted_first<E>(g: GroupMoveView<E>, n: u64)
    requires
        group_valid(g),
    ensures
        ({
            let r = group_next(g, GroupReply::At(n)).0;
            let call = group_call(r);
            match group_call(g) {
                GroupCall::ProbeSource => call == if n == 0 {
                    GroupCall::AcquireLease
                } else {
                    GroupCall::ClearSource { stale: n }
                },
                GroupCall::ClearSource { stale } => if n == 0 {
                    call == GroupCall::AcquireLease
                } else {
                    r.stage == GroupStage::Ended && r.fault == Some(
                        GroupFault::<E>::StaleFence { who: Fenced::Source, stale, now: n },
                    )
                },
                GroupCall::Probe { member } => call == if n == 0 {
                    GroupCall::Recover { member }
                } else {
                    GroupCall::Clear { member, stale: n }
                },
                GroupCall::Clear { member, stale } => if n == 0 {
                    call == (GroupCall::Recover { member })
                } else {
                    r.fault matches Some(GroupFault::StaleFence { who, stale: s, now }) && s
                        == stale && now == n && (who == Fenced::Fresh || who == Fenced::Retained)
                },
                _ => true,
            }
        }),
        group_call(g) == GroupCall::ConnectSource ==> group_call(
            group_next(g, GroupReply::<E>::Done).0,
        ) == GroupCall::ProbeSource,
        group_call(g) matches GroupCall::Adopt { member } ==> group_call(
            group_next(g, GroupReply::<E>::Done).0,
        ) == (GroupCall::Probe { member }),
        g.stage is Lease ==> group_next(g, GroupReply::<E>::At(n)).0.pinned == n,
{
}

/// A new member that keeps falling behind the frozen tail is given up on only after as many replays
/// as it may have, and at least one; one that stays must be complete at once.
pub proof fn law_members_must_reach_the_frozen_tail<E>(g: GroupMoveView<E>, p: u64)
    requires
        group_valid(g),
    ensures
        g.stage matches GroupStage::DrainRenew { slot, before, pass } ==> {
            let r = group_next(g, GroupReply::Done).0;
            let e = g.established[slot as int];
            &&& e.hwm == before ==> r.fault == g.fault
            &&& e.hwm != before && (pass + 1 < g.limits.final_drain_cap) ==> group_call(r) == (
            GroupCall::CatchUp { member: e.member, after: e.hwm })
            &&& e.hwm != before && pass + 1 >= g.limits.final_drain_cap ==> r.fault == Some(
                GroupFault::<E>::FreshBehind,
            )
        },
        g.stage matches GroupStage::KeepVerify { member, seal } ==> {
            let r = group_next(g, GroupReply::At(p)).0;
            &&& p == seal ==> r.fault == g.fault && r.established == g.established.push(
                Established { member, hwm: seal },
            )
            &&& p != seal ==> r.fault == Some(GroupFault::<E>::RetainedTail { tail: p, seal })
        },
{
    lemma_next_member(g.roles, MemberRole::Retained, 0);
}

/// The source stays a member exactly where some desired member is the source.
pub proof fn law_the_source_stays_where_it_is_desired(roles: Seq<MemberRole>)
    ensures
        source_stays(roles) <==> roles.contains(MemberRole::Source),
{
    lemma_next_member(roles, MemberRole::Source, 0);
    let i = next_member(roles, MemberRole::Source, 0);
    if source_stays(roles) {
        assert(roles[i as int] == MemberRole::Source);
    }
    if roles.contains(MemberRole::Source) {
        let k = choose|k: int| 0 <= k < roles.len() && roles[k] == MemberRole::Source;
        assert(roles[k] == MemberRole::Source);
    }
}

/// Replays and reads of the tail are counted from none, each once, up to their limits; a new member
/// is drained at least once.
pub proof fn law_group_replays_are_counted_from_none<E>(g: GroupMoveView<E>, p: u64)
    requires
        g.fault is None,
    ensures
        g.stage matches GroupStage::Recover { member } ==> {
            let n = group_next(g, GroupReply::At(p)).0;
            g.limits.drain_passes > 0 ==> n.stage == (GroupStage::CatchUp {
                member,
                hwm: p,
                pass: 0,
            })
        },
        g.stage matches GroupStage::CatchUp { member, hwm, pass } ==> group_next(
            g,
            GroupReply::At(p),
        ).0.stage == (GroupStage::Renew { member, hwm, next: p, pass }),
        g.stage matches GroupStage::Renew { member, hwm, next, pass } ==> (next != hwm && pass + 1
            < g.limits.drain_passes ==> group_next(g, GroupReply::Done).0.stage == (
        GroupStage::CatchUp { member, hwm: next, pass: (pass + 1) as usize })),
        g.stage is Fence && g.limits.final_drain_cap > 0 ==> (group_next(
            g,
            GroupReply::Done,
        ).0.stage matches GroupStage::ReadTail { pass, .. } && pass == 0),
        g.stage matches GroupStage::TailRenew { cursor, pass } ==> (pass + 1
            < g.limits.final_drain_cap ==> group_next(g, GroupReply::Done).0.stage == (
        GroupStage::ReadTail { cursor, pass: (pass + 1) as usize })),
        g.stage matches GroupStage::DrainRenew { slot, before, pass } ==> (g.established[slot as int].hwm
            != before && pass + 1 < g.limits.final_drain_cap ==> group_next(
            g,
            GroupReply::Done,
        ).0.stage == (GroupStage::Drain { slot, pass: (pass + 1) as usize })),
        g.stage is ReadTail && g.established.len() > 0 ==> group_next(
            g,
            GroupReply::Tail(None),
        ).0.stage == (GroupStage::Drain { slot: 0, pass: 0 }),
{
}

} // verus!
