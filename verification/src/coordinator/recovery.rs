//! Bringing up a copy of a shard from a node that serves it: the segments, then the records that
//! were written meanwhile.
use crate::clog::LogPos;
use vstd::prelude::*;

verus! {

/// How often the records written meanwhile are replayed at most.
pub const FINALIZE_PASSES: usize = 8;

/// What to do next.
#[derive(Clone, Copy, Debug, PartialEq, Eq, Structural)]
pub enum RecoveryCall {
    /// Connect to the source and take a lease that keeps its records.
    Lease,
    /// Connect to the target and bring it the dictionary.
    Adopt,
    /// Copy the segments of the source; the position they are at comes back.
    Copy,
    /// Replay the records after a position; the position reached comes back.
    CatchUp(LogPos),
    /// Renew the lease from a position on.
    Renew { lease: u64, from: LogPos },
    /// Count the queries of the target.
    Count,
    /// Give the lease back.
    Release { lease: u64 },
}

/// What came of it.
pub enum RecoveryReply<E> {
    /// The lease.
    Leased(u64),
    /// It is done.
    Done,
    /// A position.
    At(LogPos),
    /// A count.
    Counted(u64),
    /// It failed.
    Failed(E),
}

/// How far a recovery is. On success it ends with the queries of the target and the position up to
/// which it has the source's records.
pub enum Recovery<E> {
    Lease,
    Adopt { lease: u64 },
    Copy { lease: u64 },
    CatchUp { lease: u64, at: LogPos, pass: usize },
    Renew { lease: u64, at: LogPos, reached: LogPos, pass: usize },
    Count { lease: u64, at: LogPos },
    Release { lease: u64, result: Result<(u64, u64), E> },
    Ended(Result<(u64, u64), E>),
}

/// What is asked.
pub open spec fn recovery_call<E>(s: Recovery<E>) -> Option<RecoveryCall> {
    match s {
        Recovery::Lease => Some(RecoveryCall::Lease),
        Recovery::Adopt { .. } => Some(RecoveryCall::Adopt),
        Recovery::Copy { .. } => Some(RecoveryCall::Copy),
        Recovery::CatchUp { lease: _, at, pass: _ } => Some(RecoveryCall::CatchUp(at)),
        Recovery::Renew { lease, at: _, reached, pass: _ } => Some(
            RecoveryCall::Renew { lease, from: reached },
        ),
        Recovery::Count { .. } => Some(RecoveryCall::Count),
        Recovery::Release { lease, result: _ } => Some(RecoveryCall::Release { lease }),
        Recovery::Ended(_) => None,
    }
}

/// The reply is one to what was asked.
pub open spec fn recovery_fits<E>(s: Recovery<E>, r: RecoveryReply<E>) -> bool {
    r is Failed && !(s is Ended) || match s {
        Recovery::Lease => r is Leased,
        Recovery::Adopt { .. } => r is Done,
        Recovery::Copy { .. } => r is At,
        Recovery::CatchUp { .. } => r is At,
        Recovery::Renew { .. } => r is Done,
        Recovery::Count { .. } => r is Counted,
        Recovery::Release { .. } => r is Done,
        Recovery::Ended(_) => false,
    }
}

/// The recovery after a reply.
pub open spec fn recovery_next<E>(s: Recovery<E>, r: RecoveryReply<E>) -> Recovery<E> {
    match (s, r) {
        (Recovery::Lease, RecoveryReply::Leased(lease)) => Recovery::Adopt { lease },
        (Recovery::Lease, RecoveryReply::Failed(e)) => Recovery::Ended(Err(e)),
        (Recovery::Adopt { lease }, RecoveryReply::Done) => Recovery::Copy { lease },
        (Recovery::Adopt { lease }, RecoveryReply::Failed(e)) => Recovery::Release {
            lease,
            result: Err(e),
        },
        (Recovery::Copy { lease }, RecoveryReply::At(at)) => Recovery::CatchUp { lease, at, pass: 0 },
        (Recovery::Copy { lease }, RecoveryReply::Failed(e)) => Recovery::Release {
            lease,
            result: Err(e),
        },
        (Recovery::CatchUp { lease, at, pass }, RecoveryReply::At(reached)) => Recovery::Renew {
            lease,
            at,
            reached,
            pass,
        },
        (Recovery::CatchUp { lease, at: _, pass: _ }, RecoveryReply::Failed(e)) =>
            Recovery::Release { lease, result: Err(e) },
        (Recovery::Renew { lease, at, reached, pass }, RecoveryReply::Done) => if reached == at
            || pass + 1 >= FINALIZE_PASSES {
            Recovery::Count { lease, at: reached }
        } else {
            Recovery::CatchUp { lease, at: reached, pass: (pass + 1) as usize }
        },
        (Recovery::Renew { lease, at: _, reached: _, pass: _ }, RecoveryReply::Failed(e)) =>
            Recovery::Release { lease, result: Err(e) },
        (Recovery::Count { lease, at }, RecoveryReply::Counted(n)) => Recovery::Release {
            lease,
            result: Ok((n, at.0)),
        },
        (Recovery::Count { lease, at: _ }, RecoveryReply::Failed(e)) => Recovery::Release {
            lease,
            result: Err(e),
        },
        (Recovery::Release { lease: _, result }, _) => Recovery::Ended(result),
        (s, _) => s,
    }
}

/// The lease that a recovery holds.
pub open spec fn held<E>(s: Recovery<E>) -> Option<u64> {
    match s {
        Recovery::Adopt { lease } => Some(lease),
        Recovery::Copy { lease } => Some(lease),
        Recovery::CatchUp { lease, .. } => Some(lease),
        Recovery::Renew { lease, .. } => Some(lease),
        Recovery::Count { lease, .. } => Some(lease),
        Recovery::Release { lease, .. } => Some(lease),
        _ => None,
    }
}

impl<E> Recovery<E> {
    /// A recovery that has not begun.
    pub fn new() -> (r: Self)
        ensures
            r is Lease,
    {
        Recovery::Lease
    }

    /// What to do next; nothing once it ended.
    pub fn call(&self) -> (r: Option<RecoveryCall>)
        ensures
            r == recovery_call(*self),
    {
        match self {
            Recovery::Lease => Some(RecoveryCall::Lease),
            Recovery::Adopt { .. } => Some(RecoveryCall::Adopt),
            Recovery::Copy { .. } => Some(RecoveryCall::Copy),
            Recovery::CatchUp { lease: _, at, pass: _ } => Some(RecoveryCall::CatchUp(*at)),
            Recovery::Renew { lease, at: _, reached, pass: _ } => Some(
                RecoveryCall::Renew { lease: *lease, from: *reached },
            ),
            Recovery::Count { .. } => Some(RecoveryCall::Count),
            Recovery::Release { lease, result: _ } => Some(RecoveryCall::Release { lease: *lease }),
            Recovery::Ended(_) => None,
        }
    }

    /// Takes a reply. Where the lease could not be given back, the error comes back for the notice:
    /// the copy is good, and the result does not change.
    pub fn next(self, reply: RecoveryReply<E>) -> (r: (Self, Option<E>))
        requires
            recovery_fits(self, reply),
        ensures
            r.0 == recovery_next(self, reply),
            match (self, reply) {
                (Recovery::Release { .. }, RecoveryReply::Failed(e)) => r.1 == Some(e),
                _ => r.1 is None,
            },
    {
        match (self, reply) {
            (Recovery::Lease, RecoveryReply::Leased(lease)) => (Recovery::Adopt { lease }, None),
            (Recovery::Lease, RecoveryReply::Failed(e)) => (Recovery::Ended(Err(e)), None),
            (Recovery::Adopt { lease }, RecoveryReply::Done) => (Recovery::Copy { lease }, None),
            (Recovery::Adopt { lease }, RecoveryReply::Failed(e)) => (
                Recovery::Release { lease, result: Err(e) },
                None,
            ),
            (Recovery::Copy { lease }, RecoveryReply::At(at)) => (
                Recovery::CatchUp { lease, at, pass: 0 },
                None,
            ),
            (Recovery::Copy { lease }, RecoveryReply::Failed(e)) => (
                Recovery::Release { lease, result: Err(e) },
                None,
            ),
            (Recovery::CatchUp { lease, at, pass }, RecoveryReply::At(reached)) => (
                Recovery::Renew { lease, at, reached, pass },
                None,
            ),
            (Recovery::CatchUp { lease, at: _, pass: _ }, RecoveryReply::Failed(e)) => (
                Recovery::Release { lease, result: Err(e) },
                None,
            ),
            (Recovery::Renew { lease, at, reached, pass }, RecoveryReply::Done) => {
                if reached.0 == at.0 || pass >= FINALIZE_PASSES - 1 {
                    (Recovery::Count { lease, at: reached }, None)
                } else {
                    (Recovery::CatchUp { lease, at: reached, pass: pass + 1 }, None)
                }
            },
            (Recovery::Renew { lease, at: _, reached: _, pass: _ }, RecoveryReply::Failed(e)) => (
                Recovery::Release { lease, result: Err(e) },
                None,
            ),
            (Recovery::Count { lease, at }, RecoveryReply::Counted(n)) => (
                Recovery::Release { lease, result: Ok((n, at.0)) },
                None,
            ),
            (Recovery::Count { lease, at: _ }, RecoveryReply::Failed(e)) => (
                Recovery::Release { lease, result: Err(e) },
                None,
            ),
            (Recovery::Release { lease: _, result }, RecoveryReply::Failed(e)) => (
                Recovery::Ended(result),
                Some(e),
            ),
            (Recovery::Release { lease: _, result }, _) => (Recovery::Ended(result), None),
            (s, _) => (s, None),
        }
    }

    /// How it ended.
    pub fn outcome(self) -> (r: Option<Result<(u64, u64), E>>)
        ensures
            r == match self {
                Recovery::Ended(result) => Some(result),
                _ => None,
            },
    {
        match self {
            Recovery::Ended(result) => Some(result),
            _ => None,
        }
    }
}

/// The notice that the lease could not be given back.
pub fn release_failed_detail() -> (r: &'static str)
    ensures
        r@
            == "releasing the peer-recovery retention lease on the source failed; the source may retain extra translog until its next successful seal"@,
{
    "releasing the peer-recovery retention lease on the source failed; the source may retain extra translog until its next successful seal"
}

/// A lease that was taken is given back, whatever fails: it is held until the step that gives it
/// back, and that step is the last.
pub proof fn law_lease_is_given_back<E>(s: Recovery<E>, r: RecoveryReply<E>)
    requires
        recovery_fits(s, r),
        held(s) is Some,
    ensures
        s is Release ==> recovery_next(s, r) is Ended && recovery_call(s) == Some(
            RecoveryCall::Release { lease: held(s)->0 },
        ),
        !(s is Release) ==> held(recovery_next(s, r)) == held(s),
{
}

/// No records are copied before the lease is held.
pub proof fn law_nothing_is_copied_without_a_lease<E>(s: Recovery<E>)
    requires
        recovery_call(s) == Some(RecoveryCall::Copy) || recovery_call(s) matches Some(
            RecoveryCall::CatchUp(_),
        ),
    ensures
        held(s) is Some,
{
}

/// Whether giving the lease back succeeds does not change the result.
pub proof fn law_release_does_not_change_the_result<E>(
    lease: u64,
    result: Result<(u64, u64), E>,
    r: RecoveryReply<E>,
)
    ensures
        recovery_next(Recovery::Release { lease, result }, r) == Recovery::<E>::Ended(result),
{
}

/// How many steps a recovery can still take.
pub open spec fn recovery_steps<E>(s: Recovery<E>) -> int {
    match s {
        Recovery::Lease => 2 * FINALIZE_PASSES + 5,
        Recovery::Adopt { .. } => 2 * FINALIZE_PASSES + 4,
        Recovery::Copy { .. } => 2 * FINALIZE_PASSES + 3,
        Recovery::CatchUp { lease: _, at: _, pass } => 2 * (FINALIZE_PASSES - pass) + 2,
        Recovery::Renew { lease: _, at: _, reached: _, pass } => 2 * (FINALIZE_PASSES - pass) + 1,
        Recovery::Count { .. } => 2,
        Recovery::Release { .. } => 1,
        Recovery::Ended(_) => 0,
    }
}

/// The passes made so far are within the limit.
pub open spec fn within_passes<E>(s: Recovery<E>) -> bool {
    match s {
        Recovery::CatchUp { lease: _, at: _, pass } => pass < FINALIZE_PASSES,
        Recovery::Renew { lease: _, at: _, reached: _, pass } => pass < FINALIZE_PASSES,
        _ => true,
    }
}

/// A recovery ends, after a bounded number of passes, whether or not writes keep coming.
pub proof fn law_recovery_ends<E>(s: Recovery<E>, r: RecoveryReply<E>)
    requires
        recovery_fits(s, r),
        within_passes(s),
    ensures
        within_passes(recovery_next(s, r)),
        0 <= recovery_steps(recovery_next(s, r)) < recovery_steps(s),
{
}

/// A recovery takes the lease, then adopts, then copies; each replay starts at the position that
/// was reached, the lease is renewed from there, and what is reported is the count of the target
/// and the last position reached. Replaying stops once a pass adds nothing, or after the eighth.
pub proof fn law_a_recovery_goes_on_where_it_was<E>(s: Recovery<E>, p: LogPos, lease: u64, n: u64)
    ensures
        recovery_call(recovery_next(Recovery::<E>::Lease, RecoveryReply::Leased(lease))) == Some(
            RecoveryCall::Adopt,
        ),
        held(recovery_next(Recovery::<E>::Lease, RecoveryReply::Leased(lease))) == Some(lease),
        s is Adopt ==> recovery_call(recovery_next(s, RecoveryReply::Done)) == Some(
            RecoveryCall::Copy,
        ),
        s is Copy ==> recovery_call(recovery_next(s, RecoveryReply::At(p))) == Some(
            RecoveryCall::CatchUp(p),
        ),
        s matches Recovery::CatchUp { lease: l, at, pass } ==> recovery_next(
            s,
            RecoveryReply::At(p),
        ) == (Recovery::<E>::Renew { lease: l, at, reached: p, pass }),
        s matches Recovery::Renew { lease: l, at, reached, pass } ==> {
            let r = recovery_next(s, RecoveryReply::Done);
            &&& recovery_call(s) == Some(RecoveryCall::Renew { lease: l, from: reached })
            &&& reached != at && pass + 1 < 8 ==> recovery_call(r) == Some(
                RecoveryCall::CatchUp(reached),
            ) && r->CatchUp_pass == pass + 1
            &&& reached == at || pass + 1 >= 8 ==> recovery_call(r) == Some(
                RecoveryCall::Count,
            ) && recovery_next(r, RecoveryReply::Counted(n)) == (Recovery::<E>::Release {
                lease: l,
                result: Ok((n, reached.0)),
            })
        },
{
}

/// A recovery fails with what failed.
pub proof fn law_a_recovery_fails_with_what_failed<E>(s: Recovery<E>, e: E)
    requires
        !(s is Ended),
        !(s is Release),
    ensures
        match recovery_next(s, RecoveryReply::Failed(e)) {
            Recovery::Ended(r) => s is Lease && r == Err::<(u64, u64), E>(e),
            Recovery::Release { lease, result } => held(s) == Some(lease) && result == Err::<
                (u64, u64),
                E,
            >(e),
            _ => false,
        },
{
}

/// The replays of a recovery are counted from none.
pub proof fn law_recovery_replays_are_counted_from_none<E>(s: Recovery<E>, p: LogPos)
    ensures
        s matches Recovery::Copy { lease } ==> recovery_next(s, RecoveryReply::At(p)) == (
        Recovery::<E>::CatchUp { lease, at: p, pass: 0 }),
{
}

} // verus!
