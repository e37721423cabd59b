//! Moving one shard from its owner to another, without pausing reads.
//!
//! The target is filled from the source while the source keeps taking writes; then the source is
//! fenced, drained until it stops advancing, and routing is flipped. [`Handoff`] decides which call
//! comes next; the caller makes the call and hands back the reply. `E` is the caller's error.
use crate::shard::{ShardError, ShardErrorView};
use crate::text::{decimal, push_decimal};
use vstd::prelude::*;

verus! {

/// The call that is due.
#[derive(Clone, Copy, PartialEq, Eq, Debug, Structural)]
pub enum HandoffCall {
    /// Connect to the source.
    ConnectSource,
    /// Pin the source's log tail.
    AcquireLease,
    /// Connect to the target and ship it the dictionaries.
    AdoptTarget,
    /// Have the target copy the source's segments; the reply is the position they are sealed at.
    RecoverTarget,
    /// Replay the source's tail behind `after` into the target; the reply is the new high water.
    CatchUp { after: u64 },
    /// Let the source trim its tail up to `to`.
    RenewLease { to: u64 },
    /// Make the source refuse writes.
    FenceSource { generation: u64 },
    /// Let the source take writes again, if this generation fenced it.
    UnfenceSource { generation: u64 },
    /// Route the position to the target.
    SwapBacking { generation: u64 },
    /// Unpin the source's tail.
    ReleaseLease,
    /// Nothing: the move has ended.
    Nothing,
}

/// What came back from a call.
#[derive(Debug)]
pub enum HandoffReply<E> {
    /// It succeeded.
    Done,
    /// It succeeded, with a log position.
    At(u64),
    /// It failed.
    Failed(E),
}

/// Why a move did not flip.
#[derive(Debug)]
pub enum HandoffFault<E> {
    /// A call failed.
    Reported(E),
    /// The fenced source did not stop advancing within the cap.
    NotConverged { past: u64 },
}

/// Something that the operator should see; it does not change the outcome.
#[derive(Debug)]
pub enum HandoffNotice<E> {
    /// The fence failed, and so did the attempt to lift it in case it had been set.
    FenceCleanupFailed(E),
    /// The move was aborted, and lifting the fence failed.
    UnfenceFailed(E),
    /// Unpinning the source's tail failed.
    ReleaseFailed(E),
}

/// How far a move has come.
#[derive(Clone, Copy, PartialEq, Eq, Debug, Structural)]
pub enum HandoffStage {
    Connect,
    Lease,
    Adopt,
    Recover,
    CatchUp { hwm: u64, pass: usize },
    Renew { hwm: u64, next: u64, pass: usize },
    Fence { hwm: u64 },
    FenceCleanup,
    Drain { hwm: u64, pass: usize },
    DrainRenew { hwm: u64, next: u64, pass: usize },
    AbortUnfence,
    Flip,
    Release,
    Ended,
}

/// The limits of a move.
#[derive(Clone, Copy, PartialEq, Eq, Debug, Structural)]
pub struct HandoffLimits {
    /// The generation that the move fences with.
    pub generation: u64,
    /// How often the tail is replayed before the fence.
    pub drain_passes: usize,
    /// How often it is replayed behind the fence, at most.
    pub final_drain_cap: usize,
}

/// One move.
#[derive(Debug)]
pub struct Handoff<E> {
    pub limits: HandoffLimits,
    pub stage: HandoffStage,
    /// Set once it is known that the move does not flip.
    pub fault: Option<HandoffFault<E>>,
}

/// The call that is due.
pub open spec fn handoff_call<E>(h: Handoff<E>) -> HandoffCall {
    let generation = h.limits.generation;
    match h.stage {
        HandoffStage::Connect => HandoffCall::ConnectSource,
        HandoffStage::Lease => HandoffCall::AcquireLease,
        HandoffStage::Adopt => HandoffCall::AdoptTarget,
        HandoffStage::Recover => HandoffCall::RecoverTarget,
        HandoffStage::CatchUp { hwm, .. } => HandoffCall::CatchUp { after: hwm },
        HandoffStage::Renew { next, .. } => HandoffCall::RenewLease { to: next },
        HandoffStage::Fence { .. } => HandoffCall::FenceSource { generation },
        HandoffStage::FenceCleanup => HandoffCall::UnfenceSource { generation },
        HandoffStage::Drain { hwm, .. } => HandoffCall::CatchUp { after: hwm },
        HandoffStage::DrainRenew { next, .. } => HandoffCall::RenewLease { to: next },
        HandoffStage::AbortUnfence => HandoffCall::UnfenceSource { generation },
        HandoffStage::Flip => HandoffCall::SwapBacking { generation },
        HandoffStage::Release => HandoffCall::ReleaseLease,
        HandoffStage::Ended => HandoffCall::Nothing,
    }
}

/// Whether a reply is one that a call can have.
pub open spec fn handoff_answers<E>(call: HandoffCall, reply: HandoffReply<E>) -> bool {
    match call {
        HandoffCall::RecoverTarget => !(reply is Done),
        HandoffCall::CatchUp { .. } => !(reply is Done),
        HandoffCall::SwapBacking { .. } => reply is Done,
        HandoffCall::Nothing => false,
        _ => !(reply is At),
    }
}

/// The stage behind `hwm` before the fence, with `pass` passes done.
pub open spec fn before_fence(limits: HandoffLimits, hwm: u64, pass: usize) -> HandoffStage {
    if pass < limits.drain_passes {
        HandoffStage::CatchUp { hwm, pass }
    } else {
        HandoffStage::Fence { hwm }
    }
}

/// The move after a fault behind the lease: the fence is lifted if it may be set, and the lease is
/// given back.
pub open spec fn handoff_aborted<E>(h: Handoff<E>, stage: HandoffStage, fault: HandoffFault<E>) -> Handoff<
    E,
> {
    Handoff { stage, fault: Some(fault), ..h }
}

/// The move behind the fence at `hwm`, with `pass` passes done.
pub open spec fn handoff_draining<E>(h: Handoff<E>, hwm: u64, pass: usize) -> Handoff<E> {
    if pass < h.limits.final_drain_cap {
        Handoff { stage: HandoffStage::Drain { hwm, pass }, ..h }
    } else {
        handoff_aborted(h, HandoffStage::AbortUnfence, HandoffFault::NotConverged { past: hwm })
    }
}

/// The move after a reply, and what the operator should see.
pub open spec fn handoff_next<E>(h: Handoff<E>, reply: HandoffReply<E>) -> (
    Handoff<E>,
    Option<HandoffNotice<E>>,
) {
    let to = |stage: HandoffStage| Handoff { stage, ..h };
    match (h.stage, reply) {
        (HandoffStage::Connect, HandoffReply::Done) => (to(HandoffStage::Lease), None),
        (HandoffStage::Lease, HandoffReply::Done) => (to(HandoffStage::Adopt), None),
        (HandoffStage::Adopt, HandoffReply::Done) => (to(HandoffStage::Recover), None),
        (HandoffStage::Recover, HandoffReply::At(p)) => (to(before_fence(h.limits, p, 0)), None),
        (HandoffStage::CatchUp { hwm, pass }, HandoffReply::At(next)) => (
            to(HandoffStage::Renew { hwm, next, pass }),
            None,
        ),
        (HandoffStage::Renew { hwm, next, pass }, HandoffReply::Done) => (
            to(
                if next == hwm {
                    HandoffStage::Fence { hwm }
                } else {
                    before_fence(h.limits, next, (pass + 1) as usize)
                },
            ),
            None,
        ),
        (HandoffStage::Fence { hwm }, HandoffReply::Done) => (handoff_draining(h, hwm, 0), None),
        (HandoffStage::Drain { hwm, pass }, HandoffReply::At(next)) => (
            to(HandoffStage::DrainRenew { hwm, next, pass }),
            None,
        ),
        (HandoffStage::DrainRenew { hwm, next, pass }, HandoffReply::Done) => (
            if next == hwm {
                to(HandoffStage::Flip)
            } else {
                handoff_draining(h, next, (pass + 1) as usize)
            },
            None,
        ),
        (HandoffStage::FenceCleanup, HandoffReply::Done) => (to(HandoffStage::Release), None),
        (HandoffStage::AbortUnfence, HandoffReply::Done) => (to(HandoffStage::Release), None),
        (HandoffStage::Flip, HandoffReply::Done) => (to(HandoffStage::Release), None),
        (HandoffStage::Release, HandoffReply::Done) => (to(HandoffStage::Ended), None),
        (HandoffStage::Connect, HandoffReply::Failed(e)) => (
            handoff_aborted(h, HandoffStage::Ended, HandoffFault::Reported(e)),
            None,
        ),
        (HandoffStage::Lease, HandoffReply::Failed(e)) => (
            handoff_aborted(h, HandoffStage::Ended, HandoffFault::Reported(e)),
            None,
        ),
        (HandoffStage::Fence { .. }, HandoffReply::Failed(e)) => (
            handoff_aborted(h, HandoffStage::FenceCleanup, HandoffFault::Reported(e)),
            None,
        ),
        (HandoffStage::Drain { .. }, HandoffReply::Failed(e)) => (
            handoff_aborted(h, HandoffStage::AbortUnfence, HandoffFault::Reported(e)),
            None,
        ),
        (HandoffStage::DrainRenew { .. }, HandoffReply::Failed(e)) => (
            handoff_aborted(h, HandoffStage::AbortUnfence, HandoffFault::Reported(e)),
            None,
        ),
        (HandoffStage::FenceCleanup, HandoffReply::Failed(e)) => (
            to(HandoffStage::Release),
            Some(HandoffNotice::FenceCleanupFailed(e)),
        ),
        (HandoffStage::AbortUnfence, HandoffReply::Failed(e)) => (
            to(HandoffStage::Release),
            Some(HandoffNotice::UnfenceFailed(e)),
        ),
        (HandoffStage::Release, HandoffReply::Failed(e)) => (
            to(HandoffStage::Ended),
            Some(HandoffNotice::ReleaseFailed(e)),
        ),
        (HandoffStage::Adopt, HandoffReply::Failed(e)) => (
            handoff_aborted(h, HandoffStage::Release, HandoffFault::Reported(e)),
            None,
        ),
        (HandoffStage::Recover, HandoffReply::Failed(e)) => (
            handoff_aborted(h, HandoffStage::Release, HandoffFault::Reported(e)),
            None,
        ),
        (HandoffStage::CatchUp { .. }, HandoffReply::Failed(e)) => (
            handoff_aborted(h, HandoffStage::Release, HandoffFault::Reported(e)),
            None,
        ),
        (HandoffStage::Renew { .. }, HandoffReply::Failed(e)) => (
            handoff_aborted(h, HandoffStage::Release, HandoffFault::Reported(e)),
            None,
        ),
        _ => (h, None),
    }
}

/// The passes counted so far are within the limits.
pub open spec fn handoff_valid<E>(h: Handoff<E>) -> bool {
    match h.stage {
        HandoffStage::CatchUp { pass, .. } => pass < h.limits.drain_passes,
        HandoffStage::Renew { pass, .. } => pass < h.limits.drain_passes,
        HandoffStage::Drain { pass, .. } => pass < h.limits.final_drain_cap,
        HandoffStage::DrainRenew { pass, .. } => pass < h.limits.final_drain_cap,
        _ => true,
    }
}

impl<E> Handoff<E> {
    /// A move that is about to start.
    pub fn new(limits: HandoffLimits) -> (r: Self)
        ensures
            r == (Handoff::<E> { limits, stage: HandoffStage::Connect, fault: None }),
            handoff_valid(r),
    {
        Handoff { limits, stage: HandoffStage::Connect, fault: None }
    }

    /// The call that is due.
    pub fn call(&self) -> (r: HandoffCall)
        ensures
            r == handoff_call(*self),
    {
        let generation: u64 = self.limits.generation;
        match self.stage {
            HandoffStage::Connect => HandoffCall::ConnectSource,
            HandoffStage::Lease => HandoffCall::AcquireLease,
            HandoffStage::Adopt => HandoffCall::AdoptTarget,
            HandoffStage::Recover => HandoffCall::RecoverTarget,
            HandoffStage::CatchUp { hwm, .. } => HandoffCall::CatchUp { after: hwm },
            HandoffStage::Renew { next, .. } => HandoffCall::RenewLease { to: next },
            HandoffStage::Fence { .. } => HandoffCall::FenceSource { generation },
            HandoffStage::FenceCleanup => HandoffCall::UnfenceSource { generation },
            HandoffStage::Drain { hwm, .. } => HandoffCall::CatchUp { after: hwm },
            HandoffStage::DrainRenew { next, .. } => HandoffCall::RenewLease { to: next },
            HandoffStage::AbortUnfence => HandoffCall::UnfenceSource { generation },
            HandoffStage::Flip => HandoffCall::SwapBacking { generation },
            HandoffStage::Release => HandoffCall::ReleaseLease,
            HandoffStage::Ended => HandoffCall::Nothing,
        }
    }

    fn go(self, stage: HandoffStage) -> (r: Self)
        ensures
            r == (Handoff { stage, ..self }),
    {
        Handoff { limits: self.limits, stage, fault: self.fault }
    }

    fn abort(self, stage: HandoffStage, fault: HandoffFault<E>) -> (r: Self)
        ensures
            r == handoff_aborted(self, stage, fault),
    {
        Handoff { limits: self.limits, stage, fault: Some(fault) }
    }

    fn drain(self, hwm: u64, pass: usize) -> (r: Self)
        ensures
            r == handoff_draining(self, hwm, pass),
    {
        if pass < self.limits.final_drain_cap {
            self.go(HandoffStage::Drain { hwm, pass })
        } else {
            self.abort(HandoffStage::AbortUnfence, HandoffFault::NotConverged { past: hwm })
        }
    }

    /// Takes the reply to the call that was due.
    pub fn next(self, reply: HandoffReply<E>) -> (r: (Self, Option<HandoffNotice<E>>))
        requires
            handoff_valid(self),
            handoff_answers(handoff_call(self), reply),
        ensures
            r == handoff_next(self, reply),
            handoff_valid(r.0),
    {
        let limits = self.limits;
        match self.stage {
            HandoffStage::Connect => match reply {
                HandoffReply::Failed(e) => (
                    self.abort(HandoffStage::Ended, HandoffFault::Reported(e)),
                    None,
                ),
                _ => (self.go(HandoffStage::Lease), None),
            },
            HandoffStage::Lease => match reply {
                HandoffReply::Failed(e) => (
                    self.abort(HandoffStage::Ended, HandoffFault::Reported(e)),
                    None,
                ),
                _ => (self.go(HandoffStage::Adopt), None),
            },
            HandoffStage::Adopt => match reply {
                HandoffReply::Failed(e) => (
                    self.abort(HandoffStage::Release, HandoffFault::Reported(e)),
                    None,
                ),
                _ => (self.go(HandoffStage::Recover), None),
            },
            HandoffStage::Recover => match reply {
                HandoffReply::Failed(e) => (
                    self.abort(HandoffStage::Release, HandoffFault::Reported(e)),
                    None,
                ),
                HandoffReply::At(p) => {
                    if 0 < limits.drain_passes {
                        (self.go(HandoffStage::CatchUp { hwm: p, pass: 0 }), None)
                    } else {
                        (self.go(HandoffStage::Fence { hwm: p }), None)
                    }
                },
                _ => (self, None),
            },
            HandoffStage::CatchUp { hwm, pass } => match reply {
                HandoffReply::Failed(e) => (
                    self.abort(HandoffStage::Release, HandoffFault::Reported(e)),
                    None,
                ),
                HandoffReply::At(next) => (
                    self.go(HandoffStage::Renew { hwm, next, pass }),
                    None,
                ),
                _ => (self, None),
            },
            HandoffStage::Renew { hwm, next, pass } => match reply {
                HandoffReply::Failed(e) => (
                    self.abort(HandoffStage::Release, HandoffFault::Reported(e)),
                    None,
                ),
                _ => {
                    if next == hwm {
                        (self.go(HandoffStage::Fence { hwm }), None)
                    } else if pass + 1 < limits.drain_passes {
                        (self.go(HandoffStage::CatchUp { hwm: next, pass: pass + 1 }), None)
                    } else {
                        (self.go(HandoffStage::Fence { hwm: next }), None)
                    }
                },
            },
            HandoffStage::Fence { hwm } => match reply {
                HandoffReply::Failed(e) => (
                    self.abort(HandoffStage::FenceCleanup, HandoffFault::Reported(e)),
                    None,
                ),
                _ => (self.drain(hwm, 0), None),
            },
            HandoffStage::FenceCleanup => match reply {
                HandoffReply::Failed(e) => (
                    self.go(HandoffStage::Release),
                    Some(HandoffNotice::FenceCleanupFailed(e)),
                ),
                _ => (self.go(HandoffStage::Release), None),
            },
            HandoffStage::Drain { hwm, pass } => match reply {
                HandoffReply::Failed(e) => (
                    self.abort(HandoffStage::AbortUnfence, HandoffFault::Reported(e)),
                    None,
                ),
                HandoffReply::At(next) => (
                    self.go(HandoffStage::DrainRenew { hwm, next, pass }),
                    None,
                ),
                _ => (self, None),
            },
            HandoffStage::DrainRenew { hwm, next, pass } => match reply {
                HandoffReply::Failed(e) => (
                    self.abort(HandoffStage::AbortUnfence, HandoffFault::Reported(e)),
                    None,
                ),
                _ => {
                    if next == hwm {
                        (self.go(HandoffStage::Flip), None)
                    } else {
                        (self.drain(next, pass + 1), None)
                    }
                },
            },
            HandoffStage::AbortUnfence => match reply {
                HandoffReply::Failed(e) => (
                    self.go(HandoffStage::Release),
                    Some(HandoffNotice::UnfenceFailed(e)),
                ),
                _ => (self.go(HandoffStage::Release), None),
            },
            HandoffStage::Flip => (self.go(HandoffStage::Release), None),
            HandoffStage::Release => match reply {
                HandoffReply::Failed(e) => (
                    self.go(HandoffStage::Ended),
                    Some(HandoffNotice::ReleaseFailed(e)),
                ),
                _ => (self.go(HandoffStage::Ended), None),
            },
            HandoffStage::Ended => (self, None),
        }
    }

    /// The outcome of a move that has ended: the new generation, or why it did not flip.
    pub fn outcome(self) -> (r: Result<u64, HandoffFault<E>>)
        requires
            self.stage == HandoffStage::Ended,
        ensures
            match self.fault {
                Some(f) => r == Err::<u64, HandoffFault<E>>(f),
                None => r == Ok::<u64, HandoffFault<E>>(self.limits.generation),
            },
    {
        match self.fault {
            Some(f) => Err(f),
            None => Ok(self.limits.generation),
        }
    }
}

/// The error of a source that did not converge.
pub open spec fn not_converged_text(source: Seq<char>, past: u64, cap: usize) -> Seq<char> {
    "execute_handoff: fenced source "@ + source + " did not converge (tail still advancing past "@
        + decimal(past as nat) + ") within "@ + decimal(cap as nat)
        + " passes; aborting the flip to avoid dropping a write"@
}

/// The error of a source that did not converge.
pub fn not_converged(source: &str, past: u64, cap: usize) -> (r: ShardError)
    ensures
        r@ == ShardErrorView::Remote(not_converged_text(source@, past, cap)),
{
    let mut m = String::from_str("execute_handoff: fenced source ");
    m.append(source);
    m.append(" did not converge (tail still advancing past ");
    push_decimal(&mut m, past);
    m.append(") within ");
    push_decimal(&mut m, cap as u64);
    m.append(" passes; aborting the flip to avoid dropping a write");
    ShardError::Remote(m)
}

/// The error of a handoff that did not flip.
pub fn fault_error(fault: HandoffFault<ShardError>, source: &str, cap: usize) -> (r: ShardError)
    ensures
        r@ == match fault {
            HandoffFault::Reported(e) => e@,
            HandoffFault::NotConverged { past } => ShardErrorView::Remote(
                not_converged_text(source@, past, cap),
            ),
        },
{
    match fault {
        HandoffFault::Reported(e) => e,
        HandoffFault::NotConverged { past } => not_converged(source, past, cap),
    }
}

/// Checks that a position can be handed off: it has a generation of its own.
pub fn handoff_limits(
    position: usize,
    generation: Option<u64>,
    drain_passes: usize,
    final_drain_cap: usize,
) -> (r: Result<HandoffLimits, ShardError>)
    requires
        generation matches Some(g) ==> g < u64::MAX,
    ensures
        match generation {
            Some(g) => r == Ok::<HandoffLimits, ShardError>(
                HandoffLimits { generation: (g + 1) as u64, drain_passes, final_drain_cap },
            ),
            None => r matches Err(e) && e@ == ShardErrorView::Config(
                "execute_handoff: shard position "@ + decimal(position as nat)
                    + " is not handoff-capable (the cluster was not built via connect_remote/connect_replicated)"@,
            ),
        },
{
    match generation {
        Some(g) => Ok(HandoffLimits { generation: g + 1, drain_passes, final_drain_cap }),
        None => Err(
            ShardError::Config(
                crate::text::with_number(
                    "execute_handoff: shard position ",
                    position as u64,
                    " is not handoff-capable (the cluster was not built via connect_remote/connect_replicated)",
                ),
            ),
        ),
    }
}

impl<E> HandoffNotice<E> {
    /// What the operator is told.
    pub fn detail(&self) -> (r: &'static str)
        ensures
            r@ == match self {
                HandoffNotice::FenceCleanupFailed(_) =>
                    "fence failed during handoff and the CAS-safe unfence cleanup also failed; if the server had applied the fence the source remains fenced and needs manual recovery"@,
                HandoffNotice::UnfenceFailed(_) =>
                    "auto-unfence after an aborted handoff failed; the source remains fenced at the handoff generation and needs manual recovery"@,
                HandoffNotice::ReleaseFailed(_) =>
                    "releasing the handoff retention lease on the source failed; the old owner may retain extra translog until its next successful seal"@,
            },
    {
        match self {
            HandoffNotice::FenceCleanupFailed(_) =>
                "fence failed during handoff and the CAS-safe unfence cleanup also failed; if the server had applied the fence the source remains fenced and needs manual recovery",
            HandoffNotice::UnfenceFailed(_) =>
                "auto-unfence after an aborted handoff failed; the source remains fenced at the handoff generation and needs manual recovery",
            HandoffNotice::ReleaseFailed(_) =>
                "releasing the handoff retention lease on the source failed; the old owner may retain extra translog until its next successful seal",
        }
    }
}

// ---- laws ----

/// What is known of the fence on the source.
pub ghost enum FenceKnown {
    /// This move did not fence it, or lifted its fence.
    Off,
    /// A fence or unfence call failed: it may be on.
    Unknown,
    /// It is on.
    On,
}

/// What the calls of a move have done outside.
pub ghost struct HandoffWorld {
    /// How often the source's tail was pinned, and unpinning tried.
    pub leased: nat,
    pub released: nat,
    pub fence: FenceKnown,
    /// The last replay behind the fence added nothing, and no other call came after it but the
    /// renewal of the lease.
    pub settled: bool,
    pub flipped: bool,
    /// A failed unfence or release was reported to the operator.
    pub reported: bool,
}

/// Before the first call.
pub open spec fn handoff_start() -> HandoffWorld {
    HandoffWorld {
        leased: 0,
        released: 0,
        fence: FenceKnown::Off,
        settled: false,
        flipped: false,
        reported: false,
    }
}

/// What one call and its reply do outside.
pub open spec fn handoff_effect<E>(
    w: HandoffWorld,
    call: HandoffCall,
    reply: HandoffReply<E>,
    notice: Option<HandoffNotice<E>>,
) -> HandoffWorld {
    let failed = reply is Failed;
    let w = HandoffWorld { reported: w.reported || notice is Some, ..w };
    match call {
        HandoffCall::AcquireLease => if failed {
            w
        } else {
            HandoffWorld { leased: w.leased + 1, ..w }
        },
        HandoffCall::ReleaseLease => HandoffWorld { released: w.released + 1, ..w },
        HandoffCall::FenceSource { .. } => HandoffWorld {
            fence: if failed {
                FenceKnown::Unknown
            } else {
                FenceKnown::On
            },
            settled: false,
            ..w
        },
        HandoffCall::UnfenceSource { .. } => if failed {
            HandoffWorld { fence: FenceKnown::Unknown, ..w }
        } else {
            HandoffWorld { fence: FenceKnown::Off, ..w }
        },
        HandoffCall::CatchUp { after } => HandoffWorld {
            settled: w.fence is On && reply == HandoffReply::<E>::At(after),
            ..w
        },
        HandoffCall::SwapBacking { .. } => HandoffWorld { flipped: true, ..w },
        _ => w,
    }
}

/// The move and the world after a run of replies, each of which answers the call that was due.
pub open spec fn handoff_run<E>(limits: HandoffLimits, replies: Seq<HandoffReply<E>>) -> (
    Handoff<E>,
    HandoffWorld,
)
    decreases replies.len(),
{
    if replies.len() == 0 {
        (Handoff { limits, stage: HandoffStage::Connect, fault: None }, handoff_start())
    } else {
        let (h, w) = handoff_run(limits, replies.drop_last());
        let (next, notice) = handoff_next(h, replies.last());
        (next, handoff_effect(w, handoff_call(h), replies.last(), notice))
    }
}

/// Every reply answers the call that was due.
pub open spec fn handoff_runs<E>(limits: HandoffLimits, replies: Seq<HandoffReply<E>>) -> bool
    decreases replies.len(),
{
    replies.len() > 0 ==> {
        let (h, _) = handoff_run(limits, replies.drop_last());
        &&& handoff_runs(limits, replies.drop_last())
        &&& handoff_answers(handoff_call(h), replies.last())
    }
}

/// What holds between a move and the world at each stage.
spec fn handoff_consistent<E>(h: Handoff<E>, w: HandoffWorld) -> bool {
    let stage = h.stage;
    &&& handoff_valid(h)
    &&& match stage {
        HandoffStage::Connect | HandoffStage::Lease => w.leased == 0 && w.released == 0 && w.fence
            is Off && !w.flipped && h.fault is None && !w.reported,
        HandoffStage::Adopt | HandoffStage::Recover | HandoffStage::CatchUp { .. }
        | HandoffStage::Renew { .. } | HandoffStage::Fence { .. } => w.leased == 1 && w.released == 0
            && w.fence is Off && !w.flipped && h.fault is None && !w.reported,
        HandoffStage::FenceCleanup => w.leased == 1 && w.released == 0 && w.fence is Unknown
            && !w.flipped && h.fault is Some && !w.reported,
        HandoffStage::Drain { .. } => w.leased == 1 && w.released == 0 && w.fence is On
            && !w.flipped && h.fault is None && !w.reported,
        HandoffStage::DrainRenew { hwm, next, .. } => w.leased == 1 && w.released == 0 && w.fence
            is On && !w.flipped && h.fault is None && !w.reported && w.settled == (next == hwm),
        HandoffStage::AbortUnfence => w.leased == 1 && w.released == 0 && w.fence is On
            && !w.flipped && h.fault is Some && !w.reported,
        HandoffStage::Flip => w.leased == 1 && w.released == 0 && w.fence is On && w.settled
            && !w.flipped && h.fault is None && !w.reported,
        HandoffStage::Release => w.leased == 1 && w.released == 0 && (h.fault is None <==> w.flipped)
            && (w.flipped ==> w.fence is On && w.settled) && (!w.flipped && !w.reported ==> w.fence
            is Off) && (w.flipped ==> !w.reported),
        HandoffStage::Ended => w.released == w.leased && w.leased <= 1 && (h.fault is None
            <==> w.flipped) && (w.flipped ==> w.fence is On && w.settled) && (!w.flipped
            && !w.reported ==> w.fence is Off),
    }
}

proof fn lemma_handoff_consistent<E>(limits: HandoffLimits, replies: Seq<HandoffReply<E>>)
    requires
        handoff_runs(limits, replies),
    ensures
        handoff_consistent(handoff_run(limits, replies).0, handoff_run(limits, replies).1),
        handoff_run(limits, replies).0.limits == limits,
    decreases replies.len(),
{
    if replies.len() > 0 {
        lemma_handoff_consistent(limits, replies.drop_last());
    }
}

/// Routing is flipped only onto a target that has caught up with a fenced source: when the flip is
/// due, the source refuses writes and the last replay behind the fence added nothing.
pub proof fn law_flip_follows_a_settled_fence<E>(limits: HandoffLimits, replies: Seq<
    HandoffReply<E>,
>)
    requires
        handoff_runs(limits, replies),
        handoff_call(handoff_run(limits, replies).0) is SwapBacking,
    ensures
        handoff_run(limits, replies).1.fence is On,
        handoff_run(limits, replies).1.settled,
        !handoff_run(limits, replies).1.flipped,
{
    lemma_handoff_consistent(limits, replies);
}

/// A move that has ended either flipped and reports no fault, or did not flip and reports one. One
/// that did not flip leaves the source taking writes, unless lifting the fence failed, which was
/// then reported to the operator.
pub proof fn law_ended_handoff_flipped_or_rolled_back<E>(limits: HandoffLimits, replies: Seq<
    HandoffReply<E>,
>)
    requires
        handoff_runs(limits, replies),
        handoff_run(limits, replies).0.stage == HandoffStage::Ended,
    ensures
        handoff_run(limits, replies).0.fault is None <==> handoff_run(limits, replies).1.flipped,
        !handoff_run(limits, replies).1.flipped && !handoff_run(limits, replies).1.reported
            ==> handoff_run(limits, replies).1.fence is Off,
{
    lemma_handoff_consistent(limits, replies);
}

/// The source's tail is pinned at most once, and a move that has ended has tried to unpin it as
/// often as it was pinned.
pub proof fn law_handoff_gives_the_lease_back<E>(limits: HandoffLimits, replies: Seq<
    HandoffReply<E>,
>)
    requires
        handoff_runs(limits, replies),
    ensures
        handoff_run(limits, replies).1.leased <= 1,
        handoff_run(limits, replies).0.stage == HandoffStage::Ended ==> handoff_run(
            limits,
            replies,
        ).1.released == handoff_run(limits, replies).1.leased,
{
    lemma_handoff_consistent(limits, replies);
}

/// How far a move still is from its end, at most.
pub open spec fn handoff_measure<E>(h: Handoff<E>) -> int {
    let tail = 2 * h.limits.final_drain_cap + 8;
    match h.stage {
        HandoffStage::Connect => tail + 2 * h.limits.drain_passes + 6,
        HandoffStage::Lease => tail + 2 * h.limits.drain_passes + 5,
        HandoffStage::Adopt => tail + 2 * h.limits.drain_passes + 4,
        HandoffStage::Recover => tail + 2 * h.limits.drain_passes + 3,
        HandoffStage::CatchUp { pass, .. } => tail + 2 * (h.limits.drain_passes - pass) + 2,
        HandoffStage::Renew { pass, .. } => tail + 2 * (h.limits.drain_passes - pass) + 1,
        HandoffStage::Fence { .. } => tail,
        HandoffStage::Drain { pass, .. } => 2 * (h.limits.final_drain_cap - pass) + 5,
        HandoffStage::DrainRenew { pass, .. } => 2 * (h.limits.final_drain_cap - pass) + 4,
        HandoffStage::FenceCleanup => 3,
        HandoffStage::AbortUnfence => 3,
        HandoffStage::Flip => 3,
        HandoffStage::Release => 1,
        HandoffStage::Ended => 0,
    }
}

/// Every reply brings a move nearer to its end, so it ends whatever the calls answer.
pub proof fn law_handoff_ends<E>(h: Handoff<E>, reply: HandoffReply<E>)
    requires
        handoff_valid(h),
        handoff_answers(handoff_call(h), reply),
    ensures
        0 <= handoff_measure(handoff_next(h, reply).0) < handoff_measure(h),
{
}

/// The last position that a reply gave.
pub open spec fn handoff_reached<E>(replies: Seq<HandoffReply<E>>) -> Option<u64>
    decreases replies.len(),
{
    if replies.len() == 0 {
        None
    } else {
        match replies.last() {
            HandoffReply::At(p) => Some(p),
            _ => handoff_reached(replies.drop_last()),
        }
    }
}

/// The first error that a reply gave.
pub open spec fn handoff_first_error<E>(replies: Seq<HandoffReply<E>>) -> Option<E>
    decreases replies.len(),
{
    if replies.len() == 0 {
        None
    } else {
        match handoff_first_error(replies.drop_last()) {
            Some(e) => Some(e),
            None => match replies.last() {
                HandoffReply::Failed(e) => Some(e),
                _ => None,
            },
        }
    }
}

/// Where a move is, by what the calls answered.
spec fn handoff_tracks<E>(h: Handoff<E>, replies: Seq<HandoffReply<E>>) -> bool {
    let at = handoff_reached(replies);
    let e = handoff_first_error(replies);
    &&& match h.stage {
        HandoffStage::CatchUp { hwm, .. } | HandoffStage::Fence { hwm } | HandoffStage::Drain {
            hwm,
            ..
        } => at == Some(hwm),
        HandoffStage::Renew { next, .. } | HandoffStage::DrainRenew { next, .. } => at == Some(
            next,
        ),
        _ => true,
    }
    &&& match h.fault {
        Some(HandoffFault::Reported(x)) => e == Some(x),
        Some(HandoffFault::NotConverged { past }) => e is None || h.stage is Release || h.stage
            is Ended,
        None => e is None || h.stage is Ended,
    }
    &&& h.stage is AbortUnfence && h.fault is Some && h.fault->0 is NotConverged ==> e is None
}

proof fn lemma_handoff_tracks<E>(limits: HandoffLimits, replies: Seq<HandoffReply<E>>)
    requires
        handoff_runs(limits, replies),
    ensures
        handoff_tracks(handoff_run(limits, replies).0, replies),
    decreases replies.len(),
{
    if replies.len() > 0 {
        lemma_handoff_tracks(limits, replies.drop_last());
        lemma_handoff_consistent(limits, replies.drop_last());
    }
}

/// No record between two replays is skipped, and the source keeps what the target lacks: each
/// replay starts at the position that the target has reached, which is what the last reply gave,
/// and the source may trim up to that position and no further.
pub proof fn law_each_replay_goes_on_where_the_last_ended<E>(
    limits: HandoffLimits,
    replies: Seq<HandoffReply<E>>,
)
    requires
        handoff_runs(limits, replies),
    ensures
        handoff_call(handoff_run(limits, replies).0) matches HandoffCall::CatchUp { after }
            ==> handoff_reached(replies) == Some(after),
        handoff_call(handoff_run(limits, replies).0) matches HandoffCall::RenewLease { to }
            ==> handoff_reached(replies) == Some(to),
{
    lemma_handoff_tracks(limits, replies);
}

/// Nothing is copied or replayed while the source's tail is not pinned, and the source is fenced,
/// freed and routed away from at the one generation of the move.
pub proof fn law_data_moves_only_under_the_lease<E>(
    limits: HandoffLimits,
    replies: Seq<HandoffReply<E>>,
)
    requires
        handoff_runs(limits, replies),
    ensures
        ({
            let (h, w) = handoff_run(limits, replies);
            match handoff_call(h) {
                HandoffCall::AdoptTarget | HandoffCall::RecoverTarget | HandoffCall::CatchUp { .. }
                | HandoffCall::RenewLease { .. } => w.leased == 1 && w.released == 0,
                HandoffCall::FenceSource { generation } | HandoffCall::UnfenceSource { generation }
                | HandoffCall::SwapBacking { generation } => generation == limits.generation
                    && w.leased == 1 && w.released == 0,
                _ => true,
            }
        }),
{
    lemma_handoff_consistent(limits, replies);
}

/// A move fails with the first error that came, and only with an error that came or because the
/// fenced source kept advancing: where no call fails, it flips or reports how far the source had
/// advanced.
pub proof fn law_a_handoff_fails_with_the_first_error<E>(
    limits: HandoffLimits,
    replies: Seq<HandoffReply<E>>,
)
    requires
        handoff_runs(limits, replies),
        handoff_run(limits, replies).0.stage == HandoffStage::Ended,
    ensures
        handoff_run(limits, replies).0.fault matches Some(HandoffFault::Reported(e))
            ==> handoff_first_error(replies) == Some(e),
        handoff_first_error(replies) is None ==> handoff_run(limits, replies).1.flipped || (
        handoff_run(limits, replies).0.fault is Some && handoff_run(limits, replies).0.fault->0
            is NotConverged),
{
    lemma_handoff_tracks(limits, replies);
    lemma_handoff_consistent(limits, replies);
}

/// A move flips as soon as a replay behind the fence adds nothing. It gives up on a source that
/// keeps advancing only after as many replays as it may make, and says how far the source was.
pub proof fn law_a_settled_source_is_flipped<E>(h: Handoff<E>)
    requires
        handoff_valid(h),
    ensures
        h.stage matches HandoffStage::DrainRenew { hwm, next, pass } ==> {
            let r = handoff_next(h, HandoffReply::Done).0;
            &&& next == hwm ==> handoff_call(r) == (HandoffCall::SwapBacking {
                generation: h.limits.generation,
            }) && r.fault == h.fault
            &&& next != hwm && pass + 1 < h.limits.final_drain_cap ==> handoff_call(r) == (
            HandoffCall::CatchUp { after: next }) && r.fault == h.fault
            &&& next != hwm && pass + 1 >= h.limits.final_drain_cap ==> handoff_call(r) == (
            HandoffCall::UnfenceSource { generation: h.limits.generation }) && r.fault == Some(
                HandoffFault::<E>::NotConverged { past: next },
            )
        },
        h.stage matches HandoffStage::Renew { hwm, next, pass } ==> {
            let r = handoff_next(h, HandoffReply::Done).0;
            &&& next == hwm || pass + 1 >= h.limits.drain_passes ==> handoff_call(r) is FenceSource
            &&& next != hwm && pass + 1 < h.limits.drain_passes ==> handoff_call(r) == (
            HandoffCall::CatchUp { after: next })
        },
{
}

/// A fence that could not be lifted and a lease that could not be given back are reported to the
/// operator, with their error, and change nothing else.
pub proof fn law_failed_cleanups_are_reported<E>(h: Handoff<E>, e: E)
    ensures
        handoff_call(h) is UnfenceSource || handoff_call(h) is ReleaseLease ==> {
            let (next, notice) = handoff_next(h, HandoffReply::Failed(e));
            &&& notice matches Some(n) && (n == HandoffNotice::FenceCleanupFailed(e) || n
                == HandoffNotice::UnfenceFailed(e) || n == HandoffNotice::ReleaseFailed(e))
            &&& next == handoff_next(h, HandoffReply::Done).0
        },
{
}

/// Replays are counted from none: the copy is followed by the first of the replays before the
/// fence, the fence by the first of those behind it, and a replay that is renewed counts once. A
/// move that may make none fences at once, or gives up behind the fence.
pub proof fn law_replays_are_counted_from_none<E>(h: Handoff<E>, p: u64)
    ensures
        h.stage is Recover ==> {
            let n = handoff_next(h, HandoffReply::At(p)).0;
            &&& h.limits.drain_passes > 0 ==> n.stage == (HandoffStage::CatchUp { hwm: p, pass: 0 })
            &&& h.limits.drain_passes == 0 ==> n.stage == (HandoffStage::Fence { hwm: p })
        },
        h.stage matches HandoffStage::Fence { hwm } ==> {
            let n = handoff_next(h, HandoffReply::Done).0;
            &&& h.limits.final_drain_cap > 0 ==> n.stage == (HandoffStage::Drain { hwm, pass: 0 })
                && n.fault == h.fault
            &&& h.limits.final_drain_cap == 0 ==> n.stage == HandoffStage::AbortUnfence && n.fault
                == Some(HandoffFault::<E>::NotConverged { past: hwm })
        },
        h.stage matches HandoffStage::CatchUp { hwm, pass } ==> handoff_next(
            h,
            HandoffReply::At(p),
        ).0.stage == (HandoffStage::Renew { hwm, next: p, pass }),
        h.stage matches HandoffStage::Drain { hwm, pass } ==> handoff_next(
            h,
            HandoffReply::At(p),
        ).0.stage == (HandoffStage::DrainRenew { hwm, next: p, pass }),
        h.stage matches HandoffStage::Renew { hwm, next, pass } ==> (handoff_next(
            h,
            HandoffReply::Done,
        ).0.stage matches HandoffStage::CatchUp { hwm: x, pass: n } ==> x == next && n == (pass + 1)
            as usize),
        h.stage matches HandoffStage::DrainRenew { hwm, next, pass } ==> (handoff_next(
            h,
            HandoffReply::Done,
        ).0.stage matches HandoffStage::Drain { hwm: x, pass: n } ==> x == next && n == (pass + 1)
            as usize),
{
}

} // verus!
