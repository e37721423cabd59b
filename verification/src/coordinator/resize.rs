//! Changing the number of shards: when it is refused, in what order it is done, and how the control
//! plane is brought in line with the shards that serve.
use crate::control::{
    committed, position_key, ChangeView, ClusterState, ClusterStateChange, ControlPlane, StateView,
};
use crate::control_laws::{complete, law_set_shard_count_is_complete};
use crate::order::distinct_keys;
use crate::shard::{ShardError, ShardErrorView};
use crate::text::{decimal, push_decimal};
use vstd::prelude::*;

verus! {

/// One step of a resize.
#[derive(Clone, Copy, Debug, PartialEq, Eq, Structural)]
pub enum ResizeStep {
    /// Make the new ring. Where that fails, nothing has changed.
    MakeRing,
    /// Forget the mutations that are pending: they name shards that will not be.
    ForgetPending,
    /// Place every live query anew, on fresh shards.
    Rebuild,
    /// Propose the new shard count.
    Propose(u32),
    /// Commit the result.
    Checkpoint,
    /// Remove the directories of the shards from this one on.
    RemoveDirs(usize),
}

/// Why a resize is refused.
pub open spec fn resize_fault(new: usize, all_local: bool, movable: bool) -> Option<
    ShardErrorView,
> {
    if new == 0 {
        Some(ShardErrorView::Config("resize: new_num_shards must be ≥ 1"@))
    } else if !all_local {
        Some(
            ShardErrorView::Config(
                "resize is in-process only: a cross-process (remote) shard is not rebuilt under the new ring in v1 (it would be a silent false negative)"@,
            ),
        )
    } else if movable {
        Some(
            ShardErrorView::Config(
                "resize is in-process only: a handoff-wrapped (movable) shard position is not supported by a resize in v1"@,
            ),
        )
    } else if new > u32::MAX {
        Some(
            ShardErrorView::ControlPlane(
                "serving shard count exceeds the control-plane representation"@,
            ),
        )
    } else {
        None
    }
}

/// The steps of a resize. Where the count does not change, a durable cluster still commits, since
/// an earlier resize may have failed to.
pub open spec fn resize_steps(new: usize, current: usize, durable: bool) -> Seq<ResizeStep> {
    (if new == current {
        Seq::empty()
    } else {
        seq![
            ResizeStep::MakeRing,
            ResizeStep::ForgetPending,
            ResizeStep::Rebuild,
            ResizeStep::Propose(new as u32),
        ]
    }) + (if durable {
        seq![ResizeStep::Checkpoint, ResizeStep::RemoveDirs(new)]
    } else {
        Seq::empty()
    })
}

/// The steps of a resize, or why it is refused.
pub fn plan_resize(new: usize, current: usize, all_local: bool, movable: bool, durable: bool) -> (r:
    Result<Vec<ResizeStep>, ShardError>)
    ensures
        match r {
            Ok(steps) => resize_fault(new, all_local, movable) is None && steps@ == resize_steps(
                new,
                current,
                durable,
            ),
            Err(e) => resize_fault(new, all_local, movable) == Some(e@),
        },
{
    if new == 0 {
        return Err(ShardError::Config(String::from_str("resize: new_num_shards must be ≥ 1")));
    }
    if !all_local {
        return Err(
            ShardError::Config(
                String::from_str(
                    "resize is in-process only: a cross-process (remote) shard is not rebuilt under the new ring in v1 (it would be a silent false negative)",
                ),
            ),
        );
    }
    if movable {
        return Err(
            ShardError::Config(
                String::from_str(
                    "resize is in-process only: a handoff-wrapped (movable) shard position is not supported by a resize in v1",
                ),
            ),
        );
    }
    if new > u32::MAX as usize {
        return Err(
            ShardError::ControlPlane(
                String::from_str("serving shard count exceeds the control-plane representation"),
            ),
        );
    }
    let mut steps: Vec<ResizeStep> = Vec::new();
    if new != current {
        steps.push(ResizeStep::MakeRing);
        steps.push(ResizeStep::ForgetPending);
        steps.push(ResizeStep::Rebuild);
        steps.push(ResizeStep::Propose(new as u32));
    }
    if durable {
        steps.push(ResizeStep::Checkpoint);
        steps.push(ResizeStep::RemoveDirs(new));
    }
    assert(steps@ =~= resize_steps(new, current, durable));
    Ok(steps)
}

/// How a fresh shard of a rebuild comes to be.
#[derive(Clone, Copy, Debug, PartialEq, Eq, Structural)]
pub enum FreshShard {
    /// In memory.
    InMemory,
    /// In the directory of the shard it replaces, its segments numbered above that one's: both are
    /// there until the manifest is written.
    BesideTheOld,
    /// In its own directory, which is emptied first.
    InAnEmptiedDir,
}

/// How the fresh shard at a position comes to be, where the cluster had `old` shards.
pub fn fresh_shard(position: usize, old: usize, durable: bool) -> (r: FreshShard)
    ensures
        r == (if !durable {
            FreshShard::InMemory
        } else if position < old {
            FreshShard::BesideTheOld
        } else {
            FreshShard::InAnEmptiedDir
        }),
{
    if !durable {
        FreshShard::InMemory
    } else if position < old {
        FreshShard::BesideTheOld
    } else {
        FreshShard::InAnEmptiedDir
    }
}

/// The error for a directory that could not be emptied.
pub fn clean_dir_error(dir: &str, e: &str) -> (r: ShardError)
    ensures
        r@ == ShardErrorView::Log(
            "cleaning new shard dir "@ + dir@ + " before a grow: "@ + e@,
        ),
{
    let mut m = String::from_str("cleaning new shard dir ");
    m.append(dir);
    m.append(" before a grow: ");
    m.append(e);
    ShardError::Log(m)
}

/// The count to resize to, where one is recommended that differs from the current one.
pub fn resize_to_recommended(recommended: Option<usize>, current: usize) -> (r: Option<usize>)
    ensures
        r == match recommended {
            Some(k) => if k != current {
                Some(k)
            } else {
                None
            },
            None => None,
        },
{
    match recommended {
        Some(k) => if k != current {
            Some(k)
        } else {
            None
        },
        None => None,
    }
}

/// What the shards that serve say of themselves.
#[derive(Clone, Copy, Debug, PartialEq, Eq, Structural)]
pub struct LiveShape {
    pub num_shards: usize,
    pub vnodes: u32,
    pub dict_fingerprint: u64,
    pub generation: u64,
}

/// Why the document is not about the cluster that serves.
pub open spec fn identity_fault(s: StateView, live: LiveShape) -> Option<Seq<char>> {
    if s.vnodes != live.vnodes || s.dict_fingerprint != live.dict_fingerprint {
        Some(
            "resize control identity diverged: control has "@ + decimal(s.vnodes as nat)
                + " vnodes/fingerprint "@ + decimal(s.dict_fingerprint as nat)
                + ", serving state has "@ + decimal(live.vnodes as nat) + " vnodes/fingerprint "@
                + decimal(live.dict_fingerprint as nat),
        )
    } else if !complete(s) {
        Some(
            "resize control topology is incomplete: "@ + decimal(s.num_shards as nat)
                + " shard(s), "@ + decimal(s.assignments.len()) + " canonical assignment(s)"@,
        )
    } else {
        None
    }
}

/// The generation and the count of the document, then of what serves.
pub open spec fn compared(s: StateView, live: LiveShape, between: Seq<char>) -> Seq<char> {
    decimal(s.placement_generation as nat) + "/"@ + decimal(s.num_shards as nat) + between
        + decimal(live.generation as nat) + "/"@ + decimal(live.num_shards as nat)
}

/// Why the document does not say what serves.
pub open spec fn state_fault(s: StateView, live: LiveShape) -> Option<Seq<char>> {
    match identity_fault(s, live) {
        Some(m) => Some(m),
        None => if live.num_shards > u32::MAX {
            Some("serving shard count exceeds the control-plane representation"@)
        } else if s.num_shards != live.num_shards || s.placement_generation != live.generation {
            Some(
                "resize terminal attestation failed: control is at generation "@ + compared(
                    s,
                    live,
                    " shards, serving state is at generation "@,
                ) + " shards"@,
            )
        } else {
            None
        },
    }
}

/// Whether a resize was cut off between the shards and the document.
#[derive(Clone, Copy, Debug, PartialEq, Eq, Structural)]
pub enum PendingResize {
    /// The document says what serves.
    Settled,
    /// The document is the one before the last resize; this count brings it in line.
    Propose(u32),
}

/// Whether a resize was cut off, or why the document is neither that of what serves nor exactly
/// the one before.
pub open spec fn pending_resize_spec(s: StateView, live: LiveShape) -> Result<
    PendingResize,
    Seq<char>,
> {
    match identity_fault(s, live) {
        Some(m) => Err(m),
        None => if s.placement_generation == live.generation {
            match state_fault(s, live) {
                Some(m) => Err(m),
                None => Ok(PendingResize::Settled),
            }
        } else if live.generation == 0 {
            Err("resize control state cannot precede placement generation zero"@)
        } else if live.num_shards > u32::MAX {
            Err("serving shard count exceeds the control-plane representation"@)
        } else if s.placement_generation != live.generation - 1 || s.num_shards
            == live.num_shards {
            Err(
                "resize found control state at generation "@ + compared(
                    s,
                    live,
                    " shards, but serving state is at generation "@,
                )
                    + " shards; only the exact prior resize generation with a different shard count can be repaired"@,
            )
        } else {
            Ok(PendingResize::Propose(live.num_shards as u32))
        },
    }
}

/// Whether every position has its assignment, in order.
fn is_complete(state: &ClusterState) -> (r: bool)
    ensures
        r == complete(state@),
{
    let n: usize = state.assignments.len();
    if n != state.num_shards as usize {
        return false;
    }
    let ghost all = state@.assignments;
    let mut i: usize = 0;
    while i < n
        invariant
            n == state.assignments@.len(),
            n == state.num_shards,
            all == state@.assignments,
            i <= n,
            forall|k: int| 0 <= k < i ==> (#[trigger] all[k]).position == k,
        decreases n - i,
    {
        assert(all[i as int] == state.assignments@[i as int]@);
        if state.assignments[i].position as usize != i {
            assert(state@.assignments[i as int].position != i);
            return false;
        }
        i = i + 1;
    }
    true
}

fn attest_identity(state: &ClusterState, live: &LiveShape) -> (r: Result<(), ShardError>)
    ensures
        match r {
            Ok(_) => identity_fault(state@, *live) is None,
            Err(e) => identity_fault(state@, *live) matches Some(m) && e@
                == ShardErrorView::ControlPlane(m),
        },
{
    if state.vnodes != live.vnodes || state.dict_fingerprint != live.dict_fingerprint {
        let mut m = String::from_str("resize control identity diverged: control has ");
        push_decimal(&mut m, state.vnodes as u64);
        m.append(" vnodes/fingerprint ");
        push_decimal(&mut m, state.dict_fingerprint);
        m.append(", serving state has ");
        push_decimal(&mut m, live.vnodes as u64);
        m.append(" vnodes/fingerprint ");
        push_decimal(&mut m, live.dict_fingerprint);
        return Err(ShardError::ControlPlane(m));
    }
    if !is_complete(state) {
        let mut m = String::from_str("resize control topology is incomplete: ");
        push_decimal(&mut m, state.num_shards as u64);
        m.append(" shard(s), ");
        push_decimal(&mut m, state.assignments.len() as u64);
        m.append(" canonical assignment(s)");
        return Err(ShardError::ControlPlane(m));
    }
    Ok(())
}

fn push_compared(m: &mut String, state: &ClusterState, live: &LiveShape, between: &str)
    ensures
        final(m)@ == old(m)@ + compared(state@, *live, between@),
{
    let ghost before = m@;
    push_decimal(m, state.placement_generation);
    m.append("/");
    push_decimal(m, state.num_shards as u64);
    m.append(between);
    push_decimal(m, live.generation);
    m.append("/");
    push_decimal(m, live.num_shards as u64);
    assert(m@ =~= before + compared(state@, *live, between@));
}

/// Whether the document says what serves; anything else is reported, never repaired here.
pub fn attest_resize_control_state(state: &ClusterState, live: &LiveShape) -> (r: Result<
    (),
    ShardError,
>)
    ensures
        match r {
            Ok(_) => state_fault(state@, *live) is None,
            Err(e) => state_fault(state@, *live) matches Some(m) && e@
                == ShardErrorView::ControlPlane(m),
        },
{
    match attest_identity(state, live) {
        Ok(_) => {},
        Err(e) => return Err(e),
    }
    if live.num_shards > u32::MAX as usize {
        return Err(
            ShardError::ControlPlane(
                String::from_str("serving shard count exceeds the control-plane representation"),
            ),
        );
    }
    if state.num_shards as usize != live.num_shards || state.placement_generation
        != live.generation {
        let mut m = String::from_str(
            "resize terminal attestation failed: control is at generation ",
        );
        push_compared(&mut m, state, live, " shards, serving state is at generation ");
        m.append(" shards");
        return Err(ShardError::ControlPlane(m));
    }
    Ok(())
}

/// Whether a resize was cut off between the shards and the document.
pub fn pending_resize(state: &ClusterState, live: &LiveShape) -> (r: Result<
    PendingResize,
    ShardError,
>)
    ensures
        match r {
            Ok(p) => pending_resize_spec(state@, *live) == Ok::<PendingResize, Seq<char>>(p),
            Err(e) => pending_resize_spec(state@, *live) matches Err(m) && e@
                == ShardErrorView::ControlPlane(m),
        },
{
    match attest_identity(state, live) {
        Ok(_) => {},
        Err(e) => return Err(e),
    }
    if state.placement_generation == live.generation {
        return match attest_resize_control_state(state, live) {
            Ok(_) => Ok(PendingResize::Settled),
            Err(e) => Err(e),
        };
    }
    if live.generation == 0 {
        return Err(
            ShardError::ControlPlane(
                String::from_str("resize control state cannot precede placement generation zero"),
            ),
        );
    }
    if live.num_shards > u32::MAX as usize {
        return Err(
            ShardError::ControlPlane(
                String::from_str("serving shard count exceeds the control-plane representation"),
            ),
        );
    }
    if state.placement_generation != live.generation - 1 || state.num_shards as usize
        == live.num_shards {
        let mut m = String::from_str("resize found control state at generation ");
        push_compared(&mut m, state, live, " shards, but serving state is at generation ");
        m.append(
            " shards; only the exact prior resize generation with a different shard count can be repaired",
        );
        return Err(ShardError::ControlPlane(m));
    }
    Ok(PendingResize::Propose(live.num_shards as u32))
}

/// Finishes a resize that was cut off between the shards and the document, before another one may
/// start. On success the document says what serves.
pub fn finish_pending_resize_control_commit<C: ControlPlane>(control: &mut C, live: &LiveShape) -> (r:
    Result<(), ShardError>)
    requires
        old(control).state().epoch < u64::MAX,
    ensures
        r is Ok ==> state_fault(final(control).state(), *live) is None,
        r matches Err(e) ==> e@ is ControlPlane,
        match pending_resize_spec(old(control).state(), *live) {
            Ok(PendingResize::Propose(n)) => final(control).state() == old(control).state()
                || final(control).state() == committed(
                old(control).state(),
                ChangeView::SetShardCount(n),
            ),
            Ok(PendingResize::Settled) => final(control).state() == old(control).state(),
            Err(_) => r is Err && final(control).state() == old(control).state(),
        },
{
    let state = match control.cluster_state() {
        Ok(s) => s,
        Err(e) => return Err(e.into_shard_error()),
    };
    let n: u32 = match pending_resize(&state, live) {
        Ok(PendingResize::Settled) => return Ok(()),
        Ok(PendingResize::Propose(n)) => n,
        Err(e) => return Err(e),
    };
    match control.propose(ClusterStateChange::SetShardCount { num_shards: n }) {
        Ok(_) => {},
        Err(e) => return Err(e.into_shard_error()),
    }
    match control.cluster_state() {
        Ok(s) => attest_resize_control_state(&s, live),
        Err(e) => Err(e.into_shard_error()),
    }
}

/// The one proposal of a cut-off resize brings the document in line with what serves.
pub proof fn law_cut_off_resize_is_repaired(s: StateView, live: LiveShape)
    requires
        distinct_keys(s.assignments, position_key()),
        pending_resize_spec(s, live) matches Ok(p) && p is Propose,
    ensures
        state_fault(committed(s, ChangeView::SetShardCount(live.num_shards as u32)), live) is None,
{
    let n = live.num_shards as u32;
    let after = committed(s, ChangeView::SetShardCount(n));
    law_set_shard_count_is_complete(s, n);
    assert(complete(after));
}

/// The order of a resize to another count: what is pending is forgotten only once the ring is made,
/// and before the rebuild; the document changes after the rebuild.
pub proof fn law_nothing_is_forgotten_before_the_ring_is_made(
    new: usize,
    current: usize,
    durable: bool,
)
    requires
        new != current,
    ensures
        resize_steps(new, current, durable).take(4) == seq![
            ResizeStep::MakeRing,
            ResizeStep::ForgetPending,
            ResizeStep::Rebuild,
            ResizeStep::Propose(new as u32),
        ],
        resize_steps(new, current, durable).len() == if durable {
            6nat
        } else {
            4nat
        },
{
    assert(resize_steps(new, current, durable).take(4) =~= seq![
        ResizeStep::MakeRing,
        ResizeStep::ForgetPending,
        ResizeStep::Rebuild,
        ResizeStep::Propose(new as u32),
    ]);
}

/// Directories go only once the result of a resize is committed, and last.
pub proof fn law_dirs_go_only_after_the_commit(new: usize, current: usize, durable: bool, i: int)
    requires
        0 <= i < resize_steps(new, current, durable).len(),
        resize_steps(new, current, durable)[i] is RemoveDirs,
    ensures
        i > 0,
        resize_steps(new, current, durable)[i - 1] == ResizeStep::Checkpoint,
        resize_steps(new, current, durable)[i] == ResizeStep::RemoveDirs(new),
        i == resize_steps(new, current, durable).len() - 1,
{
}

/// A resize to the current count rebuilds nothing.
pub proof fn law_same_count_rebuilds_nothing(n: usize, durable: bool)
    ensures
        !resize_steps(n, n, durable).contains(ResizeStep::Rebuild),
        forall|k: u32|
            !(#[trigger] resize_steps(n, n, durable).contains(ResizeStep::Propose(k))),
{
}

/// A resize is accepted exactly where the new count is at least one and fits the document, every
/// shard is in this process, and none can be moved.
pub proof fn law_what_a_resize_needs(new: usize, all_local: bool, movable: bool)
    ensures
        resize_fault(new, all_local, movable) is None <==> 1 <= new <= u32::MAX && all_local
            && !movable,
{
}

/// The document says what serves exactly where the ring, the dictionary, the count and the
/// generation are the same and every position has its assignment, in order.
pub proof fn law_what_the_document_must_say(s: StateView, live: LiveShape)
    ensures
        state_fault(s, live) is None <==> {
            &&& s.vnodes == live.vnodes
            &&& s.dict_fingerprint == live.dict_fingerprint
            &&& s.num_shards == live.num_shards
            &&& s.placement_generation == live.generation
            &&& s.assignments.len() == s.num_shards
            &&& forall|i: int|
                0 <= i < s.assignments.len() ==> (#[trigger] s.assignments[i]).position == i
        },
{
}

/// A document is settled exactly where it says what serves; it is repaired, to the serving count,
/// exactly where it is one generation behind with another count and agrees otherwise; and anything
/// else is an error.
pub proof fn law_only_the_prior_document_is_repaired(s: StateView, live: LiveShape, n: u32)
    ensures
        pending_resize_spec(s, live) == Ok::<PendingResize, Seq<char>>(PendingResize::Settled)
            <==> state_fault(s, live) is None,
        pending_resize_spec(s, live) == Ok::<PendingResize, Seq<char>>(PendingResize::Propose(n))
            <==> {
            &&& s.vnodes == live.vnodes
            &&& s.dict_fingerprint == live.dict_fingerprint
            &&& s.placement_generation + 1 == live.generation
            &&& s.num_shards != live.num_shards
            &&& n == live.num_shards
            &&& s.assignments.len() == s.num_shards
            &&& forall|i: int|
                0 <= i < s.assignments.len() ==> (#[trigger] s.assignments[i]).position == i
        },
{
}

/// A resize to another count does each of its steps; a durable one commits and removes directories,
/// whatever the count was.
pub proof fn law_a_resize_does_all_its_steps(new: usize, current: usize, durable: bool)
    requires
        new <= u32::MAX,
    ensures
        resize_steps(new, current, durable).contains(ResizeStep::Rebuild) <==> new != current,
        resize_steps(new, current, durable).contains(ResizeStep::Propose(new as u32)) <==> new
            != current,
        resize_steps(new, current, durable).contains(ResizeStep::Checkpoint) <==> durable,
        resize_steps(new, current, durable).contains(ResizeStep::RemoveDirs(new)) <==> durable,
{
    let s = resize_steps(new, current, durable);
    if new != current {
        assert(s[2] == ResizeStep::Rebuild);
        assert(s[3] == ResizeStep::Propose(new as u32));
        if durable {
            assert(s[4] == ResizeStep::Checkpoint);
            assert(s[5] == ResizeStep::RemoveDirs(new));
        }
    } else if durable {
        assert(s[0] == ResizeStep::Checkpoint);
        assert(s[1] == ResizeStep::RemoveDirs(new));
    }
}

} // verus!
