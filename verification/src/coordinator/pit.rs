//! Points in time: a view of every shard that stays as it is while a client pages through it.
use crate::coordinator::ranked::ClusterRankedError;
use crate::ownership::PlacementGeneration;
use vstd::prelude::*;

verus! {

/// The placement that the shards were pinned under.
#[derive(Clone, Copy, Debug, PartialEq, Eq, Structural)]
pub struct ClusterPitMeta {
    pub generation: PlacementGeneration,
    pub num_shards: u32,
}

/// Why a point in time is not opened.
#[derive(Clone, Debug)]
pub enum ClusterPitError {
    /// A shard cannot keep a view.
    Unsupported(String),
    /// There are too many, or it was asked to stay too long.
    Admission(String),
}

impl ClusterPitError {
    /// The message.
    pub fn message(&self) -> (r: String)
        ensures
            r@ == match *self {
                ClusterPitError::Unsupported(m) => m@,
                ClusterPitError::Admission(m) => m@,
            },
    {
        match self {
            ClusterPitError::Unsupported(m) => m.clone(),
            ClusterPitError::Admission(m) => m.clone(),
        }
    }
}

/// What to do next.
#[derive(Clone, Copy, Debug, PartialEq, Eq, Structural)]
pub enum PitCall {
    /// Register it under the current placement.
    Register,
    /// Pin a shard under its id.
    Pin { pit: u64, shard: usize },
    /// Unpin a shard.
    Unpin { pit: u64, shard: usize },
    /// Take it out of the registry.
    Forget { pit: u64 },
}

/// What came of it.
pub enum PitReply {
    /// The id it was registered under.
    Registered(u64),
    /// It is done; whether unpinning failed does not matter.
    Done,
    /// It was refused, with this message.
    Refused(String),
}

/// How far opening a point in time is.
pub enum PitOpen {
    Register,
    Pin { pit: u64, shard: usize },
    Unpin { pit: u64, shard: usize, pinned: usize, refusal: String },
    Forget { pit: u64, refusal: String },
    Ended(Result<u64, ClusterPitError>),
}

/// Pinning from a shard on; past the last, it is open.
pub open spec fn pin_from(pit: u64, shard: usize, shards: usize) -> PitOpen {
    if shard < shards {
        PitOpen::Pin { pit, shard }
    } else {
        PitOpen::Ended(Ok(pit))
    }
}

/// Unpinning from a shard on; past the last that was pinned, it is taken out of the registry.
pub open spec fn unpin_from(pit: u64, shard: usize, pinned: usize, refusal: String) -> PitOpen {
    if shard < pinned {
        PitOpen::Unpin { pit, shard, pinned, refusal }
    } else {
        PitOpen::Forget { pit, refusal }
    }
}

/// What is asked.
pub open spec fn pit_call(s: PitOpen) -> Option<PitCall> {
    match s {
        PitOpen::Register => Some(PitCall::Register),
        PitOpen::Pin { pit, shard } => Some(PitCall::Pin { pit, shard }),
        PitOpen::Unpin { pit, shard, .. } => Some(PitCall::Unpin { pit, shard }),
        PitOpen::Forget { pit, refusal: _ } => Some(PitCall::Forget { pit }),
        PitOpen::Ended(_) => None,
    }
}

/// The reply is one to what was asked.
pub open spec fn pit_fits(s: PitOpen, r: PitReply) -> bool {
    match s {
        PitOpen::Register => r is Registered || r is Refused,
        PitOpen::Pin { .. } => r is Done || r is Refused,
        PitOpen::Unpin { .. } => r is Done,
        PitOpen::Forget { .. } => r is Done,
        PitOpen::Ended(_) => false,
    }
}

/// Opening a point in time, after a reply.
pub open spec fn pit_next(s: PitOpen, r: PitReply, shards: usize) -> PitOpen {
    match (s, r) {
        (PitOpen::Register, PitReply::Registered(pit)) => pin_from(pit, 0, shards),
        (PitOpen::Register, PitReply::Refused(m)) => PitOpen::Ended(
            Err(ClusterPitError::Admission(m)),
        ),
        (PitOpen::Pin { pit, shard }, PitReply::Refused(m)) => unpin_from(pit, 0, shard, m),
        (PitOpen::Pin { pit, shard }, _) => pin_from(pit, (shard + 1) as usize, shards),
        (PitOpen::Unpin { pit, shard, pinned, refusal }, _) => unpin_from(
            pit,
            (shard + 1) as usize,
            pinned,
            refusal,
        ),
        (PitOpen::Forget { pit: _, refusal }, _) => PitOpen::Ended(
            Err(ClusterPitError::Unsupported(refusal)),
        ),
        (s, _) => s,
    }
}

/// The shards that a stage names exist.
pub open spec fn pit_valid(s: PitOpen, shards: usize) -> bool {
    match s {
        PitOpen::Pin { pit: _, shard } => shard < shards,
        PitOpen::Unpin { pit: _, shard, pinned, refusal: _ } => shard < pinned < shards,
        _ => true,
    }
}

fn pin_stage(pit: u64, shard: usize, shards: usize) -> (r: PitOpen)
    ensures
        r == pin_from(pit, shard, shards),
{
    if shard < shards {
        PitOpen::Pin { pit, shard }
    } else {
        PitOpen::Ended(Ok(pit))
    }
}

fn unpin_stage(pit: u64, shard: usize, pinned: usize, refusal: String) -> (r: PitOpen)
    ensures
        r == unpin_from(pit, shard, pinned, refusal),
{
    if shard < pinned {
        PitOpen::Unpin { pit, shard, pinned, refusal }
    } else {
        PitOpen::Forget { pit, refusal }
    }
}

impl PitOpen {
    /// Opening a point in time that has not begun. Those that expired are closed first.
    pub fn new() -> (r: Self)
        ensures
            r is Register,
    {
        PitOpen::Register
    }

    /// What to do next; nothing once it ended.
    pub fn call(&self) -> (r: Option<PitCall>)
        ensures
            r == pit_call(*self),
    {
        match self {
            PitOpen::Register => Some(PitCall::Register),
            PitOpen::Pin { pit, shard } => Some(PitCall::Pin { pit: *pit, shard: *shard }),
            PitOpen::Unpin { pit, shard, .. } => Some(
                PitCall::Unpin { pit: *pit, shard: *shard },
            ),
            PitOpen::Forget { pit, refusal: _ } => Some(PitCall::Forget { pit: *pit }),
            PitOpen::Ended(_) => None,
        }
    }

    /// Takes a reply. A shard that refuses undoes what was pinned.
    pub fn next(self, reply: PitReply, shards: usize) -> (r: Self)
        requires
            pit_fits(self, reply),
            pit_valid(self, shards),
        ensures
            r == pit_next(self, reply, shards),
            pit_valid(r, shards),
    {
        match (self, reply) {
            (PitOpen::Register, PitReply::Registered(pit)) => pin_stage(pit, 0, shards),
            (PitOpen::Register, PitReply::Refused(m)) => PitOpen::Ended(
                Err(ClusterPitError::Admission(m)),
            ),
            (PitOpen::Pin { pit, shard }, PitReply::Refused(m)) => unpin_stage(pit, 0, shard, m),
            (PitOpen::Pin { pit, shard }, _) => pin_stage(pit, shard + 1, shards),
            (PitOpen::Unpin { pit, shard, pinned, refusal }, _) => unpin_stage(
                pit,
                shard + 1,
                pinned,
                refusal,
            ),
            (PitOpen::Forget { pit: _, refusal }, _) => PitOpen::Ended(
                Err(ClusterPitError::Unsupported(refusal)),
            ),
            (s, _) => s,
        }
    }

    /// How it ended.
    pub fn outcome(self) -> (r: Option<Result<u64, ClusterPitError>>)
        ensures
            r == match self {
                PitOpen::Ended(result) => Some(result),
                _ => None,
            },
    {
        match self {
            PitOpen::Ended(result) => Some(result),
            _ => None,
        }
    }
}

/// Whether a point in time can still be read.
#[derive(Clone, Copy, Debug, PartialEq, Eq, Structural)]
pub enum PitCheck {
    Valid,
    /// It is not in the registry.
    Gone,
    /// The placement changed since; it is taken out of the registry.
    Replaced,
}

/// Whether a point in time can still be read, given what the registry holds of it: its views are
/// those of the placement it was opened under.
pub open spec fn pit_state(
    meta: Option<ClusterPitMeta>,
    generation: PlacementGeneration,
    num_shards: u32,
) -> PitCheck {
    match meta {
        None => PitCheck::Gone,
        Some(m) => if m == (ClusterPitMeta { generation, num_shards }) {
            PitCheck::Valid
        } else {
            PitCheck::Replaced
        },
    }
}

/// Whether a point in time can still be read.
pub fn check_pit(
    meta: Option<ClusterPitMeta>,
    generation: PlacementGeneration,
    num_shards: u32,
) -> (r: PitCheck)
    ensures
        r == pit_state(meta, generation, num_shards),
{
    match meta {
        None => PitCheck::Gone,
        Some(m) => if m.generation.0 == generation.0 && m.num_shards == num_shards {
            PitCheck::Valid
        } else {
            PitCheck::Replaced
        },
    }
}

/// What a read of a point in time answers where it cannot be read.
pub fn pit_read_error(check: PitCheck) -> (r: Option<ClusterRankedError>)
    ensures
        match check {
            PitCheck::Valid => r is None,
            _ => r == Some(ClusterRankedError::StalePit),
        },
{
    match check {
        PitCheck::Valid => None,
        _ => Some(ClusterRankedError::StalePit),
    }
}

/// The shards that are pinned, after one more step.
pub open spec fn pins_after(pins: Set<usize>, s: PitOpen, r: PitReply) -> Set<usize> {
    match (s, r) {
        (PitOpen::Pin { pit: _, shard }, PitReply::Done) => pins.insert(shard),
        (PitOpen::Unpin { pit: _, shard, .. }, PitReply::Done) => pins.remove(shard),
        _ => pins,
    }
}

/// The shards from one on, up to another.
pub open spec fn shards_in(from: int, to: int) -> Set<usize> {
    Set::new(|s: usize| from <= s < to)
}

/// The shards that are pinned at a stage.
pub open spec fn pins_at(s: PitOpen, shards: usize) -> Set<usize> {
    match s {
        PitOpen::Register => Set::empty(),
        PitOpen::Pin { pit: _, shard } => shards_in(0, shard as int),
        PitOpen::Unpin { pit: _, shard, pinned, refusal: _ } => shards_in(
            shard as int,
            pinned as int,
        ),
        PitOpen::Forget { .. } => Set::empty(),
        PitOpen::Ended(Ok(_)) => shards_in(0, shards as int),
        PitOpen::Ended(Err(_)) => Set::empty(),
    }
}

/// An open point in time has every shard pinned, and one that was refused has none: step by step,
/// the pins are those of the stage.
pub proof fn law_all_shards_are_pinned_or_none(s: PitOpen, r: PitReply, shards: usize)
    requires
        pit_fits(s, r),
        pit_valid(s, shards),
    ensures
        pit_valid(pit_next(s, r, shards), shards),
        pins_after(pins_at(s, shards), s, r) == pins_at(pit_next(s, r, shards), shards),
{
    assert(pins_after(pins_at(s, shards), s, r) =~= pins_at(pit_next(s, r, shards), shards));
}

/// A point in time that was opened under one placement is never read under another.
pub proof fn law_placements_are_not_mixed(
    meta: Option<ClusterPitMeta>,
    generation: PlacementGeneration,
    num_shards: u32,
)
    requires
        pit_state(meta, generation, num_shards) is Valid,
    ensures
        meta matches Some(m) && m.generation == generation && m.num_shards == num_shards,
{
}

/// The shards are pinned one after the other, from the first to the last, under the id that it was
/// registered under; then it is open under that id. A registry that refuses is an admission error
/// with its message. A shard that refuses has the pinned ones unpinned in the same order, then the
/// registry forget it, and its message is the error.
pub proof fn law_shards_are_pinned_in_turn(s: PitOpen, pit: u64, m: String, shards: usize)
    requires
        pit_valid(s, shards),
    ensures
        pit_next(PitOpen::Register, PitReply::Refused(m), shards) == PitOpen::Ended(
            Err(ClusterPitError::Admission(m)),
        ),
        shards == 0 ==> pit_next(PitOpen::Register, PitReply::Registered(pit), shards)
            == PitOpen::Ended(Ok(pit)),
        shards > 0 ==> pit_call(pit_next(PitOpen::Register, PitReply::Registered(pit), shards))
            == Some(PitCall::Pin { pit, shard: 0 }),
        s matches PitOpen::Pin { pit: p, shard } ==> {
            &&& pit_call(s) == Some(PitCall::Pin { pit: p, shard })
            &&& shard + 1 < shards ==> pit_call(pit_next(s, PitReply::Done, shards)) == Some(
                PitCall::Pin { pit: p, shard: (shard + 1) as usize },
            )
            &&& shard + 1 == shards ==> pit_next(s, PitReply::Done, shards) == PitOpen::Ended(
                Ok(p),
            )
            &&& shard == 0 ==> pit_next(s, PitReply::Refused(m), shards) == (PitOpen::Forget {
                pit: p,
                refusal: m,
            })
            &&& shard > 0 ==> pit_next(s, PitReply::Refused(m), shards) == (PitOpen::Unpin {
                pit: p,
                shard: 0,
                pinned: shard,
                refusal: m,
            })
        },
        s matches PitOpen::Unpin { pit: p, shard, pinned, refusal } ==> {
            &&& pit_call(s) == Some(PitCall::Unpin { pit: p, shard })
            &&& shard + 1 < pinned ==> pit_next(s, PitReply::Done, shards) == (PitOpen::Unpin {
                pit: p,
                shard: (shard + 1) as usize,
                pinned,
                refusal,
            })
            &&& shard + 1 == pinned ==> pit_next(s, PitReply::Done, shards) == (PitOpen::Forget {
                pit: p,
                refusal,
            })
        },
        s matches PitOpen::Forget { pit: p, refusal } ==> {
            &&& pit_call(s) == Some(PitCall::Forget { pit: p })
            &&& pit_next(s, PitReply::Done, shards) == PitOpen::Ended(
                Err(ClusterPitError::Unsupported(refusal)),
            )
        },
{
}

/// A point in time is gone exactly where the registry does not hold it, and can be read exactly
/// where the placement is the one that it was opened under.
pub proof fn law_a_point_in_time_lasts_with_its_placement(
    meta: Option<ClusterPitMeta>,
    generation: PlacementGeneration,
    num_shards: u32,
)
    ensures
        pit_state(meta, generation, num_shards) is Gone <==> meta is None,
        pit_state(meta, generation, num_shards) is Valid <==> (meta matches Some(m) && m.generation
            == generation && m.num_shards == num_shards),
{
}

} // verus!
