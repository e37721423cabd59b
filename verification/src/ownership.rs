//! Which placement a query was written under.
use vstd::prelude::*;

verus! {

/// The identity of one logical placement: it advances when the model or the ring is rebuilt.
#[derive(Clone, Copy, PartialEq, Eq, PartialOrd, Ord, Hash, Debug, Structural)]
pub struct PlacementGeneration(pub u64);

/// The generation of a cluster that was never rebuilt.
pub const INITIAL_GENERATION: u64 = 1;

impl PlacementGeneration {
    /// The generation of a cluster that was never rebuilt.
    pub fn initial() -> (r: Self)
        ensures
            r == PlacementGeneration(INITIAL_GENERATION),
    {
        PlacementGeneration(INITIAL_GENERATION)
    }
}

/// How a query is spread over the shard positions.
#[derive(Clone, Copy, PartialEq, Eq, Debug, Structural)]
pub enum PlacementMode {
    /// On the listed positions.
    Selective,
    /// On every position, and evaluated on every request.
    ReplicatedAlwaysVisible,
    /// On every position, in the broad lane.
    ReplicatedBroad,
}

/// The byte that stands for a mode.
pub open spec fn mode_byte(mode: PlacementMode) -> u8 {
    match mode {
        PlacementMode::Selective => 0,
        PlacementMode::ReplicatedAlwaysVisible => 1,
        PlacementMode::ReplicatedBroad => 2,
    }
}

/// The mode that a byte stands for.
pub open spec fn byte_mode(b: u8) -> Option<PlacementMode> {
    if b == 0 {
        Some(PlacementMode::Selective)
    } else if b == 1 {
        Some(PlacementMode::ReplicatedAlwaysVisible)
    } else if b == 2 {
        Some(PlacementMode::ReplicatedBroad)
    } else {
        None
    }
}

impl PlacementMode {
    /// The byte that stands for this mode.
    pub fn byte(self) -> (r: u8)
        ensures
            r == mode_byte(self),
    {
        match self {
            PlacementMode::Selective => 0,
            PlacementMode::ReplicatedAlwaysVisible => 1,
            PlacementMode::ReplicatedBroad => 2,
        }
    }

    /// The mode that `b` stands for.
    pub fn of_byte(b: u8) -> (r: Option<PlacementMode>)
        ensures
            r == byte_mode(b),
    {
        match b {
            0 => Some(PlacementMode::Selective),
            1 => Some(PlacementMode::ReplicatedAlwaysVisible),
            2 => Some(PlacementMode::ReplicatedBroad),
            _ => None,
        }
    }
}

/// A placement, as a mathematical value.
pub ghost struct QueryPlacementView {
    pub generation: u64,
    pub num_shards: u32,
    pub mode: PlacementMode,
    pub positions: Seq<u32>,
}

impl QueryPlacementView {
    /// A selective placement lists at least one position, in ascending order and within the shard
    /// count; a replicated one lists none.
    pub open spec fn valid(self) -> bool {
        &&& self.num_shards >= 1
        &&& match self.mode {
            PlacementMode::Selective => {
                &&& self.positions.len() >= 1
                &&& forall|i: int|
                    0 <= i < self.positions.len() ==> #[trigger] self.positions[i] < self.num_shards
                &&& forall|i: int|
                    0 < i < self.positions.len() ==> self.positions[i - 1] < #[trigger] self.positions[i]
            },
            _ => self.positions.len() == 0,
        }
    }
}

/// The placement identity that a query row carries.
#[derive(Clone, Debug, PartialEq, Eq)]
pub struct QueryPlacement {
    generation: PlacementGeneration,
    num_shards: u32,
    mode: PlacementMode,
    positions: Vec<u32>,
}

impl View for QueryPlacement {
    type V = QueryPlacementView;

    closed spec fn view(&self) -> QueryPlacementView {
        QueryPlacementView {
            generation: self.generation.0,
            num_shards: self.num_shards,
            mode: self.mode,
            positions: self.positions@,
        }
    }
}

impl QueryPlacement {
    /// The placement of a query on a single shard of its own.
    pub fn standalone() -> (r: Self)
        ensures
            r@.valid(),
            r@ == (QueryPlacementView {
                generation: INITIAL_GENERATION,
                num_shards: 1,
                mode: PlacementMode::Selective,
                positions: seq![0u32],
            }),
    {
        let mut positions: Vec<u32> = Vec::new();
        positions.push(0);
        let r = QueryPlacement {
            generation: PlacementGeneration::initial(),
            num_shards: 1,
            mode: PlacementMode::Selective,
            positions,
        };
        assert(r@.positions =~= seq![0u32]);
        r
    }

    /// The placement with these parts, where they form a valid one.
    pub fn from_raw(
        generation: PlacementGeneration,
        num_shards: u32,
        mode: u8,
        positions: Vec<u32>,
    ) -> (r: Option<Self>)
        ensures
            match byte_mode(mode) {
                Some(m) => {
                    let v = QueryPlacementView {
                        generation: generation.0,
                        num_shards,
                        mode: m,
                        positions: positions@,
                    };
                    match r {
                        Some(p) => v.valid() && p@ == v,
                        None => !v.valid(),
                    }
                },
                None => r is None,
            },
    {
        let m = match PlacementMode::of_byte(mode) {
            Some(m) => m,
            None => {
                return None;
            },
        };
        let p = QueryPlacement { generation, num_shards, mode: m, positions };
        if p.is_valid() {
            Some(p)
        } else {
            None
        }
    }

    /// The placement of a query on the listed positions, where they form a valid one.
    pub fn selective(
        generation: PlacementGeneration,
        num_shards: u32,
        positions: Vec<u32>,
    ) -> (r: Option<Self>)
        ensures
            ({
                let v = QueryPlacementView {
                    generation: generation.0,
                    num_shards,
                    mode: PlacementMode::Selective,
                    positions: positions@,
                };
                match r {
                    Some(p) => v.valid() && p@ == v,
                    None => !v.valid(),
                }
            }),
    {
        QueryPlacement::from_raw(generation, num_shards, 0, positions)
    }

    fn is_valid(&self) -> (r: bool)
        ensures
            r == self@.valid(),
    {
        if self.num_shards < 1 {
            return false;
        }
        let n: usize = self.positions.len();
        match self.mode {
            PlacementMode::Selective => {
                if n < 1 {
                    return false;
                }
                let mut i: usize = 0;
                while i < n
                    invariant
                        n == self.positions@.len(),
                        i <= n,
                        forall|k: int| 0 <= k < i ==> #[trigger] self.positions@[k] < self.num_shards,
                        forall|k: int|
                            0 < k < i ==> self.positions@[k - 1] < #[trigger] self.positions@[k],
                    decreases n - i,
                {
                    if self.positions[i] >= self.num_shards {
                        assert(!(self@.positions[i as int] < self@.num_shards));
                        return false;
                    }
                    if i > 0 && self.positions[i - 1] >= self.positions[i] {
                        assert(!(self@.positions[i - 1] < self@.positions[i as int]));
                        return false;
                    }
                    i = i + 1;
                }
                true
            },
            _ => n == 0,
        }
    }

    /// A copy.
    pub fn duplicate(&self) -> (r: Self)
        ensures
            r@ == self@,
    {
        QueryPlacement {
            generation: self.generation,
            num_shards: self.num_shards,
            mode: self.mode,
            positions: self.positions.clone(),
        }
    }

    /// The generation under which the query was placed.
    pub fn generation(&self) -> (r: PlacementGeneration)
        ensures
            r.0 == self@.generation,
    {
        self.generation
    }

    /// The number of shards of that placement.
    pub fn num_shards(&self) -> (r: u32)
        ensures
            r == self@.num_shards,
    {
        self.num_shards
    }

    /// How the query is spread.
    pub fn mode(&self) -> (r: PlacementMode)
        ensures
            r == self@.mode,
    {
        self.mode
    }

    /// The positions of a selective placement.
    pub fn positions(&self) -> (r: &Vec<u32>)
        ensures
            r@ == self@.positions,
    {
        &self.positions
    }
}

// ---- laws ----

/// Every mode has a byte of its own, and no other byte stands for a mode.
pub proof fn law_modes_are_read_back(m: PlacementMode, b: u8)
    ensures
        byte_mode(mode_byte(m)) == Some(m),
        byte_mode(b) == Some(m) <==> b == mode_byte(m),
        byte_mode(b) is None <==> b > 2,
{
}

/// A valid placement names positions that exist, each once and in ascending order, and at least
/// one; or, where the query is on every position, it names none.
pub proof fn law_valid_placements_name_what_exists(p: QueryPlacementView, i: int, j: int)
    requires
        p.valid(),
        0 <= i < j,
    ensures
        p.num_shards > 0,
        p.mode == PlacementMode::Selective <==> p.positions.len() > 0,
        j < p.positions.len() ==> p.positions[i] < p.positions[j] && p.positions[j] < p.num_shards,
        p.positions.len() > 0 ==> p.positions[0] < p.num_shards,
    decreases j - i,
{
    if j < p.positions.len() {
        if j > i + 1 {
            law_valid_placements_name_what_exists(p, i, j - 1);
        }
        assert(p.positions[j - 1] < p.positions[j]);
    }
}

/// The byte of each mode.
pub proof fn law_the_byte_of_each_mode(m: PlacementMode)
    ensures
        mode_byte(m) == 0 <==> m is Selective,
        mode_byte(m) == 1 <==> m is ReplicatedAlwaysVisible,
        mode_byte(m) == 2 <==> m is ReplicatedBroad,
{
}

} // verus!
