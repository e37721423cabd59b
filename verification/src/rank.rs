//! Bounded ranked results: requests, limits, and what one shard answers.
use vstd::prelude::*;

verus! {

/// Which queries a request is matched against.
#[derive(Clone, Copy, PartialEq, Eq, Debug, Structural)]
pub enum QueryScope {
    /// The selective lane alone.
    Selective,
    /// The broad lane too.
    WithBroad,
}

/// What a request for the best matches asks for.
#[derive(Clone, Copy, PartialEq, Eq, Debug, Structural)]
pub struct TopKOptions {
    /// How many.
    pub size: usize,
    /// Up to which number the total is counted exactly.
    pub track_total_hits_up_to: u64,
    pub query_scope: QueryScope,
}

/// How much a request may ask for.
#[derive(Clone, Copy, PartialEq, Eq, Debug, Structural)]
pub struct RankLimits {
    pub max_top_k: usize,
    pub max_track_total_hits: u64,
    pub max_batch_titles: usize,
    pub max_batch_rows: u64,
}

/// A request that asks for too much.
#[derive(Clone, Copy, PartialEq, Eq, Debug, Structural)]
pub enum TopKAdmissionError {
    SizeTooLarge { requested: usize, max: usize },
    TotalHitsThresholdTooLarge { requested: u64, max: u64 },
    BatchTitlesTooLarge { requested: usize, max: usize },
    BatchHeapBudgetExceeded { requested_rows: u64, max: u64 },
}

/// Whether a total is exact.
#[derive(Clone, Copy, PartialEq, Eq, Debug, Structural)]
pub enum TotalHitsRelation {
    /// Exactly that many.
    Eq,
    /// At least that many.
    Gte,
}

/// How many matches there are.
#[derive(Clone, Copy, PartialEq, Eq, Debug, Structural)]
pub struct TotalHits {
    pub value: u64,
    pub relation: TotalHitsRelation,
}

/// Counters of matching work.
#[derive(Clone, Copy, PartialEq, Eq, Debug, Structural)]
pub struct MatchStats {
    /// How many ids matched.
    pub matches: u32,
}

/// Counters of ranking work.
#[derive(Clone, Copy, PartialEq, Eq, Debug, Structural)]
pub struct RankStats {
    pub evaluations: u64,
    pub heap_replacements: u64,
}

/// The sum, but not beyond the largest value.
pub open spec fn capped_sum64(a: u64, b: u64) -> u64 {
    if a + b > u64::MAX {
        u64::MAX
    } else {
        (a + b) as u64
    }
}

/// The sum, but not beyond the largest value.
pub open spec fn capped_sum32(a: u32, b: u32) -> u32 {
    if a + b > u32::MAX {
        u32::MAX
    } else {
        (a + b) as u32
    }
}

/// One match of a shard.
#[derive(Clone, Copy, PartialEq, Eq, Debug, Structural)]
pub struct RankedHit {
    pub logical_id: u64,
    pub score: i64,
}

/// The rank of a match: smaller is better. Higher scores come first, and among equal scores lower
/// ids.
pub open spec fn hit_rank(score: i64, logical_id: u64) -> int {
    (i64::MAX - score) * 0x1_0000_0000_0000_0000 + logical_id
}

/// The rank of a match, as a machine integer.
pub fn rank_number(score: i64, logical_id: u64) -> (r: u128)
    ensures
        r as int == hit_rank(score, logical_id),
{
    let high: i128 = i64::MAX as i128 - score as i128;
    assert(0 <= high <= u64::MAX);
    let h: u128 = high as u128;
    assert(h * 0x1_0000_0000_0000_0000 + logical_id <= u128::MAX) by (nonlinear_arith)
        requires
            h <= u64::MAX,
            logical_id <= u64::MAX,
    ;
    h * 0x1_0000_0000_0000_0000 + logical_id as u128
}

/// The rank tells score and id.
pub proof fn lemma_hit_rank(s1: i64, id1: u64, s2: i64, id2: u64)
    ensures
        hit_rank(s1, id1) < hit_rank(s2, id2) <==> (s1 > s2 || (s1 == s2 && id1 < id2)),
        hit_rank(s1, id1) == hit_rank(s2, id2) <==> (s1 == s2 && id1 == id2),
{
    assert(s1 > s2 ==> hit_rank(s1, id1) < hit_rank(s2, id2)) by (nonlinear_arith)
        requires
            hit_rank(s1, id1) == (i64::MAX - s1) * 0x1_0000_0000_0000_0000 + id1,
            hit_rank(s2, id2) == (i64::MAX - s2) * 0x1_0000_0000_0000_0000 + id2,
            0 <= id1 <= u64::MAX,
            0 <= id2 <= u64::MAX,
    ;
    assert(s1 < s2 ==> hit_rank(s1, id1) > hit_rank(s2, id2)) by (nonlinear_arith)
        requires
            hit_rank(s1, id1) == (i64::MAX - s1) * 0x1_0000_0000_0000_0000 + id1,
            hit_rank(s2, id2) == (i64::MAX - s2) * 0x1_0000_0000_0000_0000 + id2,
            0 <= id1 <= u64::MAX,
            0 <= id2 <= u64::MAX,
    ;
}

/// What one shard answers to a ranked request.
#[derive(Clone, Debug)]
pub struct ShardRankedMatch {
    pub hits: Vec<RankedHit>,
    pub total_hits: TotalHits,
    pub stats: MatchStats,
    pub rank_stats: RankStats,
    pub result_bytes: u64,
}

/// What one shard answers for one title of a batch.
#[derive(Clone, Debug)]
pub struct ShardTitleResult {
    pub hits: Vec<RankedHit>,
    pub total_hits: TotalHits,
    pub rank_stats: RankStats,
}

/// What one shard answers to a batch.
#[derive(Clone, Debug)]
pub struct ShardBatchRankedMatch {
    pub titles: Vec<ShardTitleResult>,
    pub stats: MatchStats,
    pub result_bytes: u64,
}

/// The source text of one winner.
#[derive(Clone, Debug)]
pub struct FetchedMatch {
    pub logical_id: u64,
    pub source: String,
}

impl MatchStats {
    /// The counters of nothing.
    pub fn zero() -> (r: Self)
        ensures
            r.matches == 0,
    {
        MatchStats { matches: 0 }
    }

    /// Adds the counters of another part.
    pub fn merge(&mut self, other: MatchStats)
        ensures
            final(self).matches == capped_sum32(old(self).matches, other.matches),
    {
        self.matches = self.matches.saturating_add(other.matches);
    }
}

impl RankStats {
    /// The counters of nothing.
    pub fn zero() -> (r: Self)
        ensures
            r == (RankStats { evaluations: 0, heap_replacements: 0 }),
    {
        RankStats { evaluations: 0, heap_replacements: 0 }
    }

    /// Adds the counters of another part.
    pub fn merge(&mut self, other: RankStats)
        ensures
            final(self).evaluations == capped_sum64(old(self).evaluations, other.evaluations),
            final(self).heap_replacements == capped_sum64(
                old(self).heap_replacements,
                other.heap_replacements,
            ),
    {
        self.evaluations = self.evaluations.saturating_add(other.evaluations);
        self.heap_replacements = self.heap_replacements.saturating_add(other.heap_replacements);
    }
}

/// Why a ranking cannot be compiled.
#[derive(Clone, Debug, PartialEq, Eq)]
pub enum RankProgramError {
    /// A field that queries are not ranked by.
    UnsupportedField(String),
}

/// A ranking as it is evaluated: whether the priority counts, and the weight of each tag.
#[derive(Clone, Debug, PartialEq, Eq)]
pub struct RankProgram {
    pub use_priority: bool,
    pub boosts: Vec<(u64, i64)>,
}

/// Compiles a ranking, given the ids of its tags. The only field to rank by is `priority`.
pub fn compile_rank_program(priority_field: &Option<String>, boosts: Vec<(u64, i64)>) -> (r: Result<
    RankProgram,
    RankProgramError,
>)
    ensures
        match *priority_field {
            None => r == Ok::<RankProgram, RankProgramError>(
                RankProgram { use_priority: false, boosts },
            ),
            Some(f) => if f@ == "priority"@ {
                r == Ok::<RankProgram, RankProgramError>(
                    RankProgram { use_priority: true, boosts },
                )
            } else {
                r matches Err(RankProgramError::UnsupportedField(x)) && x@ == f@
            },
        },
{
    match priority_field {
        None => Ok(RankProgram { use_priority: false, boosts }),
        Some(f) => if *f == String::from_str("priority") {
            Ok(RankProgram { use_priority: true, boosts })
        } else {
            Err(RankProgramError::UnsupportedField(f.clone()))
        },
    }
}

} // verus!
