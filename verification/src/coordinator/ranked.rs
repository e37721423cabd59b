//! The best matches of a title over all shards.
//!
//! Every matched id belongs to one shard, so each shard's own best `K` are enough for the global
//! best `K`. The coordinator checks that the shards' rows are bounded, ordered and disjoint, merges
//! them under the shared order, and fetches the winners' sources from their owners.
use crate::order::{
    ascending, injective_on, key_of, lemma_ascending_unique, lemma_sorted_insert_at,
    lemma_stable_sort, merge_sort, sorted_insert, stable_sort, Keyed,
};
use crate::ownership::PlacementGeneration;
use crate::rank::{
    capped_sum32, capped_sum64, hit_rank, lemma_hit_rank, rank_number, MatchStats, RankLimits,
    RankStats, RankedHit, ShardRankedMatch, TopKAdmissionError, TopKOptions, TotalHits,
    TotalHitsRelation,
};
use crate::shard::{ShardError, ShardErrorView};
use crate::text::{decimal, push_decimal, with_number};
use std::collections::HashSet;
use vstd::prelude::*;

verus! {

broadcast use vstd::std_specs::hash::group_hash_axioms;

/// A global winner and the position that owns it.
#[derive(Clone, Copy, Debug, Eq, PartialEq, Structural)]
pub struct ClusterRankedHit {
    pub logical_id: u64,
    pub score: i64,
    pub owner_position: u32,
}

impl Keyed for ClusterRankedHit {
    open spec fn key(&self) -> int {
        hit_rank(self.score, self.logical_id)
    }

    fn sort_key(&self) -> (k: u128) {
        rank_number(self.score, self.logical_id)
    }
}

/// The merged result.
#[derive(Clone, Debug, Eq, PartialEq)]
pub struct ClusterRankedMatch {
    pub hits: Vec<ClusterRankedHit>,
    pub total_hits: TotalHits,
    pub stats: MatchStats,
    pub rank_stats: RankStats,
    pub routed_shards: usize,
    pub shard_rows_received: usize,
    pub shard_result_bytes: u64,
    /// The placement that the rows were collected under.
    pub placement_generation: PlacementGeneration,
    pub num_shards: u32,
}

/// Why a ranked request failed.
#[derive(Clone, Debug)]
pub enum ClusterRankedError {
    Admission(TopKAdmissionError),
    Shard(ShardError),
    DeadlineExceeded,
    InvalidShardReply { position: usize, detail: String },
    DuplicateLogicalId(u64),
    /// The sources do not fit the byte budget.
    EnrichmentLimit { limit: usize },
    /// The point in time is gone.
    StalePit,
}

/// A ranked error, as a mathematical value.
pub ghost enum RankedErrorView {
    Admission(TopKAdmissionError),
    Shard(ShardErrorView),
    DeadlineExceeded,
    InvalidShardReply { position: usize, detail: Seq<char> },
    DuplicateLogicalId(u64),
    EnrichmentLimit { limit: usize },
    StalePit,
}

impl View for ClusterRankedError {
    type V = RankedErrorView;

    open spec fn view(&self) -> RankedErrorView {
        match self {
            ClusterRankedError::Admission(e) => RankedErrorView::Admission(*e),
            ClusterRankedError::Shard(e) => RankedErrorView::Shard(e@),
            ClusterRankedError::DeadlineExceeded => RankedErrorView::DeadlineExceeded,
            ClusterRankedError::InvalidShardReply { position, detail } =>
                RankedErrorView::InvalidShardReply { position: *position, detail: detail@ },
            ClusterRankedError::DuplicateLogicalId(id) => RankedErrorView::DuplicateLogicalId(*id),
            ClusterRankedError::EnrichmentLimit { limit } => RankedErrorView::EnrichmentLimit {
                limit: *limit,
            },
            ClusterRankedError::StalePit => RankedErrorView::StalePit,
        }
    }
}

/// A shard's error as a ranked one.
pub open spec fn ranked_from_shard(e: ShardErrorView) -> RankedErrorView {
    match e {
        ShardErrorView::DeadlineExceeded => RankedErrorView::DeadlineExceeded,
        ShardErrorView::Admission(x) => RankedErrorView::Admission(x),
        v => RankedErrorView::Shard(v),
    }
}

impl ClusterRankedError {
    /// A shard's error as a ranked one: a passed deadline and a refused request stay what they are.
    pub fn from_shard(e: ShardError) -> (r: Self)
        ensures
            r@ == ranked_from_shard(e@),
    {
        match e {
            ShardError::DeadlineExceeded => ClusterRankedError::DeadlineExceeded,
            ShardError::Admission(x) => ClusterRankedError::Admission(x),
            other => ClusterRankedError::Shard(other),
        }
    }

    /// The error of a request whose ownership does not hold.
    pub fn from_ownership(detail: String) -> (r: Self)
        ensures
            r@ == RankedErrorView::Shard(ShardErrorView::OwnershipMismatch(detail@)),
    {
        ClusterRankedError::Shard(ShardError::OwnershipMismatch(detail))
    }
}

/// The message of a ranked error; `inner` is the message of the error that it wraps, if it wraps one.
pub open spec fn ranked_error_text(e: RankedErrorView, inner: Seq<char>) -> Seq<char> {
    match e {
        RankedErrorView::Admission(_) => inner,
        RankedErrorView::Shard(_) => inner,
        RankedErrorView::DeadlineExceeded => "distributed ranked deadline exceeded"@,
        RankedErrorView::InvalidShardReply { position, detail } =>
            "invalid bounded reply from shard "@ + decimal(position as nat) + ": "@ + detail,
        RankedErrorView::DuplicateLogicalId(id) => "ownership violation: logical id "@ + decimal(
            id as nat,
        ) + " was emitted by multiple shards"@,
        RankedErrorView::EnrichmentLimit { limit } => "ranked source enrichment exceeds "@
            + decimal(limit as nat) + " bytes"@,
        RankedErrorView::StalePit => "point in time is stale"@,
    }
}

impl ClusterRankedError {
    /// The message; `inner` is the message of the error that this one wraps, if it wraps one.
    pub fn message(&self, inner: &str) -> (r: String)
        ensures
            r@ == ranked_error_text(self@, inner@),
    {
        match self {
            ClusterRankedError::Admission(_) => String::from_str(inner),
            ClusterRankedError::Shard(_) => String::from_str(inner),
            ClusterRankedError::DeadlineExceeded => String::from_str(
                "distributed ranked deadline exceeded",
            ),
            ClusterRankedError::InvalidShardReply { position, detail } => {
                let mut m = with_number(
                    "invalid bounded reply from shard ",
                    *position as u64,
                    ": ",
                );
                m.append(detail.as_str());
                m
            },
            ClusterRankedError::DuplicateLogicalId(id) => with_number(
                "ownership violation: logical id ",
                *id,
                " was emitted by multiple shards",
            ),
            ClusterRankedError::EnrichmentLimit { limit } => with_number(
                "ranked source enrichment exceeds ",
                *limit as u64,
                " bytes",
            ),
            ClusterRankedError::StalePit => String::from_str("point in time is stale"),
        }
    }
}

/// Refuses a request that asks for too much.
pub fn validate_options(options: TopKOptions, limits: RankLimits) -> (r: Result<
    (),
    TopKAdmissionError,
>)
    ensures
        r == if options.size > limits.max_top_k {
            Err::<(), TopKAdmissionError>(
                TopKAdmissionError::SizeTooLarge {
                    requested: options.size,
                    max: limits.max_top_k,
                },
            )
        } else if options.track_total_hits_up_to > limits.max_track_total_hits {
            Err(
                TopKAdmissionError::TotalHitsThresholdTooLarge {
                    requested: options.track_total_hits_up_to,
                    max: limits.max_track_total_hits,
                },
            )
        } else {
            Ok(())
        },
{
    if options.size > limits.max_top_k {
        return Err(
            TopKAdmissionError::SizeTooLarge { requested: options.size, max: limits.max_top_k },
        );
    }
    if options.track_total_hits_up_to > limits.max_track_total_hits {
        return Err(
            TopKAdmissionError::TotalHitsThresholdTooLarge {
                requested: options.track_total_hits_up_to,
                max: limits.max_track_total_hits,
            },
        );
    }
    Ok(())
}

/// Refuses to go on once the deadline has passed.
pub fn check_deadline(passed: bool) -> (r: Result<(), ClusterRankedError>)
    ensures
        r is Ok <==> !passed,
        r matches Err(e) ==> e@ == RankedErrorView::DeadlineExceeded,
{
    if passed {
        Err(ClusterRankedError::DeadlineExceeded)
    } else {
        Ok(())
    }
}

/// `a` comes before `b`: a higher score, or the same and a lower id.
pub open spec fn hit_before(a: RankedHit, b: RankedHit) -> bool {
    a.score > b.score || (a.score == b.score && a.logical_id < b.logical_id)
}

/// Every row comes before the next.
pub open spec fn rows_ordered(hits: Seq<RankedHit>) -> bool {
    forall|i: int| 0 < i < hits.len() ==> hit_before(hits[i - 1], #[trigger] hits[i])
}

/// What is wrong with one shard's rows, if anything.
pub open spec fn part_fault(position: usize, size: usize, hits: Seq<RankedHit>) -> Option<
    RankedErrorView,
> {
    if hits.len() > size {
        Some(
            RankedErrorView::InvalidShardReply {
                position,
                detail: "returned "@ + decimal(hits.len()) + " rows for requested K="@ + decimal(
                    size as nat,
                ),
            },
        )
    } else if !rows_ordered(hits) {
        Some(
            RankedErrorView::InvalidShardReply {
                position,
                detail: "rows are not strictly ordered by (score desc, logical_id asc)"@,
            },
        )
    } else {
        None
    }
}

/// Checks that one shard's rows are no more than asked for and in order.
pub fn validate_part(position: usize, requested_k: usize, hits: &Vec<RankedHit>) -> (r: Result<
    (),
    ClusterRankedError,
>)
    ensures
        match part_fault(position, requested_k, hits@) {
            Some(e) => r matches Err(x) && x@ == e,
            None => r is Ok,
        },
{
    let n: usize = hits.len();
    if n > requested_k {
        let mut m = with_number("returned ", n as u64, " rows for requested K=");
        push_decimal(&mut m, requested_k as u64);
        return Err(ClusterRankedError::InvalidShardReply { position, detail: m });
    }
    let mut i: usize = 1;
    while i < n
        invariant
            1 <= i,
            n == hits@.len(),
            n <= requested_k,
            forall|k: int| 0 < k < i && k < n ==> hit_before(hits@[k - 1], #[trigger] hits@[k]),
        decreases n - i,
    {
        let a = hits[i - 1];
        let b = hits[i];
        if !(a.score > b.score || (a.score == b.score && a.logical_id < b.logical_id)) {
            assert(!hit_before(hits@[i - 1], hits@[i as int]));
            return Err(
                ClusterRankedError::InvalidShardReply {
                    position,
                    detail: String::from_str(
                        "rows are not strictly ordered by (score desc, logical_id asc)",
                    ),
                },
            );
        }
        i = i + 1;
    }
    Ok(())
}

// ---- merging ----

/// One shard's rows for one title.
#[derive(Clone, Debug)]
pub struct TitlePart {
    pub position: u32,
    pub hits: Vec<RankedHit>,
    pub total: TotalHits,
}

/// One shard's rows, as a mathematical value.
pub ghost struct PartView {
    pub position: u32,
    pub hits: Seq<RankedHit>,
    pub total: TotalHits,
}

impl View for TitlePart {
    type V = PartView;

    open spec fn view(&self) -> PartView {
        PartView { position: self.position, hits: self.hits@, total: self.total }
    }
}

/// The parts as mathematical values.
pub open spec fn part_views(parts: Seq<TitlePart>) -> Seq<PartView> {
    parts.map_values(|p: TitlePart| p@)
}

/// A shard's rows, with their owner.
pub open spec fn owned(p: PartView) -> Seq<ClusterRankedHit> {
    p.hits.map_values(
        |h: RankedHit|
            ClusterRankedHit {
                logical_id: h.logical_id,
                score: h.score,
                owner_position: p.position,
            },
    )
}

/// All rows, shard by shard.
pub open spec fn all_rows(parts: Seq<PartView>) -> Seq<ClusterRankedHit>
    decreases parts.len(),
{
    if parts.len() == 0 {
        Seq::empty()
    } else {
        all_rows(parts.drop_last()) + owned(parts.last())
    }
}

/// The ids of some rows.
pub open spec fn row_ids(rows: Seq<ClusterRankedHit>) -> Seq<u64> {
    rows.map_values(|h: ClusterRankedHit| h.logical_id)
}

/// The first id that occurs a second time.
pub open spec fn first_repeat(ids: Seq<u64>) -> Option<u64>
    decreases ids.len(),
{
    if ids.len() == 0 {
        None
    } else {
        match first_repeat(ids.drop_last()) {
            Some(x) => Some(x),
            None => if ids.drop_last().contains(ids.last()) {
                Some(ids.last())
            } else {
                None
            },
        }
    }
}

/// The number of matches that the shards counted, and whether all counted exactly.
pub open spec fn counted(parts: Seq<PartView>) -> (nat, bool)
    decreases parts.len(),
{
    if parts.len() == 0 {
        (0, true)
    } else {
        let (n, exact) = counted(parts.drop_last());
        let t = parts.last().total;
        (n + t.value as nat, exact && t.relation == TotalHitsRelation::Eq)
    }
}

/// The total: exact if every shard counted exactly and the sum is within the threshold; at least
/// the threshold otherwise.
pub open spec fn merged_total(parts: Seq<PartView>, threshold: u64) -> TotalHits {
    let (n, exact) = counted(parts);
    if exact && n <= threshold {
        TotalHits { value: n as u64, relation: TotalHitsRelation::Eq }
    } else {
        TotalHits { value: threshold, relation: TotalHitsRelation::Gte }
    }
}

/// The first `n` elements, or all of them.
pub open spec fn at_most<A>(s: Seq<A>, n: nat) -> Seq<A> {
    if s.len() <= n {
        s
    } else {
        s.take(n as int)
    }
}

/// The best `size` of the rows, best first.
pub open spec fn best(rows: Seq<ClusterRankedHit>, size: nat) -> Seq<ClusterRankedHit> {
    at_most(stable_sort(rows, key_of::<ClusterRankedHit>()), size)
}

/// Merges the rows of one title: the winners, the total, and how many rows came in. Two shards that
/// answer the same id break ownership.
pub fn merge_title_rows(size: usize, threshold: u64, parts: &Vec<TitlePart>) -> (r: Result<
    (Vec<ClusterRankedHit>, TotalHits, usize),
    ClusterRankedError,
>)
    requires
        all_rows(part_views(parts@)).len() <= usize::MAX,
    ensures
        ({
            let pv = part_views(parts@);
            let rows = all_rows(pv);
            match first_repeat(row_ids(rows)) {
                Some(id) => r matches Err(e) && e@ == RankedErrorView::DuplicateLogicalId(id),
                None => r matches Ok((hits, total, n)) && hits@ == best(rows, size as nat) && total
                    == merged_total(pv, threshold) && n == rows.len(),
            }
        }),
{
    let ghost pv = part_views(parts@);
    let n: usize = parts.len();
    let mut rows: Vec<ClusterRankedHit> = Vec::new();
    let mut seen: HashSet<u64> = HashSet::new();
    let mut sum: u64 = 0;
    let mut overflow: bool = false;
    let mut all_exact: bool = true;
    let mut i: usize = 0;
    proof {
        assert(pv.take(0).len() == 0);
        assert(row_ids(rows@).to_set() =~= Set::empty());
    }
    while i < n
        invariant
            n == parts@.len(),
            pv == part_views(parts@),
            i <= n,
            rows@ == all_rows(pv.take(i as int)),
            seen@ == row_ids(rows@).to_set(),
            first_repeat(row_ids(rows@)) is None,
            all_exact == counted(pv.take(i as int)).1,
            !overflow ==> sum == counted(pv.take(i as int)).0,
            overflow ==> counted(pv.take(i as int)).0 > u64::MAX,
            all_rows(pv).len() <= usize::MAX,
        decreases n - i,
    {
        let part = &parts[i];
        proof {
            assert(pv.take(i + 1).drop_last() =~= pv.take(i as int));
            assert(pv.take(i + 1).last() == part@);
        }
        match part.total.relation {
            TotalHitsRelation::Eq => {},
            TotalHitsRelation::Gte => {
                all_exact = false;
            },
        }
        if !overflow {
            match sum.checked_add(part.total.value) {
                Some(s) => {
                    sum = s;
                },
                None => {
                    overflow = true;
                },
            }
        }
        let m: usize = part.hits.len();
        let ghost before = rows@;
        let ghost mine = owned(part@);
        let mut j: usize = 0;
        assert(rows@ =~= before + mine.take(0));
        while j < m
            invariant
                m == part.hits@.len(),
                mine == owned(part@),
                j <= m,
                i < n,
                n == parts@.len(),
                pv == part_views(parts@),
                part@ == pv[i as int],
                before == all_rows(pv.take(i as int)),
                rows@ == before + mine.take(j as int),
                seen@ == row_ids(rows@).to_set(),
                first_repeat(row_ids(rows@)) is None,
            decreases m - j,
        {
            let h = part.hits[j];
            let ghost ids = row_ids(rows@);
            let row = ClusterRankedHit {
                logical_id: h.logical_id,
                score: h.score,
                owner_position: part.position,
            };
            proof {
                assert(mine[j as int] == row);
                assert(mine.take(j + 1) =~= mine.take(j as int).push(row));
                assert(before + mine.take(j + 1) =~= rows@.push(row));
                assert(row_ids(rows@.push(row)) =~= ids.push(h.logical_id));
                assert(ids.push(h.logical_id).drop_last() =~= ids);
                ids.lemma_push_to_set_commute(h.logical_id);
            }
            if !seen.insert(h.logical_id) {
                proof {
                    let whole = row_ids(all_rows(pv));
                    let upto = ids.push(h.logical_id);
                    assert(first_repeat(upto) == Some(h.logical_id));
                    lemma_rows_prefix(pv, i as int, j + 1);
                    assert(upto =~= whole.take(upto.len() as int));
                    lemma_first_repeat_prefix(whole, upto.len() as int);
                }
                return Err(ClusterRankedError::DuplicateLogicalId(h.logical_id));
            }
            rows.push(row);
            j = j + 1;
        }
        proof {
            assert(mine.take(m as int) =~= mine);
        }
        i = i + 1;
    }
    assert(pv.take(n as int) =~= pv);
    let received: usize = rows.len();
    let total = if all_exact && !overflow && sum <= threshold {
        TotalHits { value: sum, relation: TotalHitsRelation::Eq }
    } else {
        TotalHits { value: threshold, relation: TotalHitsRelation::Gte }
    };
    let mut hits = merge_sort(&rows);
    proof {
        lemma_rows_injective(rows@);
        lemma_stable_sort(rows@, key_of::<ClusterRankedHit>());
    }
    hits.truncate(size);
    assert(hits@ =~= best(rows@, size as nat));
    Ok((hits, total, received))
}

/// Rows without a repeated id have different ranks.
proof fn lemma_rows_injective(rows: Seq<ClusterRankedHit>)
    requires
        first_repeat(row_ids(rows)) is None,
    ensures
        injective_on(rows, key_of::<ClusterRankedHit>()),
{
    let ids = row_ids(rows);
    lemma_no_repeat(ids);
    assert forall|a: ClusterRankedHit, b: ClusterRankedHit| #[trigger]
        rows.contains(a) && #[trigger] rows.contains(b) && key_of::<ClusterRankedHit>()(a)
            == key_of::<ClusterRankedHit>()(b) implies a == b by {
        lemma_hit_rank(a.score, a.logical_id, b.score, b.logical_id);
        let i = choose|i: int| 0 <= i < rows.len() && rows[i] == a;
        let j = choose|j: int| 0 <= j < rows.len() && rows[j] == b;
        assert(ids[i] == ids[j]);
    }
}

pub proof fn lemma_no_repeat(ids: Seq<u64>)
    ensures
        first_repeat(ids) is None <==> ids.no_duplicates(),
    decreases ids.len(),
{
    if ids.len() > 0 {
        let d = ids.drop_last();
        lemma_no_repeat(d);
        if first_repeat(ids) is None {
            assert forall|i: int, j: int|
                0 <= i < ids.len() && 0 <= j < ids.len() && i != j implies ids[i] != ids[j] by {
                if i == d.len() {
                    assert(d[j] == ids[j]);
                } else if j == d.len() {
                    assert(d[i] == ids[i]);
                } else {
                    assert(d[i] == ids[i] && d[j] == ids[j]);
                }
            }
        } else if ids.no_duplicates() {
            assert(d.no_duplicates()) by {
                assert forall|i: int, j: int|
                    0 <= i < d.len() && 0 <= j < d.len() && i != j implies d[i] != d[j] by {
                    assert(d[i] == ids[i] && d[j] == ids[j]);
                }
            }
            assert(d.contains(ids.last()));
            let k = choose|k: int| 0 <= k < d.len() && d[k] == ids.last();
            assert(ids[k] == ids[ids.len() - 1]);
        }
    }
}

/// A repeat in a prefix is the first of the whole.
proof fn lemma_first_repeat_prefix(ids: Seq<u64>, n: int)
    requires
        0 <= n <= ids.len(),
        first_repeat(ids.take(n)) is Some,
    ensures
        first_repeat(ids) == first_repeat(ids.take(n)),
    decreases ids.len() - n,
{
    if n < ids.len() {
        assert(ids.take(n + 1).drop_last() =~= ids.take(n));
        lemma_first_repeat_prefix(ids, n + 1);
    } else {
        assert(ids.take(n) =~= ids);
    }
}

/// The rows of the first parts, and of a part of the next, are a prefix of all rows.
proof fn lemma_rows_prefix(pv: Seq<PartView>, i: int, j: int)
    requires
        0 <= i < pv.len(),
        0 <= j <= pv[i].hits.len(),
    ensures
        ({
            let head = all_rows(pv.take(i)) + owned(pv[i]).take(j);
            &&& head.len() <= all_rows(pv).len()
            &&& row_ids(all_rows(pv)).take(head.len() as int) == row_ids(head)
        }),
    decreases pv.len() - i,
{
    let head = all_rows(pv.take(i)) + owned(pv[i]).take(j);
    let more = all_rows(pv.take(i + 1));
    assert(pv.take(i + 1).drop_last() =~= pv.take(i));
    assert(more == all_rows(pv.take(i)) + owned(pv[i]));
    assert(more.take(head.len() as int) =~= head);
    if i + 1 < pv.len() {
        lemma_rows_prefix(pv, i + 1, 0);
        let next = more + owned(pv[i + 1]).take(0);
        assert(next =~= more);
        let whole = row_ids(all_rows(pv));
        assert(whole.take(head.len() as int) =~= whole.take(more.len() as int).take(
            head.len() as int,
        ));
        assert(row_ids(more).take(head.len() as int) =~= row_ids(head));
    } else {
        assert(pv.take(i + 1) =~= pv);
        assert(row_ids(more).take(head.len() as int) =~= row_ids(head));
    }
}

// ---- one title, whole replies ----

/// The replies' rows, as parts.
pub open spec fn reply_parts(replies: Seq<(u32, ShardRankedMatch)>) -> Seq<PartView> {
    replies.map_values(
        |x: (u32, ShardRankedMatch)|
            PartView { position: x.0, hits: x.1.hits@, total: x.1.total_hits },
    )
}

/// What is wrong with the replies, if anything: the first of them whose rows are malformed, or that
/// repeats an id.
pub open spec fn replies_fault(size: usize, parts: Seq<PartView>) -> Option<RankedErrorView>
    decreases parts.len(),
{
    if parts.len() == 0 {
        None
    } else {
        match replies_fault(size, parts.drop_last()) {
            Some(e) => Some(e),
            None => match part_fault(parts.last().position as usize, size, parts.last().hits) {
                Some(e) => Some(e),
                None => match first_repeat(row_ids(all_rows(parts))) {
                    Some(id) => Some(RankedErrorView::DuplicateLogicalId(id)),
                    None => None,
                },
            },
        }
    }
}

/// The counters of the replies, added up.
pub open spec fn replies_stats(replies: Seq<(u32, ShardRankedMatch)>) -> (u32, RankStats, u64)
    decreases replies.len(),
{
    if replies.len() == 0 {
        (0, RankStats { evaluations: 0, heap_replacements: 0 }, 0)
    } else {
        let (m, s, b) = replies_stats(replies.drop_last());
        let r = replies.last().1;
        (
            capped_sum32(m, r.stats.matches),
            RankStats {
                evaluations: capped_sum64(s.evaluations, r.rank_stats.evaluations),
                heap_replacements: capped_sum64(
                    s.heap_replacements,
                    r.rank_stats.heap_replacements,
                ),
            },
            capped_sum64(b, r.result_bytes),
        )
    }
}

/// All parts are well formed.
pub open spec fn well_formed(size: usize, parts: Seq<PartView>) -> bool {
    forall|i: int|
        0 <= i < parts.len() ==> part_fault(
            (#[trigger] parts[i]).position as usize,
            size,
            parts[i].hits,
        ) is None
}

/// With well-formed parts the only fault is a repeated id.
pub proof fn lemma_replies_fault(size: usize, parts: Seq<PartView>)
    requires
        well_formed(size, parts),
    ensures
        replies_fault(size, parts) == match first_repeat(row_ids(all_rows(parts))) {
            Some(id) => Some(RankedErrorView::DuplicateLogicalId(id)),
            None => None,
        },
    decreases parts.len(),
{
    if parts.len() > 0 {
        let d = parts.drop_last();
        assert(well_formed(size, d)) by {
            assert forall|i: int| 0 <= i < d.len() implies part_fault(
                (#[trigger] d[i]).position as usize,
                size,
                d[i].hits,
            ) is None by {
                assert(d[i] == parts[i]);
            }
        }
        lemma_replies_fault(size, d);
        assert(part_fault(parts.last().position as usize, size, parts.last().hits) is None) by {
            assert(parts.last() == parts[parts.len() - 1]);
        }
        let whole = row_ids(all_rows(parts));
        let head = row_ids(all_rows(d));
        assert(whole.take(head.len() as int) =~= head);
        if first_repeat(head) is Some {
            lemma_first_repeat_prefix(whole, head.len() as int);
        }
    }
}

/// A fault in the first replies is the fault of all.
proof fn lemma_replies_fault_prefix(size: usize, parts: Seq<PartView>, n: int)
    requires
        0 <= n <= parts.len(),
        replies_fault(size, parts.take(n)) is Some,
    ensures
        replies_fault(size, parts) == replies_fault(size, parts.take(n)),
    decreases parts.len() - n,
{
    if n < parts.len() {
        assert(parts.take(n + 1).drop_last() =~= parts.take(n));
        lemma_replies_fault_prefix(size, parts, n + 1);
    } else {
        assert(parts.take(n) =~= parts);
    }
}

/// `m` is what the replies to a request for one title give.
pub open spec fn ranked_of(
    m: ClusterRankedMatch,
    options: TopKOptions,
    replies: Seq<(u32, ShardRankedMatch)>,
) -> bool {
    let parts = reply_parts(replies);
    &&& m.hits@ == best(all_rows(parts), options.size as nat)
    &&& m.total_hits == merged_total(parts, options.track_total_hits_up_to)
    &&& (m.stats.matches, m.rank_stats, m.shard_result_bytes) == replies_stats(replies)
    &&& m.routed_shards == replies.len()
    &&& m.shard_rows_received == all_rows(parts).len()
}

/// Merges the replies of the shards that a title was routed to.
pub fn merge_ranked(
    options: TopKOptions,
    replies: Vec<(u32, ShardRankedMatch)>,
    generation: PlacementGeneration,
    num_shards: u32,
) -> (r: Result<ClusterRankedMatch, ClusterRankedError>)
    requires
        all_rows(reply_parts(replies@)).len() <= usize::MAX,
    ensures
        ({
            let parts = reply_parts(replies@);
            match replies_fault(options.size, parts) {
                Some(e) => r matches Err(x) && x@ == e,
                None => r matches Ok(m) && ranked_of(m, options, replies@) && m.placement_generation
                    == generation && m.num_shards == num_shards,
            }
        }),
{
    let ghost all = replies@;
    let ghost pv = reply_parts(all);
    let routed: usize = replies.len();
    let mut parts: Vec<TitlePart> = Vec::new();
    let mut stats = MatchStats::zero();
    let mut rank_stats = RankStats::zero();
    let mut bytes: u64 = 0;
    proof {
        assert(part_views(parts@) =~= pv.take(0));
        assert(all.take(0).len() == 0);
    }
    for x in it: replies.into_iter()
        invariant
            it.seq() == all,
            pv == reply_parts(all),
            all_rows(pv).len() <= usize::MAX,
            part_views(parts@) == pv.take(it.index()),
            well_formed(options.size, pv.take(it.index())),
            (stats.matches, rank_stats, bytes) == replies_stats(all.take(it.index())),
    {
        let ghost i = it.index();
        let position: u32 = x.0;
        let reply = x.1;
        proof {
            assert(pv.take(i + 1).drop_last() =~= pv.take(i));
            assert(pv.take(i + 1) =~= pv.take(i).push(pv[i]));
            assert(all.take(i + 1).drop_last() =~= all.take(i));
            lemma_replies_fault(options.size, pv.take(i));
            lemma_rows_prefix(pv, i, 0);
            assert(owned(pv[i]).take(0) =~= Seq::empty());
            assert(all_rows(pv.take(i)) + Seq::<ClusterRankedHit>::empty() =~= all_rows(
                pv.take(i),
            ));
        }
        match validate_part(position as usize, options.size, &reply.hits) {
            Ok(_) => {},
            Err(e) => {
                match merge_title_rows(options.size, options.track_total_hits_up_to, &parts) {
                    Ok(_) => {
                        proof {
                            assert(replies_fault(options.size, pv.take(i + 1)) == Some(e@));
                            lemma_replies_fault_prefix(options.size, pv, i + 1);
                        }
                        return Err(e);
                    },
                    Err(d) => {
                        proof {
                            lemma_replies_fault_prefix(options.size, pv, i);
                        }
                        return Err(d);
                    },
                }
            },
        }
        stats.merge(reply.stats);
        rank_stats.merge(reply.rank_stats);
        bytes = bytes.saturating_add(reply.result_bytes);
        let ghost before = parts@;
        parts.push(TitlePart { position, hits: reply.hits, total: reply.total_hits });
        proof {
            assert(part_views(parts@) =~= part_views(before).push(pv[i]));
            assert(well_formed(options.size, pv.take(i + 1)));
        }
    }
    proof {
        assert(pv.take(all.len() as int) =~= pv);
        assert(all.take(all.len() as int) =~= all);
        lemma_replies_fault(options.size, pv);
    }
    match merge_title_rows(options.size, options.track_total_hits_up_to, &parts) {
        Ok((hits, total_hits, received)) => Ok(
            ClusterRankedMatch {
                hits,
                total_hits,
                stats,
                rank_stats,
                routed_shards: routed,
                shard_rows_received: received,
                shard_result_bytes: bytes,
                placement_generation: generation,
                num_shards,
            },
        ),
        Err(e) => Err(e),
    }
}

// ---- laws ----

/// The parts with only the first `k` rows of each.
pub open spec fn cut(parts: Seq<PartView>, k: nat) -> Seq<PartView> {
    parts.map_values(|p: PartView| PartView { hits: at_most(p.hits, k), ..p })
}

proof fn lemma_filter_len_insert(
    s: Seq<ClusterRankedHit>,
    x: ClusterRankedHit,
    key: spec_fn(ClusterRankedHit) -> int,
    p: spec_fn(ClusterRankedHit) -> bool,
)
    ensures
        sorted_insert(s, x, key).filter(p).len() == s.filter(p).len() + if p(x) {
            1int
        } else {
            0int
        },
    decreases s.len(),
{
    reveal(Seq::filter);
    let r = sorted_insert(s, x, key);
    if s.len() == 0 || key(s.last()) <= key(x) {
        assert(r.drop_last() =~= s);
    } else {
        let u = sorted_insert(s.drop_last(), x, key);
        lemma_filter_len_insert(s.drop_last(), x, key, p);
        assert(r.drop_last() =~= u);
    }
}

proof fn lemma_filter_len_sort(
    s: Seq<ClusterRankedHit>,
    key: spec_fn(ClusterRankedHit) -> int,
    p: spec_fn(ClusterRankedHit) -> bool,
)
    ensures
        stable_sort(s, key).filter(p).len() == s.filter(p).len(),
    decreases s.len(),
{
    reveal(Seq::filter);
    if s.len() > 0 {
        lemma_filter_len_sort(s.drop_last(), key, p);
        lemma_filter_len_insert(stable_sort(s.drop_last(), key), s.last(), key, p);
    }
}

proof fn lemma_filter_len_at_most(
    s: Seq<ClusterRankedHit>,
    p: spec_fn(ClusterRankedHit) -> bool,
    j: int,
)
    requires
        0 <= j <= s.len(),
        forall|i: int| j <= i < s.len() ==> !p(#[trigger] s[i]),
    ensures
        s.filter(p).len() <= j,
    decreases s.len(),
{
    reveal(Seq::filter);
    if s.len() > 0 {
        if j == s.len() {
            s.lemma_filter_len(p);
        } else {
            assert(!p(s[s.len() - 1]));
            assert forall|i: int| j <= i < s.drop_last().len() implies !p(
                #[trigger] s.drop_last()[i],
            ) by {
                assert(!p(s[i]));
            }
            lemma_filter_len_at_most(s.drop_last(), p, j);
        }
    }
}

proof fn lemma_filter_len_at_least(
    a: Seq<ClusterRankedHit>,
    b: Seq<ClusterRankedHit>,
    p: spec_fn(ClusterRankedHit) -> bool,
)
    requires
        forall|i: int| 0 <= i < b.len() ==> p(#[trigger] b[i]),
    ensures
        (a + b).filter(p).len() >= b.len(),
    decreases b.len(),
{
    reveal(Seq::filter);
    if b.len() > 0 {
        assert(p(b[b.len() - 1]));
        assert forall|i: int| 0 <= i < b.drop_last().len() implies p(#[trigger] b.drop_last()[i]) by {
            assert(p(b[i]));
        }
        lemma_filter_len_at_least(a, b.drop_last(), p);
        assert((a + b).drop_last() =~= a + b.drop_last());
        assert((a + b).last() == b.last());
    }
}

/// A row that at least `k` others beat is not among the best `k`.
proof fn lemma_beaten_row(s: Seq<ClusterRankedHit>, x: ClusterRankedHit, k: nat)
    requires
        s.filter(|y: ClusterRankedHit| y.key() < x.key()).len() >= k,
    ensures
        best(s.push(x), k) == best(s, k),
{
    let key = key_of::<ClusterRankedHit>();
    let p = |y: ClusterRankedHit| y.key() < x.key();
    let t = stable_sort(s, key);
    lemma_stable_sort(s, key);
    lemma_filter_len_sort(s, key, p);
    assert(s.push(x).drop_last() =~= s);
    let j = lemma_place(t, x, key, t.len() as int);
    lemma_sorted_insert_at(t, x, key, j);
    lemma_filter_len_at_most(t, p, j);
    assert(j >= k);
    assert(best(s.push(x), k) =~= best(s, k));
}

proof fn lemma_place(
    s: Seq<ClusterRankedHit>,
    x: ClusterRankedHit,
    key: spec_fn(ClusterRankedHit) -> int,
    from: int,
) -> (j: int)
    requires
        0 <= from <= s.len(),
        forall|i: int| from <= i < s.len() ==> key(#[trigger] s[i]) > key(x),
    ensures
        0 <= j <= s.len(),
        forall|i: int| j <= i < s.len() ==> key(#[trigger] s[i]) > key(x),
        j > 0 ==> key(s[j - 1]) <= key(x),
    decreases from,
{
    if from == 0 || key(s[from - 1]) <= key(x) {
        from
    } else {
        lemma_place(s, x, key, from - 1)
    }
}

/// In strictly ascending order of rank.
spec fn rows_rising(rows: Seq<ClusterRankedHit>) -> bool {
    crate::order::strictly_ascending(rows, key_of::<ClusterRankedHit>())
}

/// Cutting one shard's ordered rows to `k` does not change the best `k`.
proof fn lemma_cut_rows(a: Seq<ClusterRankedHit>, rows: Seq<ClusterRankedHit>, k: nat)
    requires
        rows_rising(rows),
    ensures
        best(a + rows, k) == best(a + at_most(rows, k), k),
    decreases rows.len(),
{
    if rows.len() > k {
        let n = rows.len() - 1;
        let d = rows.drop_last();
        let x = rows.last();
        let p = |y: ClusterRankedHit| y.key() < x.key();
        let key = key_of::<ClusterRankedHit>();
        assert forall|i: int| 0 <= i < d.len() implies p(#[trigger] d[i]) by {
            assert(key(rows[i]) < key(rows[n]));
        }
        lemma_filter_len_at_least(a, d, p);
        lemma_beaten_row(a + d, x, k);
        assert((a + d).push(x) =~= a + rows);
        assert(rows_rising(d)) by {
            assert forall|i: int, j: int| 0 <= i < j < d.len() implies key(#[trigger] d[i]) < key(
                #[trigger] d[j],
            ) by {
                assert(key(rows[i]) < key(rows[j]));
            }
        }
        lemma_cut_rows(a, d, k);
        assert(at_most(d, k) =~= at_most(rows, k));
    }
}

/// The best rows depend on which rows there are, not on their order.
proof fn lemma_best_permuted(s: Seq<ClusterRankedHit>, t: Seq<ClusterRankedHit>, k: nat)
    requires
        s.to_multiset() == t.to_multiset(),
        injective_on(s, key_of::<ClusterRankedHit>()),
    ensures
        best(s, k) == best(t, k),
{
    let key = key_of::<ClusterRankedHit>();
    lemma_stable_sort(s, key);
    lemma_stable_sort(t, key);
    let a = stable_sort(s, key);
    let b = stable_sort(t, key);
    assert forall|x: ClusterRankedHit, y: ClusterRankedHit| #[trigger]
        a.contains(x) && #[trigger] a.contains(y) && key(x) == key(y) implies x == y by {
        assert(s.contains(x) && s.contains(y));
    }
    lemma_ascending_unique(a, b, key);
}

proof fn lemma_owned_rising(p: PartView)
    requires
        rows_ordered(p.hits),
    ensures
        rows_rising(owned(p)),
{
    let o = owned(p);
    let key = key_of::<ClusterRankedHit>();
    assert forall|i: int, j: int| 0 <= i < j < o.len() implies key(#[trigger] o[i]) < key(
        #[trigger] o[j],
    ) by {
        lemma_hits_rise(p.hits, i, j);
        lemma_hit_rank(
            p.hits[i].score,
            p.hits[i].logical_id,
            p.hits[j].score,
            p.hits[j].logical_id,
        );
    }
}

proof fn lemma_hits_rise(hits: Seq<RankedHit>, i: int, j: int)
    requires
        rows_ordered(hits),
        0 <= i < j < hits.len(),
    ensures
        hit_before(hits[i], hits[j]),
    decreases j - i,
{
    assert(hit_before(hits[j - 1], hits[j]));
    if i < j - 1 {
        lemma_hits_rise(hits, i, j - 1);
    }
}

proof fn lemma_injective_subset(s: Seq<ClusterRankedHit>, t: Seq<ClusterRankedHit>)
    requires
        injective_on(t, key_of::<ClusterRankedHit>()),
        forall|x: ClusterRankedHit| #[trigger] s.contains(x) ==> t.contains(x),
    ensures
        injective_on(s, key_of::<ClusterRankedHit>()),
{
    let key = key_of::<ClusterRankedHit>();
    assert forall|x: ClusterRankedHit, y: ClusterRankedHit| #[trigger]
        s.contains(x) && #[trigger] s.contains(y) && key(x) == key(y) implies x == y by {
        assert(t.contains(x) && t.contains(y));
    }
}

proof fn lemma_cut_all(b: Seq<ClusterRankedHit>, parts: Seq<PartView>, k: nat)
    requires
        injective_on(b + all_rows(parts), key_of::<ClusterRankedHit>()),
        forall|i: int| 0 <= i < parts.len() ==> rows_ordered((#[trigger] parts[i]).hits),
    ensures
        best(b + all_rows(parts), k) == best(b + all_rows(cut(parts, k)), k),
    decreases parts.len(),
{
    broadcast use vstd::seq_lib::group_to_multiset_ensures;

    if parts.len() > 0 {
        let d = parts.drop_last();
        let last = parts.last();
        let o = owned(last);
        let c = at_most(o, k);
        let r = all_rows(d);
        assert(rows_ordered(parts[parts.len() - 1].hits));
        lemma_owned_rising(last);
        assert(b + all_rows(parts) =~= (b + r) + o);
        lemma_cut_rows(b + r, o, k);
        let one = (b + r) + c;
        let two = (c + b) + r;
        assert(one.to_multiset() =~= two.to_multiset()) by {
            vstd::seq_lib::lemma_multiset_commutative(b + r, c);
            vstd::seq_lib::lemma_multiset_commutative(b, r);
            vstd::seq_lib::lemma_multiset_commutative(c + b, r);
            vstd::seq_lib::lemma_multiset_commutative(c, b);
        }
        assert forall|x: ClusterRankedHit| #[trigger] one.contains(x) implies (b + all_rows(
            parts,
        )).contains(x) by {
            let i = choose|i: int| 0 <= i < one.len() && one[i] == x;
            assert((b + all_rows(parts))[i] == x);
        }
        lemma_injective_subset(one, b + all_rows(parts));
        lemma_best_permuted(one, two, k);
        assert forall|x: ClusterRankedHit| #[trigger] two.contains(x) implies one.contains(x) by {
            assert(two.to_multiset().count(x) > 0);
            assert(one.to_multiset().count(x) > 0);
        }
        lemma_injective_subset(two, one);
        assert forall|i: int| 0 <= i < d.len() implies rows_ordered((#[trigger] d[i]).hits) by {
            assert(d[i] == parts[i]);
        }
        lemma_cut_all(c + b, d, k);
        let rc = all_rows(cut(d, k));
        let three = (c + b) + rc;
        let four = b + all_rows(cut(parts, k));
        assert(cut(parts, k).drop_last() =~= cut(d, k));
        assert(owned(cut(parts, k).last()) =~= c);
        assert(four =~= b + (rc + c));
        assert(three.to_multiset() =~= four.to_multiset()) by {
            vstd::seq_lib::lemma_multiset_commutative(c + b, rc);
            vstd::seq_lib::lemma_multiset_commutative(c, b);
            vstd::seq_lib::lemma_multiset_commutative(b, rc + c);
            vstd::seq_lib::lemma_multiset_commutative(rc, c);
        }
        assert forall|x: ClusterRankedHit| #[trigger] three.contains(x) implies two.contains(x) by {
            let i = choose|i: int| 0 <= i < three.len() && three[i] == x;
            if i < (c + b).len() {
                assert(two[i] == x);
            } else {
                assert(rc.contains(x)) by {
                    assert(rc[i - (c + b).len()] == x);
                }
                lemma_cut_members(d, k, x);
                let j = choose|j: int| 0 <= j < r.len() && r[j] == x;
                assert(two[(c + b).len() + j] == x);
            }
        }
        lemma_injective_subset(three, two);
        lemma_best_permuted(three, four, k);
    } else {
        assert(cut(parts, k) =~= parts);
    }
}

proof fn lemma_cut_members(parts: Seq<PartView>, k: nat, x: ClusterRankedHit)
    requires
        all_rows(cut(parts, k)).contains(x),
    ensures
        all_rows(parts).contains(x),
    decreases parts.len(),
{
    let cp = cut(parts, k);
    if parts.len() > 0 {
        assert(cp.drop_last() =~= cut(parts.drop_last(), k));
        let a = all_rows(cp.drop_last());
        let o = owned(cp.last());
        let i = choose|i: int| 0 <= i < all_rows(cp).len() && all_rows(cp)[i] == x;
        if i < a.len() {
            assert(a[i] == x);
            assert(a.contains(x));
            lemma_cut_members(parts.drop_last(), k, x);
            let r = all_rows(parts.drop_last());
            let j = choose|j: int| 0 <= j < r.len() && r[j] == x;
            assert(all_rows(parts)[j] == x);
        } else {
            assert(o[i - a.len()] == x);
            assert(owned(parts.last())[i - a.len()] == x);
            let r = all_rows(parts.drop_last());
            assert(all_rows(parts)[r.len() + (i - a.len())] == x);
        }
    }
}

/// Each shard's own best `K` are enough: merging them gives the same winners as merging every match
/// of every shard. It rests on each match having one owner and on each shard ordering its own.
pub proof fn law_local_bests_give_the_global_best(parts: Seq<PartView>, k: nat)
    requires
        first_repeat(row_ids(all_rows(parts))) is None,
        forall|i: int| 0 <= i < parts.len() ==> rows_ordered((#[trigger] parts[i]).hits),
    ensures
        best(all_rows(cut(parts, k)), k) == best(all_rows(parts), k),
{
    let none = Seq::<ClusterRankedHit>::empty();
    lemma_rows_injective(all_rows(parts));
    assert(none + all_rows(parts) =~= all_rows(parts));
    assert(none + all_rows(cut(parts, k)) =~= all_rows(cut(parts, k)));
    lemma_cut_all(none, parts, k);
}

/// The winners are no more than asked for, in order, and each is a row of some shard.
pub proof fn law_winners_are_ordered_rows(rows: Seq<ClusterRankedHit>, k: nat, x: ClusterRankedHit)
    ensures
        best(rows, k).len() <= k,
        ascending(best(rows, k), key_of::<ClusterRankedHit>()),
        best(rows, k).contains(x) ==> rows.contains(x),
        rows.len() <= k && rows.contains(x) ==> best(rows, k).contains(x),
{
    let key = key_of::<ClusterRankedHit>();
    lemma_stable_sort(rows, key);
    let t = stable_sort(rows, key);
    if best(rows, k).contains(x) {
        let i = choose|i: int| 0 <= i < best(rows, k).len() && best(rows, k)[i] == x;
        assert(t[i] == x);
        assert(t.contains(x));
    }
}

/// The order in which shards answer does not matter: the same rows give the same winners.
pub proof fn law_winners_ignore_reply_order(s: Seq<ClusterRankedHit>, t: Seq<ClusterRankedHit>, k: nat)
    requires
        s.to_multiset() == t.to_multiset(),
        first_repeat(row_ids(s)) is None,
    ensures
        best(s, k) == best(t, k),
{
    lemma_rows_injective(s);
    lemma_best_permuted(s, t, k);
}

/// Of rows without a repeated id, the winners are the best: there are as many as asked for, or all;
/// each comes before the winners behind it, and before every row that did not win. A higher score
/// comes first, and of equal scores the lower id.
pub proof fn law_the_best_rows_win(
    rows: Seq<ClusterRankedHit>,
    k: nat,
    i: int,
    j: int,
    x: ClusterRankedHit,
)
    requires
        first_repeat(row_ids(rows)) is None,
        0 <= i < best(rows, k).len(),
    ensures
        best(rows, k).len() == if rows.len() <= k {
            rows.len()
        } else {
            k
        },
        i < j < best(rows, k).len() ==> (best(rows, k)[i].score > best(rows, k)[j].score || (best(
            rows,
            k,
        )[i].score == best(rows, k)[j].score && best(rows, k)[i].logical_id < best(
            rows,
            k,
        )[j].logical_id)),
        rows.contains(x) && !best(rows, k).contains(x) ==> (best(rows, k)[i].score > x.score || (
        best(rows, k)[i].score == x.score && best(rows, k)[i].logical_id < x.logical_id)),
{
    let key = key_of::<ClusterRankedHit>();
    lemma_stable_sort(rows, key);
    let t = stable_sort(rows, key);
    let b = best(rows, k);
    lemma_rows_injective(rows);
    lemma_no_repeat(row_ids(rows));
    lemma_sorted_ids(rows);
    assert(b[i] == t[i]);
    if i < j < b.len() {
        assert(b[j] == t[j]);
        assert(key(t[i]) <= key(t[j]));
        assert(t[i].logical_id != t[j].logical_id);
        lemma_hit_rank(t[i].score, t[i].logical_id, t[j].score, t[j].logical_id);
    }
    if rows.contains(x) && !b.contains(x) {
        assert(t.contains(x));
        let m = choose|m: int| 0 <= m < t.len() && t[m] == x;
        if m < b.len() {
            assert(b[m] == x);
        }
        assert(key(t[i]) <= key(t[m]));
        assert(t[i].logical_id != t[m].logical_id);
        lemma_hit_rank(t[i].score, t[i].logical_id, x.score, x.logical_id);
    }
}

/// Sorted rows without a repeated id still have none.
proof fn lemma_sorted_ids(rows: Seq<ClusterRankedHit>)
    requires
        first_repeat(row_ids(rows)) is None,
    ensures
        forall|i: int, j: int|
            0 <= i < j < rows.len() ==> (#[trigger] stable_sort(
                rows,
                key_of::<ClusterRankedHit>(),
            )[i]).logical_id != (#[trigger] stable_sort(
                rows,
                key_of::<ClusterRankedHit>(),
            )[j]).logical_id,
{
    broadcast use vstd::seq_lib::group_to_multiset_ensures;

    let key = key_of::<ClusterRankedHit>();
    let t = stable_sort(rows, key);
    lemma_stable_sort(rows, key);
    lemma_no_repeat(row_ids(rows));
    assert(rows.no_duplicates()) by {
        assert forall|i: int, j: int| 0 <= i < j < rows.len() implies rows[i] != rows[j] by {
            assert(row_ids(rows)[i] != row_ids(rows)[j]);
        }
    }
    rows.lemma_multiset_has_no_duplicates();
    assert(t.no_duplicates()) by {
        assert(forall|x: ClusterRankedHit|
            t.to_multiset().contains(x) ==> t.to_multiset().count(x) == 1);
        t.lemma_multiset_has_no_duplicates_conv();
    }
    assert forall|i: int, j: int| 0 <= i < j < rows.len() implies (#[trigger] t[i]).logical_id != (
    #[trigger] t[j]).logical_id by {
        assert(t.contains(t[i]) && t.contains(t[j]));
        assert(rows.contains(t[i]) && rows.contains(t[j]));
        let a = choose|a: int| 0 <= a < rows.len() && rows[a] == t[i];
        let b = choose|b: int| 0 <= b < rows.len() && rows[b] == t[j];
        if a != b {
            assert(row_ids(rows)[a] != row_ids(rows)[b]);
        }
    }
}

/// Every row of every shard is merged, under the position that sent it, and nothing else is.
pub proof fn law_every_row_is_merged_with_its_owner(
    parts: Seq<PartView>,
    i: int,
    j: int,
    x: ClusterRankedHit,
)
    ensures
        0 <= i < parts.len() && 0 <= j < parts[i].hits.len() ==> exists|k: int|
            0 <= k < all_rows(parts).len() && {
                let r = #[trigger] all_rows(parts)[k];
                r.logical_id == parts[i].hits[j].logical_id && r.score == parts[i].hits[j].score
                    && r.owner_position == parts[i].position
            },
        all_rows(parts).contains(x) ==> exists|a: int, b: int|
            #![trigger parts[a].hits[b]]
            0 <= a < parts.len() && 0 <= b < parts[a].hits.len() && x.logical_id
                == parts[a].hits[b].logical_id && x.score == parts[a].hits[b].score
                && x.owner_position == parts[a].position,
        parts.len() > 0 ==> all_rows(parts).len() == all_rows(parts.drop_last()).len()
            + parts.last().hits.len(),
        all_rows(Seq::<PartView>::empty()).len() == 0,
    decreases parts.len(),
{
    if parts.len() > 0 {
        let d = parts.drop_last();
        let p = all_rows(d);
        let rows = all_rows(parts);
        let o = owned(parts.last());
        law_every_row_is_merged_with_its_owner(d, i, j, x);
        if 0 <= i < parts.len() && 0 <= j < parts[i].hits.len() {
            if i < d.len() {
                assert(d[i] == parts[i]);
                let k = choose|k: int|
                    0 <= k < p.len() && {
                        let r = #[trigger] p[k];
                        r.logical_id == parts[i].hits[j].logical_id && r.score
                            == parts[i].hits[j].score && r.owner_position == parts[i].position
                    };
                assert(rows[k] == p[k]);
            } else {
                assert(rows[p.len() + j] == o[j]);
            }
        }
        if rows.contains(x) {
            let k = choose|k: int| 0 <= k < rows.len() && rows[k] == x;
            if k < p.len() {
                assert(p[k] == x);
                assert(p.contains(x));
                let (a, b) = choose|a: int, b: int|
                    #![trigger d[a].hits[b]]
                    0 <= a < d.len() && 0 <= b < d[a].hits.len() && x.logical_id
                        == d[a].hits[b].logical_id && x.score == d[a].hits[b].score
                        && x.owner_position == d[a].position;
                assert(parts[a].hits[b] == d[a].hits[b]);
            } else {
                assert(o[k - p.len()] == x);
                assert(parts[parts.len() - 1].hits[k - p.len()] == parts.last().hits[k - p.len()]);
            }
        }
    }
}

/// A repeat is found exactly where some id occurs twice, and it is the one that repeats first.
pub proof fn law_the_first_repeat_is_found(ids: Seq<u64>)
    ensures
        first_repeat(ids) is None <==> forall|i: int, j: int|
            0 <= i < j < ids.len() ==> ids[i] != ids[j],
        first_repeat(ids) matches Some(x) ==> exists|j: int|
            #![trigger ids[j]]
            0 < j < ids.len() && ids[j] == x && ids.take(j).contains(x) && first_repeat(
                ids.take(j),
            ) is None,
    decreases ids.len(),
{
    if ids.len() > 0 {
        let d = ids.drop_last();
        law_the_first_repeat_is_found(d);
        let last = ids.len() - 1;
        assert(d =~= ids.take(last));
        if first_repeat(d) is Some {
            let x = first_repeat(d)->0;
            let j = choose|j: int|
                #![trigger d[j]]
                0 < j < d.len() && d[j] == x && d.take(j).contains(x) && first_repeat(
                    d.take(j),
                ) is None;
            assert(ids.take(j) =~= d.take(j));
            assert(ids[j] == x);
            let i = choose|i: int| 0 <= i < d.take(j).len() && d.take(j)[i] == x;
            assert(ids[i] == ids[j]);
        } else if d.contains(ids.last()) {
            let i = choose|i: int| 0 <= i < d.len() && d[i] == ids.last();
            assert(ids[i] == ids[last]);
            assert(ids.take(last).contains(ids[last]));
        } else {
            assert forall|i: int, j: int| 0 <= i < j < ids.len() implies ids[i] != ids[j] by {
                assert(d[i] == ids[i]);
                if j < last {
                    assert(d[j] == ids[j]);
                }
            }
        }
    }
}

/// The rows of one shard are accepted exactly where they are no more than were asked for and each
/// comes before the next: it has the higher score, or the same and the lower id. The error names
/// the position.
pub proof fn law_only_bounded_ordered_rows_are_accepted(
    position: usize,
    size: usize,
    hits: Seq<RankedHit>,
)
    ensures
        part_fault(position, size, hits) is None <==> hits.len() <= size && forall|i: int|
            0 < i < hits.len() ==> hits[i - 1].score > (#[trigger] hits[i]).score || (hits[i
                - 1].score == hits[i].score && hits[i - 1].logical_id < hits[i].logical_id),
        part_fault(position, size, hits) matches Some(e) ==> (
        e matches RankedErrorView::InvalidShardReply { position: p, .. } && p == position),
{
    if rows_ordered(hits) {
        assert forall|i: int| 0 < i < hits.len() implies hits[i - 1].score > (
        #[trigger] hits[i]).score || (hits[i - 1].score == hits[i].score && hits[i - 1].logical_id
            < hits[i].logical_id) by {
            assert(hit_before(hits[i - 1], hits[i]));
        }
    } else {
        let i = choose|i: int| 0 < i < hits.len() && !hit_before(hits[i - 1], #[trigger] hits[i]);
        assert(!hit_before(hits[i - 1], hits[i]));
    }
}

/// Replies are merged exactly where the rows of every shard are accepted and no two rows have the
/// same id.
pub proof fn law_only_sound_replies_are_merged(size: usize, parts: Seq<PartView>)
    ensures
        replies_fault(size, parts) is None <==> {
            &&& forall|p: int|
                0 <= p < parts.len() ==> part_fault(
                    (#[trigger] parts[p]).position as usize,
                    size,
                    parts[p].hits,
                ) is None
            &&& forall|i: int, j: int|
                0 <= i < j < all_rows(parts).len() ==> (#[trigger] all_rows(parts)[i]).logical_id != (
                #[trigger] all_rows(parts)[j]).logical_id
        },
    decreases parts.len(),
{
    let ids = row_ids(all_rows(parts));
    lemma_no_repeat(ids);
    if well_formed(size, parts) {
        lemma_replies_fault(size, parts);
        if first_repeat(ids) is None {
            assert forall|i: int, j: int| 0 <= i < j < all_rows(parts).len() implies (
            #[trigger] all_rows(parts)[i]).logical_id != (
            #[trigger] all_rows(parts)[j]).logical_id by {
                assert(ids[i] != ids[j]);
            }
        } else {
            let (i, j) = choose|i: int, j: int|
                0 <= i < ids.len() && 0 <= j < ids.len() && i != j && ids[i] == ids[j];
            assert(all_rows(parts)[i].logical_id == all_rows(parts)[j].logical_id);
        }
    } else {
        let p = choose|p: int|
            0 <= p < parts.len() && part_fault(
                (#[trigger] parts[p]).position as usize,
                size,
                parts[p].hits,
            ) is Some;
        let d = parts.drop_last();
        if p < d.len() {
            assert(d[p] == parts[p]);
            law_only_sound_replies_are_merged(size, d);
        }
    }
}

/// Each shard's total counts once; the merged total is their sum where every shard counted exactly
/// and the sum is within the threshold, and otherwise says that there are at least as many as the
/// threshold.
pub proof fn law_totals_add_up(parts: Seq<PartView>, p: PartView, threshold: u64)
    ensures
        counted(Seq::<PartView>::empty()) == (0nat, true),
        counted(parts.push(p)).0 == counted(parts).0 + p.total.value,
        counted(parts.push(p)).1 <==> counted(parts).1 && p.total.relation
            == TotalHitsRelation::Eq,
        merged_total(parts, threshold).relation == TotalHitsRelation::Eq <==> counted(parts).1
            && counted(parts).0 <= threshold,
        merged_total(parts, threshold).relation == TotalHitsRelation::Eq ==> merged_total(
            parts,
            threshold,
        ).value == counted(parts).0,
        merged_total(parts, threshold).relation == TotalHitsRelation::Gte ==> merged_total(
            parts,
            threshold,
        ).value == threshold,
{
    assert(parts.push(p).drop_last() =~= parts);
}

/// Each reply's counters count once, up to the largest value.
pub proof fn law_counters_add_up(replies: Seq<(u32, ShardRankedMatch)>, x: (u32, ShardRankedMatch))
    ensures
        replies_stats(Seq::<(u32, ShardRankedMatch)>::empty()) == (
            0u32,
            (RankStats { evaluations: 0, heap_replacements: 0 }),
            0u64,
        ),
        ({
            let (m, s, b) = replies_stats(replies);
            let (m2, s2, b2) = replies_stats(replies.push(x));
            &&& m + x.1.stats.matches <= u32::MAX ==> m2 == m + x.1.stats.matches
            &&& m + x.1.stats.matches > u32::MAX ==> m2 == u32::MAX
            &&& s.evaluations + x.1.rank_stats.evaluations <= u64::MAX ==> s2.evaluations
                == s.evaluations + x.1.rank_stats.evaluations
            &&& s.evaluations + x.1.rank_stats.evaluations > u64::MAX ==> s2.evaluations == u64::MAX
            &&& s.heap_replacements + x.1.rank_stats.heap_replacements <= u64::MAX
                ==> s2.heap_replacements == s.heap_replacements
                + x.1.rank_stats.heap_replacements
            &&& s.heap_replacements + x.1.rank_stats.heap_replacements > u64::MAX
                ==> s2.heap_replacements == u64::MAX
            &&& b + x.1.result_bytes <= u64::MAX ==> b2 == b + x.1.result_bytes
            &&& b + x.1.result_bytes > u64::MAX ==> b2 == u64::MAX
        }),
{
    assert(replies.push(x).drop_last() =~= replies);
}

/// A passed deadline and a refused request of a shard stay what they are; every other error of a
/// shard is passed on whole.
pub proof fn law_shard_errors_are_kept(e: ShardErrorView)
    ensures
        ranked_from_shard(e) is DeadlineExceeded <==> e is DeadlineExceeded,
        ranked_from_shard(e) is Admission <==> e is Admission,
        e matches ShardErrorView::Admission(x) ==> ranked_from_shard(e)
            == RankedErrorView::Admission(x),
        !(e is DeadlineExceeded) && !(e is Admission) ==> ranked_from_shard(e)
            == RankedErrorView::Shard(e),
{
}

/// A merged result says what came in: how many shards were asked, how many rows they sent, and what
/// their counters add up to; its hits and its total are those of the rows.
pub proof fn law_a_ranked_result_says_what_came_in(
    m: ClusterRankedMatch,
    options: TopKOptions,
    replies: Seq<(u32, ShardRankedMatch)>,
)
    requires
        ranked_of(m, options, replies),
    ensures
        m.routed_shards == replies.len(),
        m.shard_rows_received == all_rows(reply_parts(replies)).len(),
        m.stats.matches == replies_stats(replies).0,
        m.rank_stats == replies_stats(replies).1,
        m.shard_result_bytes == replies_stats(replies).2,
        m.hits@.len() <= options.size,
        m.hits@ == best(all_rows(reply_parts(replies)), options.size as nat),
        m.total_hits == merged_total(reply_parts(replies), options.track_total_hits_up_to),
        forall|i: int|
            0 <= i < replies.len() ==> (#[trigger] reply_parts(replies)[i]).position
                == replies[i].0 && reply_parts(replies)[i].hits == replies[i].1.hits@
                && reply_parts(replies)[i].total == replies[i].1.total_hits,
{
    lemma_stable_sort(all_rows(reply_parts(replies)), key_of::<ClusterRankedHit>());
}

} // verus!
