//! The best matches of many titles at once: one call per shard, one merge per title, and one byte
//! budget for all sources.
use crate::coordinator::ranked::{
    all_rows, best, first_repeat, merge_title_rows, merged_total, part_fault, part_views,
    ranked_from_shard, row_ids, validate_options, validate_part, ClusterRankedError,
    ClusterRankedHit, PartView, RankedErrorView, TitlePart,
};
use crate::coordinator::ranked_fetch::{check_placement, placement_drifted};
use crate::ownership::PlacementGeneration;
use crate::rank::{
    capped_sum32, capped_sum64, FetchedMatch, MatchStats, RankLimits, RankStats,
    ShardBatchRankedMatch, ShardTitleResult, TopKAdmissionError, TopKOptions, TotalHits,
};
use crate::shard::{ShardError, ShardErrorView};
use crate::text::{decimal, push_decimal, with_number};
use std::collections::HashMap;
use vstd::prelude::*;

verus! {

broadcast use vstd::std_specs::hash::group_hash_axioms;

/// The merged result of one title.
#[derive(Clone, Debug)]
pub struct ClusterRankedTitle {
    pub hits: Vec<ClusterRankedHit>,
    pub total_hits: TotalHits,
    /// How many positions this title was sent to.
    pub routed_shards: usize,
}

/// The merged result of a batch.
#[derive(Clone, Debug)]
pub struct ClusterBatchRankedMatch {
    /// One result per title, in the order of the request.
    pub titles: Vec<ClusterRankedTitle>,
    pub stats: MatchStats,
    pub rank_stats: RankStats,
    pub fanned_shard_calls: usize,
    pub shard_rows_received: usize,
    pub shard_result_bytes: u64,
    pub placement_generation: PlacementGeneration,
    pub num_shards: u32,
}

/// `a * b`, but not beyond the largest value.
pub open spec fn capped_product(a: nat, b: nat) -> nat {
    if a * b > u64::MAX {
        u64::MAX as nat
    } else {
        a * b
    }
}

/// What is wrong with the size of a batch, if anything.
pub open spec fn batch_refusal(options: TopKOptions, titles: usize, limits: RankLimits) -> Option<
    TopKAdmissionError,
> {
    if options.size > limits.max_top_k {
        Some(
            TopKAdmissionError::SizeTooLarge { requested: options.size, max: limits.max_top_k },
        )
    } else if options.track_total_hits_up_to > limits.max_track_total_hits {
        Some(
            TopKAdmissionError::TotalHitsThresholdTooLarge {
                requested: options.track_total_hits_up_to,
                max: limits.max_track_total_hits,
            },
        )
    } else if titles > limits.max_batch_titles {
        Some(
            TopKAdmissionError::BatchTitlesTooLarge {
                requested: titles,
                max: limits.max_batch_titles,
            },
        )
    } else if capped_product(options.size as nat, titles as nat) > limits.max_batch_rows {
        Some(
            TopKAdmissionError::BatchHeapBudgetExceeded {
                requested_rows: capped_product(options.size as nat, titles as nat) as u64,
                max: limits.max_batch_rows,
            },
        )
    } else {
        None
    }
}

/// Refuses a batch that asks for too much.
pub fn validate_batch(options: TopKOptions, titles: usize, limits: RankLimits) -> (r: Result<
    (),
    TopKAdmissionError,
>)
    ensures
        match batch_refusal(options, titles, limits) {
            Some(e) => r == Err::<(), TopKAdmissionError>(e),
            None => r is Ok,
        },
{
    match validate_options(options, limits) {
        Ok(_) => {},
        Err(e) => {
            return Err(e);
        },
    }
    if titles > limits.max_batch_titles {
        return Err(
            TopKAdmissionError::BatchTitlesTooLarge {
                requested: titles,
                max: limits.max_batch_titles,
            },
        );
    }
    let product: u128 = mul_wide(options.size, titles);
    let rows: u64 = if product > u64::MAX as u128 {
        u64::MAX
    } else {
        product as u64
    };
    if rows > limits.max_batch_rows {
        return Err(
            TopKAdmissionError::BatchHeapBudgetExceeded {
                requested_rows: rows,
                max: limits.max_batch_rows,
            },
        );
    }
    Ok(())
}

fn mul_wide(a: usize, b: usize) -> (r: u128)
    ensures
        r == a * b,
{
    assert(a * b <= u128::MAX) by (nonlinear_arith)
        requires
            0 <= a <= u64::MAX,
            0 <= b <= u64::MAX,
    ;
    a as u128 * b as u128
}

/// Where one title goes.
#[derive(Clone, Debug)]
pub struct TitleRoute {
    pub targets: Vec<u32>,
    /// The position that evaluates the broad lane for it, if the request includes it.
    pub broad: Option<u32>,
}

/// Where one title goes, as a mathematical value.
pub ghost struct RouteView {
    pub targets: Seq<u32>,
    pub broad: Option<u32>,
}

/// The routes as mathematical values.
pub open spec fn route_views(v: Seq<TitleRoute>) -> Seq<RouteView> {
    v.map_values(|r: TitleRoute| RouteView { targets: r.targets@, broad: r.broad })
}

/// One call: the position, the titles it is asked for, and whether it evaluates the broad lane.
#[derive(Clone, Debug)]
pub struct ShardCall {
    pub position: u32,
    pub titles: Vec<usize>,
    pub broad: bool,
}

/// One call, as a mathematical value.
pub ghost struct CallView {
    pub position: u32,
    pub titles: Seq<usize>,
    pub broad: bool,
}

/// The calls as mathematical values.
pub open spec fn call_views(v: Seq<ShardCall>) -> Seq<CallView> {
    v.map_values(
        |c: ShardCall| CallView { position: c.position, titles: c.titles@, broad: c.broad },
    )
}

/// The titles that are sent to a position, in order.
pub open spec fn titles_for(routes: Seq<RouteView>, position: u32) -> Seq<usize>
    decreases routes.len(),
{
    if routes.len() == 0 {
        Seq::empty()
    } else {
        let t = titles_for(routes.drop_last(), position);
        if routes.last().targets.contains(position) {
            t.push((routes.len() - 1) as usize)
        } else {
            t
        }
    }
}

/// A title that is sent to the position chose it for the broad lane.
pub open spec fn evaluates_broad(routes: Seq<RouteView>, position: u32) -> bool {
    exists|k: int|
        0 <= k < titles_for(routes, position).len() && routes[(#[trigger] titles_for(
            routes,
            position,
        )[k]) as int].broad == Some(position)
}

/// The calls to the first `n` positions: one to each that some title is sent to.
pub open spec fn calls_for(routes: Seq<RouteView>, n: nat) -> Seq<CallView>
    decreases n,
{
    if n == 0 {
        Seq::empty()
    } else {
        let c = calls_for(routes, (n - 1) as nat);
        let p = (n - 1) as u32;
        let t = titles_for(routes, p);
        if t.len() == 0 {
            c
        } else {
            c.push(CallView { position: p, titles: t, broad: evaluates_broad(routes, p) })
        }
    }
}

fn has_position(v: &Vec<u32>, p: u32) -> (r: bool)
    ensures
        r == v@.contains(p),
{
    let n: usize = v.len();
    let mut i: usize = 0;
    while i < n
        invariant
            n == v@.len(),
            i <= n,
            forall|k: int| 0 <= k < i ==> v@[k] != p,
        decreases n - i,
    {
        if v[i] == p {
            assert(v@[i as int] == p);
            return true;
        }
        i = i + 1;
    }
    false
}

/// Plans one call per position that a title of the batch is sent to.
pub fn plan_calls(routes: &Vec<TitleRoute>, num_shards: u32) -> (r: Vec<ShardCall>)
    ensures
        call_views(r@) == calls_for(route_views(routes@), num_shards as nat),
{
    let ghost rv = route_views(routes@);
    let n: usize = routes.len();
    let mut out: Vec<ShardCall> = Vec::new();
    let mut p: u32 = 0;
    assert(call_views(out@) =~= calls_for(rv, 0));
    while p < num_shards
        invariant
            p <= num_shards,
            n == routes@.len(),
            rv == route_views(routes@),
            call_views(out@) == calls_for(rv, p as nat),
        decreases num_shards - p,
    {
        let mut titles: Vec<usize> = Vec::new();
        let mut i: usize = 0;
        assert(rv.take(0).len() == 0);
        assert(titles@ =~= titles_for(rv.take(0), p));
        while i < n
            invariant
                n == routes@.len(),
                rv == route_views(routes@),
                i <= n,
                titles@ == titles_for(rv.take(i as int), p),
            decreases n - i,
        {
            proof {
                assert(rv.take(i + 1).drop_last() =~= rv.take(i as int));
                assert(rv[i as int].targets == routes@[i as int].targets@);
            }
            if has_position(&routes[i].targets, p) {
                titles.push(i);
            }
            i = i + 1;
        }
        assert(rv.take(n as int) =~= rv);
        let m: usize = titles.len();
        let mut broad: bool = false;
        let mut k: usize = 0;
        proof {
            lemma_titles_for(rv, p);
        }
        while k < m
            invariant
                m == titles@.len(),
                titles@ == titles_for(rv, p),
                rv == route_views(routes@),
                forall|q: int|
                    0 <= q < titles_for(rv, p).len() ==> (#[trigger] titles_for(rv, p)[q])
                        < rv.len(),
                k <= m,
                broad == exists|q: int|
                    0 <= q < k && rv[(#[trigger] titles_for(rv, p)[q]) as int].broad == Some(p),
            decreases m - k,
        {
            let t: usize = titles[k];
            assert(titles_for(rv, p)[k as int] == t);
            assert(rv[t as int].broad == routes@[t as int].broad);
            let chose: bool = match routes[t].broad {
                Some(b) => b == p,
                None => false,
            };
            proof {
                if chose {
                    assert(rv[titles_for(rv, p)[k as int] as int].broad == Some(p));
                }
            }
            broad = broad || chose;
            k = k + 1;
        }
        if m > 0 {
            let ghost before = out@;
            let ghost tv = titles@;
            out.push(ShardCall { position: p, titles, broad });
            proof {
                assert(broad == evaluates_broad(rv, p));
                assert(call_views(out@) =~= call_views(before).push(
                    CallView { position: p, titles: tv, broad },
                ));
            }
        }
        p = p + 1;
    }
    out
}

proof fn lemma_titles_for(routes: Seq<RouteView>, position: u32)
    ensures
        routes.len() <= usize::MAX ==> forall|q: int|
            0 <= q < titles_for(routes, position).len() ==> {
                let t = #[trigger] titles_for(routes, position)[q];
                t < routes.len() && routes[t as int].targets.contains(position)
            },
    decreases routes.len(),
{
    if routes.len() > 0 {
        let d = routes.drop_last();
        lemma_titles_for(d, position);
        let a = titles_for(d, position);
        let b = titles_for(routes, position);
        if routes.len() <= usize::MAX {
            assert forall|q: int| 0 <= q < b.len() implies {
                let t = #[trigger] b[q];
                t < routes.len() && routes[t as int].targets.contains(position)
            } by {
                if q < a.len() {
                    assert(b[q] == a[q]);
                    assert(d[a[q] as int] == routes[a[q] as int]);
                }
            }
        }
    }
}

// ---- merging ----

/// What is wrong with the rows of one reply at or behind `from`, if anything.
pub open spec fn title_fault(
    call: CallView,
    size: usize,
    titles: Seq<ShardTitleResult>,
    from: nat,
) -> Option<RankedErrorView>
    decreases titles.len() - from,
{
    if from >= titles.len() {
        None
    } else {
        match part_fault(call.position as usize, size, titles[from as int].hits@) {
            Some(e) => Some(e),
            None => title_fault(call, size, titles, from + 1),
        }
    }
}

/// What is wrong with one reply, if anything: it has the wrong number of titles, or the rows of one
/// are malformed.
pub open spec fn batch_reply_fault(
    call: CallView,
    size: usize,
    reply: ShardBatchRankedMatch,
) -> Option<RankedErrorView> {
    if reply.titles@.len() != call.titles.len() {
        Some(
            RankedErrorView::InvalidShardReply {
                position: call.position as usize,
                detail: "batch reply carried "@ + decimal(reply.titles@.len())
                    + " title results for "@ + decimal(call.titles.len()) + " requested titles"@,
            },
        )
    } else {
        title_fault(call, size, reply.titles@, 0)
    }
}

/// The first fault among the replies, in the order of the calls.
pub open spec fn batch_fault(
    calls: Seq<CallView>,
    size: usize,
    replies: Seq<ShardBatchRankedMatch>,
) -> Option<RankedErrorView>
    decreases calls.len(),
{
    if calls.len() == 0 {
        None
    } else {
        match batch_fault(calls.drop_last(), size, replies.drop_last()) {
            Some(e) => Some(e),
            None => batch_reply_fault(calls.last(), size, replies.last()),
        }
    }
}

/// What the reply to one call adds to the parts of the title at `t`: one part for each time the
/// call asked for it.
pub open spec fn call_parts(call: CallView, titles: Seq<ShardTitleResult>, n: nat, t: int) -> Seq<
    PartView,
>
    decreases n,
{
    if n == 0 {
        Seq::empty()
    } else {
        let p = call_parts(call, titles, (n - 1) as nat, t);
        if call.titles[n - 1] == t {
            p.push(
                PartView {
                    position: call.position,
                    hits: titles[n - 1].hits@,
                    total: titles[n - 1].total_hits,
                },
            )
        } else {
            p
        }
    }
}

/// The parts of the title at `t`, call by call.
pub open spec fn title_parts(
    calls: Seq<CallView>,
    replies: Seq<ShardBatchRankedMatch>,
    t: int,
) -> Seq<PartView>
    decreases calls.len(),
{
    if calls.len() == 0 {
        Seq::empty()
    } else {
        title_parts(calls.drop_last(), replies.drop_last(), t) + call_parts(
            calls.last(),
            replies.last().titles@,
            calls.last().titles.len(),
            t,
        )
    }
}

/// The first id that two shards answered for one title, in title order.
pub open spec fn batch_repeat(
    calls: Seq<CallView>,
    replies: Seq<ShardBatchRankedMatch>,
    n: nat,
) -> Option<u64>
    decreases n,
{
    if n == 0 {
        None
    } else {
        match batch_repeat(calls, replies, (n - 1) as nat) {
            Some(x) => Some(x),
            None => first_repeat(row_ids(all_rows(title_parts(calls, replies, n - 1)))),
        }
    }
}

/// The rows of the first `n` titles.
pub open spec fn batch_rows(calls: Seq<CallView>, replies: Seq<ShardBatchRankedMatch>, n: nat) -> nat
    decreases n,
{
    if n == 0 {
        0
    } else {
        batch_rows(calls, replies, (n - 1) as nat) + all_rows(
            title_parts(calls, replies, n - 1),
        ).len()
    }
}

/// The ranking counters of the titles of one reply, on top of `start`.
pub open spec fn titles_rank_stats(start: RankStats, titles: Seq<ShardTitleResult>) -> RankStats
    decreases titles.len(),
{
    if titles.len() == 0 {
        start
    } else {
        let s = titles_rank_stats(start, titles.drop_last());
        let t = titles.last().rank_stats;
        RankStats {
            evaluations: capped_sum64(s.evaluations, t.evaluations),
            heap_replacements: capped_sum64(s.heap_replacements, t.heap_replacements),
        }
    }
}

/// The counters of the replies, added up.
pub open spec fn batch_stats(replies: Seq<ShardBatchRankedMatch>) -> (u32, RankStats, u64)
    decreases replies.len(),
{
    if replies.len() == 0 {
        (0, RankStats { evaluations: 0, heap_replacements: 0 }, 0)
    } else {
        let (m, s, b) = batch_stats(replies.drop_last());
        let r = replies.last();
        (
            capped_sum32(m, r.stats.matches),
            titles_rank_stats(s, r.titles@),
            capped_sum64(b, r.result_bytes),
        )
    }
}

/// The calls ask only for titles that there are.
pub open spec fn calls_in_range(calls: Seq<CallView>, n: nat) -> bool {
    forall|c: int, k: int|
        0 <= c < calls.len() && 0 <= k < (#[trigger] calls[c]).titles.len() ==> (#[trigger] calls[c].titles[k])
            < n
}

/// The parts of every title as mathematical values.
pub open spec fn grouped_views(v: Seq<Vec<TitlePart>>) -> Seq<Seq<PartView>> {
    v.map_values(|p: Vec<TitlePart>| part_views(p@))
}

proof fn lemma_batch_fault_prefix(
    calls: Seq<CallView>,
    size: usize,
    replies: Seq<ShardBatchRankedMatch>,
    n: int,
)
    requires
        calls.len() == replies.len(),
        0 <= n <= calls.len(),
        batch_fault(calls.take(n), size, replies.take(n)) is Some,
    ensures
        batch_fault(calls, size, replies) == batch_fault(calls.take(n), size, replies.take(n)),
    decreases calls.len() - n,
{
    if n < calls.len() {
        assert(calls.take(n + 1).drop_last() =~= calls.take(n));
        assert(replies.take(n + 1).drop_last() =~= replies.take(n));
        lemma_batch_fault_prefix(calls, size, replies, n + 1);
    } else {
        assert(calls.take(n) =~= calls);
        assert(replies.take(n) =~= replies);
    }
}

proof fn lemma_batch_repeat_first(
    calls: Seq<CallView>,
    replies: Seq<ShardBatchRankedMatch>,
    n: nat,
    m: nat,
)
    requires
        n <= m,
        batch_repeat(calls, replies, n) is Some,
    ensures
        batch_repeat(calls, replies, m) == batch_repeat(calls, replies, n),
    decreases m,
{
    if n < m {
        lemma_batch_repeat_first(calls, replies, n, (m - 1) as nat);
    }
}

proof fn lemma_batch_rows_grow(
    calls: Seq<CallView>,
    replies: Seq<ShardBatchRankedMatch>,
    n: nat,
    m: nat,
)
    requires
        n <= m,
    ensures
        batch_rows(calls, replies, n) <= batch_rows(calls, replies, m),
    decreases m,
{
    if n < m {
        lemma_batch_rows_grow(calls, replies, n, (m - 1) as nat);
    }
}

/// Checks one reply and adds its rows to the parts of the titles it was asked for.
fn gather_reply(
    call: &ShardCall,
    size: usize,
    reply: ShardBatchRankedMatch,
    parts: &mut Vec<Vec<TitlePart>>,
    rank_stats: &mut RankStats,
) -> (r: Result<(), ClusterRankedError>)
    requires
        forall|k: int| 0 <= k < call.titles@.len() ==> (#[trigger] call.titles@[k]) < old(parts)@.len(),
    ensures
        ({
            let c = CallView { position: call.position, titles: call.titles@, broad: call.broad };
            match batch_reply_fault(c, size, reply) {
                Some(e) => r matches Err(x) && x@ == e,
                None => r is Ok && final(parts)@.len() == old(parts)@.len() && *final(rank_stats)
                    == titles_rank_stats(*old(rank_stats), reply.titles@) && forall|t: int|
                    0 <= t < old(parts)@.len() ==> #[trigger] grouped_views(final(parts)@)[t]
                        == grouped_views(old(parts)@)[t] + call_parts(
                        c,
                        reply.titles@,
                        c.titles.len(),
                        t,
                    ),
            }
        }),
{
    let ghost c = CallView { position: call.position, titles: call.titles@, broad: call.broad };
    let ghost all = reply.titles@;
    let n: usize = call.titles.len();
    if reply.titles.len() != n {
        let mut m = with_number(
            "batch reply carried ",
            reply.titles.len() as u64,
            " title results for ",
        );
        push_decimal(&mut m, n as u64);
        m.append(" requested titles");
        return Err(
            ClusterRankedError::InvalidShardReply { position: call.position as usize, detail: m },
        );
    }
    let ghost start = grouped_views(parts@);
    let ghost stats0 = *rank_stats;
    let mut i: usize = 0;
    proof {
        assert(all.take(0).len() == 0);
        assert forall|t: int| 0 <= t < start.len() implies #[trigger] grouped_views(parts@)[t]
            == start[t] + call_parts(c, all, 0, t) by {
            assert(start[t] + call_parts(c, all, 0, t) =~= start[t]);
        }
    }
    for x in it: reply.titles.into_iter()
        invariant
            it.seq() == all,
            i == it.index(),
            all == reply.titles@,
            n == all.len(),
            n == call.titles@.len(),
            c == (CallView { position: call.position, titles: call.titles@, broad: call.broad }),
            parts@.len() == start.len(),
            forall|k: int| 0 <= k < call.titles@.len() ==> (#[trigger] call.titles@[k]) < start.len(),
            title_fault(c, size, all, 0) == title_fault(c, size, all, i as nat),
            *rank_stats == titles_rank_stats(stats0, all.take(i as int)),
            forall|t: int|
                0 <= t < start.len() ==> #[trigger] grouped_views(parts@)[t] == start[t]
                    + call_parts(c, all, i as nat, t),
    {
        match validate_part(call.position as usize, size, &x.hits) {
            Ok(_) => {},
            Err(e) => {
                return Err(e);
            },
        }
        rank_stats.merge(x.rank_stats);
        let at: usize = call.titles[i];
        let ghost before = parts@;
        let ghost part = PartView { position: call.position, hits: x.hits@, total: x.total_hits };
        proof {
            assert(all.take(i + 1).drop_last() =~= all.take(i as int));
            assert(c.titles[i as int] == at);
        }
        parts[at].push(
            TitlePart { position: call.position, hits: x.hits, total: x.total_hits },
        );
        proof {
            assert(part_views(parts@[at as int]@) =~= part_views(before[at as int]@).push(part));
            assert forall|t: int| 0 <= t < start.len() implies #[trigger] grouped_views(parts@)[t]
                == start[t] + call_parts(c, all, (i + 1) as nat, t) by {
                assert(grouped_views(before)[t] == start[t] + call_parts(c, all, i as nat, t));
                if t == at {
                    assert(grouped_views(parts@)[t] =~= start[t] + call_parts(
                        c,
                        all,
                        (i + 1) as nat,
                        t,
                    ));
                } else {
                    assert(parts@[t] == before[t]);
                }
            }
        }
        i = i + 1;
    }
    assert(all.take(n as int) =~= all);
    Ok(())
}

/// `m` is what the replies to a batch give.
pub open spec fn batch_of(
    m: ClusterBatchRankedMatch,
    options: TopKOptions,
    routed: Seq<usize>,
    calls: Seq<CallView>,
    replies: Seq<ShardBatchRankedMatch>,
) -> bool {
    &&& m.titles@.len() == routed.len()
    &&& forall|t: int|
        0 <= t < routed.len() ==> {
            let x = #[trigger] m.titles@[t];
            let parts = title_parts(calls, replies, t);
            &&& x.hits@ == best(all_rows(parts), options.size as nat)
            &&& x.total_hits == merged_total(parts, options.track_total_hits_up_to)
            &&& x.routed_shards == routed[t]
        }
    &&& (m.stats.matches, m.rank_stats, m.shard_result_bytes) == batch_stats(replies)
    &&& m.fanned_shard_calls == calls.len()
    &&& m.shard_rows_received == batch_rows(calls, replies, routed.len())
}

/// Merges the replies of a batch: every title's winners and total are what a request for that title
/// alone would give.
pub fn merge_batch(
    options: TopKOptions,
    routed: &Vec<usize>,
    calls: &Vec<ShardCall>,
    replies: Vec<ShardBatchRankedMatch>,
    generation: PlacementGeneration,
    num_shards: u32,
) -> (r: Result<ClusterBatchRankedMatch, ClusterRankedError>)
    requires
        calls@.len() == replies@.len(),
        calls_in_range(call_views(calls@), routed@.len()),
        batch_rows(call_views(calls@), replies@, routed@.len()) <= usize::MAX,
    ensures
        ({
            let cv = call_views(calls@);
            let n = routed@.len();
            match batch_fault(cv, options.size, replies@) {
                Some(e) => r matches Err(x) && x@ == e,
                None => match batch_repeat(cv, replies@, n) {
                    Some(id) => r matches Err(x) && x@ == RankedErrorView::DuplicateLogicalId(id),
                    None => r matches Ok(m) && batch_of(m, options, routed@, cv, replies@)
                        && m.placement_generation == generation && m.num_shards == num_shards,
                },
            }
        }),
{
    let ghost cv = call_views(calls@);
    let ghost all = replies@;
    let n: usize = routed.len();
    let mut parts: Vec<Vec<TitlePart>> = Vec::new();
    let mut i: usize = 0;
    while i < n
        invariant
            n == routed@.len(),
            i <= n,
            parts@.len() == i,
            forall|t: int| 0 <= t < i ==> (#[trigger] parts@[t])@.len() == 0,
        decreases n - i,
    {
        parts.push(Vec::new());
        i = i + 1;
    }
    let mut stats = MatchStats::zero();
    let mut rank_stats = RankStats::zero();
    let mut bytes: u64 = 0;
    let count: usize = calls.len();
    let mut c: usize = 0;
    proof {
        assert(cv.take(0).len() == 0);
        assert(all.take(0).len() == 0);
        assert forall|t: int| 0 <= t < n implies #[trigger] grouped_views(parts@)[t]
            == title_parts(cv.take(0), all.take(0), t) by {
            assert(parts@[t]@.len() == 0);
            assert(grouped_views(parts@)[t] =~= Seq::empty());
        }
    }
    for reply in it: replies.into_iter()
        invariant
            it.seq() == all,
            all == replies@,
            c == it.index(),
            count == calls@.len(),
            calls@.len() == all.len(),
            n == routed@.len(),
            cv == call_views(calls@),
            calls_in_range(cv, n as nat),
            parts@.len() == n,
            batch_fault(cv.take(c as int), options.size, all.take(c as int)) is None,
            (stats.matches, rank_stats, bytes) == batch_stats(all.take(c as int)),
            forall|t: int|
                0 <= t < n ==> #[trigger] grouped_views(parts@)[t] == title_parts(
                    cv.take(c as int),
                    all.take(c as int),
                    t,
                ),
    {
        let call = &calls[c];
        proof {
            assert(cv.take(c + 1).drop_last() =~= cv.take(c as int));
            assert(all.take(c + 1).drop_last() =~= all.take(c as int));
            assert(cv[c as int] == (CallView {
                position: call.position,
                titles: call.titles@,
                broad: call.broad,
            }));
            assert forall|k: int| 0 <= k < call.titles@.len() implies (#[trigger] call.titles@[k])
                < n by {
                assert(cv[c as int].titles[k] < n);
            }
        }
        let part_stats = reply.stats;
        let part_bytes: u64 = reply.result_bytes;
        let ghost before = parts@;
        match gather_reply(call, options.size, reply, &mut parts, &mut rank_stats) {
            Ok(_) => {},
            Err(e) => {
                proof {
                    lemma_batch_fault_prefix(cv, options.size, all, c + 1);
                }
                return Err(e);
            },
        }
        stats.merge(part_stats);
        bytes = bytes.saturating_add(part_bytes);
        c = c + 1;
    }
    proof {
        assert(cv.take(count as int) =~= cv);
        assert(all.take(count as int) =~= all);
    }
    let mut titles: Vec<ClusterRankedTitle> = Vec::new();
    let mut received: usize = 0;
    let mut t: usize = 0;
    while t < n
        invariant
            n == routed@.len(),
            t <= n,
            cv == call_views(calls@),
            all == replies@,
            parts@.len() == n,
            batch_fault(cv, options.size, all) is None,
            batch_repeat(cv, all, t as nat) is None,
            batch_rows(cv, all, n as nat) <= usize::MAX,
            received == batch_rows(cv, all, t as nat),
            forall|k: int| 0 <= k < n ==> #[trigger] grouped_views(parts@)[k] == title_parts(cv, all, k),
            titles@.len() == t,
            forall|k: int|
                0 <= k < t ==> {
                    let x = #[trigger] titles@[k];
                    let p = title_parts(cv, all, k);
                    &&& x.hits@ == best(all_rows(p), options.size as nat)
                    &&& x.total_hits == merged_total(p, options.track_total_hits_up_to)
                    &&& x.routed_shards == routed@[k]
                },
        decreases n - t,
    {
        proof {
            assert(grouped_views(parts@)[t as int] == part_views(parts@[t as int]@));
            lemma_batch_rows_grow(cv, all, (t + 1) as nat, n as nat);
        }
        match merge_title_rows(options.size, options.track_total_hits_up_to, &parts[t]) {
            Ok((hits, total_hits, rows)) => {
                received = received + rows;
                titles.push(ClusterRankedTitle { hits, total_hits, routed_shards: routed[t] });
            },
            Err(e) => {
                proof {
                    lemma_batch_repeat_first(cv, all, (t + 1) as nat, n as nat);
                }
                return Err(e);
            },
        }
        t = t + 1;
    }
    Ok(
        ClusterBatchRankedMatch {
            titles,
            stats,
            rank_stats,
            fanned_shard_calls: count,
            shard_rows_received: received,
            shard_result_bytes: bytes,
            placement_generation: generation,
            num_shards,
        },
    )
}

// ---- fetching under one budget ----

/// The distinct winners that one position is asked for.
#[derive(Clone, Debug)]
pub struct BatchFetchGroup {
    pub position: usize,
    pub ids: Vec<u64>,
}

/// The winners that one position is asked for, as a mathematical value.
pub ghost struct BatchFetchView {
    pub position: usize,
    pub ids: Seq<u64>,
}

/// The groups as mathematical values.
pub open spec fn batch_fetch_views(v: Seq<BatchFetchGroup>) -> Seq<BatchFetchView> {
    v.map_values(|g: BatchFetchGroup| BatchFetchView { position: g.position, ids: g.ids@ })
}

/// The winners of all titles, one title after the other.
pub open spec fn all_winners(titles: Seq<ClusterRankedTitle>) -> Seq<ClusterRankedHit>
    decreases titles.len(),
{
    if titles.len() == 0 {
        Seq::empty()
    } else {
        all_winners(titles.drop_last()) + titles.last().hits@
    }
}

/// The winners that a position is asked for: those whose first mention names it as the owner.
pub open spec fn first_owned(hits: Seq<ClusterRankedHit>, position: nat) -> Seq<u64>
    decreases hits.len(),
{
    if hits.len() == 0 {
        Seq::empty()
    } else {
        let d = hits.drop_last();
        let r = first_owned(d, position);
        if hits.last().owner_position == position && !row_ids(d).contains(hits.last().logical_id) {
            r.push(hits.last().logical_id)
        } else {
            r
        }
    }
}

/// The groups of the first `n` positions.
pub open spec fn batch_fetch_groups(hits: Seq<ClusterRankedHit>, n: nat) -> Seq<BatchFetchView>
    decreases n,
{
    if n == 0 {
        Seq::empty()
    } else {
        let g = batch_fetch_groups(hits, (n - 1) as nat);
        let ids = first_owned(hits, (n - 1) as nat);
        if ids.len() == 0 {
            g
        } else {
            g.push(BatchFetchView { position: (n - 1) as usize, ids })
        }
    }
}

/// The first winner that names an owner out of range.
pub open spec fn stray_owner(hits: Seq<ClusterRankedHit>, num_shards: u32) -> Option<ClusterRankedHit> {
    crate::seqs::find(hits, |h: ClusterRankedHit| h.owner_position >= num_shards)
}

fn gather_winners(titles: &Vec<ClusterRankedTitle>) -> (r: Vec<ClusterRankedHit>)
    requires
        all_winners(titles@).len() <= usize::MAX,
    ensures
        r@ == all_winners(titles@),
{
    let n: usize = titles.len();
    let mut r: Vec<ClusterRankedHit> = Vec::new();
    let mut t: usize = 0;
    assert(titles@.take(0).len() == 0);
    while t < n
        invariant
            n == titles@.len(),
            t <= n,
            r@ == all_winners(titles@.take(t as int)),
        decreases n - t,
    {
        let ghost before = r@;
        let ghost mine = titles@[t as int].hits@;
        let m: usize = titles[t].hits.len();
        let mut j: usize = 0;
        proof {
            assert(titles@.take(t + 1).drop_last() =~= titles@.take(t as int));
            assert(r@ =~= before + mine.take(0));
        }
        while j < m
            invariant
                t < titles@.len(),
                mine == titles@[t as int].hits@,
                m == mine.len(),
                j <= m,
                r@ == before + mine.take(j as int),
            decreases m - j,
        {
            r.push(titles[t].hits[j]);
            assert(r@ =~= before + mine.take(j + 1));
            j = j + 1;
        }
        assert(mine.take(m as int) =~= mine);
        t = t + 1;
    }
    assert(titles@.take(n as int) =~= titles@);
    r
}

/// Plans which position is asked for which winners of a batch; each id is fetched once.
pub fn plan_batch_fetch(
    ranked: &ClusterBatchRankedMatch,
    generation: PlacementGeneration,
    num_shards: u32,
) -> (r: Result<Vec<BatchFetchGroup>, ClusterRankedError>)
    requires
        all_winners(ranked.titles@).len() <= usize::MAX,
    ensures
        if placement_drifted(
            ranked.placement_generation,
            ranked.num_shards,
            generation,
            num_shards,
        ) {
            r matches Err(e) && e@ == (RankedErrorView::InvalidShardReply {
                position: 0,
                detail: "placement generation or shard count changed between collect and fetch"@,
            })
        } else {
            match stray_owner(all_winners(ranked.titles@), num_shards) {
                Some(h) => r matches Err(e) && e@ == (RankedErrorView::InvalidShardReply {
                    position: h.owner_position as usize,
                    detail: "winner names an out-of-range owner"@,
                }),
                None => r matches Ok(g) && batch_fetch_views(g@) == batch_fetch_groups(
                    all_winners(ranked.titles@),
                    num_shards as nat,
                ),
            }
        },
{
    match check_placement(ranked.placement_generation, ranked.num_shards, generation, num_shards) {
        Ok(_) => {},
        Err(e) => {
            return Err(e);
        },
    }
    let hits = gather_winners(&ranked.titles);
    let ghost hv = hits@;
    let ghost stray = |h: ClusterRankedHit| h.owner_position >= num_shards;
    let mut groups: Vec<Vec<u64>> = Vec::new();
    let mut p: u32 = 0;
    while p < num_shards
        invariant
            p <= num_shards,
            groups@.len() == p,
            forall|k: int| 0 <= k < p ==> (#[trigger] groups@[k])@ == first_owned(hv.take(0), k as nat),
        decreases num_shards - p,
    {
        groups.push(Vec::new());
        assert(groups@[p as int]@ =~= first_owned(hv.take(0), p as nat));
        p = p + 1;
    }
    let mut seen: std::collections::HashSet<u64> = std::collections::HashSet::new();
    let n: usize = hits.len();
    let mut i: usize = 0;
    assert(row_ids(hv.take(0)).to_set() =~= Set::empty());
    while i < n
        invariant
            n == hits@.len(),
            hv == hits@,
            hv == all_winners(ranked.titles@),
            i <= n,
            stray == (|h: ClusterRankedHit| h.owner_position >= num_shards),
            groups@.len() == num_shards,
            forall|k: int|
                0 <= k < num_shards ==> (#[trigger] groups@[k])@ == first_owned(
                    hv.take(i as int),
                    k as nat,
                ),
            seen@ == row_ids(hv.take(i as int)).to_set(),
            forall|k: int| 0 <= k < i ==> !stray(#[trigger] hv[k]),
            !placement_drifted(
                ranked.placement_generation,
                ranked.num_shards,
                generation,
                num_shards,
            ),
        decreases n - i,
    {
        let h = hits[i];
        let ghost t = hv.take(i as int);
        proof {
            assert(hv.take(i + 1).drop_last() =~= t);
            assert(row_ids(hv.take(i + 1)) =~= row_ids(t).push(h.logical_id));
            row_ids(t).lemma_push_to_set_commute(h.logical_id);
        }
        if h.owner_position >= num_shards {
            proof {
                crate::seqs::lemma_find_at(hv, stray, i as int);
            }
            return Err(
                ClusterRankedError::InvalidShardReply {
                    position: h.owner_position as usize,
                    detail: String::from_str("winner names an out-of-range owner"),
                },
            );
        }
        let ghost before = groups@;
        let fresh: bool = seen.insert(h.logical_id);
        assert(fresh == !row_ids(t).contains(h.logical_id));
        if fresh {
            let o: usize = h.owner_position as usize;
            groups[o].push(h.logical_id);
        }
        proof {
            assert forall|k: int| 0 <= k < num_shards implies (#[trigger] groups@[k])@
                == first_owned(hv.take(i + 1), k as nat) by {
                assert(before[k]@ == first_owned(t, k as nat));
            }
        }
        i = i + 1;
    }
    proof {
        assert(hv.take(n as int) =~= hv);
        crate::seqs::lemma_find_none(hv, stray);
    }
    let mut out: Vec<BatchFetchGroup> = Vec::new();
    let ghost gs = groups@;
    assert(batch_fetch_views(out@) =~= batch_fetch_groups(hv, 0));
    let mut position: usize = 0;
    for ids in it: groups.into_iter()
        invariant
            it.seq() == gs,
            gs.len() == num_shards,
            position == it.index(),
            forall|k: int| 0 <= k < num_shards ==> (#[trigger] gs[k])@ == first_owned(hv, k as nat),
            batch_fetch_views(out@) == batch_fetch_groups(hv, it.index() as nat),
    {
        assert(gs[position as int]@ == first_owned(hv, position as nat));
        if ids.len() > 0 {
            let ghost before = out@;
            let ghost iv = ids@;
            out.push(BatchFetchGroup { position, ids });
            assert(batch_fetch_views(out@) =~= batch_fetch_views(before).push(
                BatchFetchView { position, ids: iv },
            ));
        }
        position = position + 1;
    }
    Ok(out)
}

/// The length of a text in bytes.
pub open spec fn byte_len(t: Seq<char>) -> nat {
    vstd::utf8::encode_utf8(t).len()
}

/// The sources fetched so far, and how many bytes may still come.
#[derive(Debug)]
pub struct SourceBudget {
    pub limit: usize,
    pub remaining: usize,
    pub sources: HashMap<u64, String>,
}

/// What taking rows `from..` of a reply to `ids` leads to: the bytes left and the sources, or an
/// error.
pub open spec fn taken(
    position: usize,
    ids: Seq<u64>,
    rows: Seq<FetchedMatch>,
    limit: usize,
    remaining: nat,
    sources: Map<u64, String>,
    from: nat,
) -> Result<(nat, Map<u64, String>), RankedErrorView>
    decreases rows.len() - from,
{
    if from >= rows.len() {
        Ok((remaining, sources))
    } else {
        let row = rows[from as int];
        if row.logical_id != ids[from as int] {
            Err(
                RankedErrorView::InvalidShardReply {
                    position,
                    detail: "source stream returned id "@ + decimal(row.logical_id as nat)
                        + " where "@ + decimal(ids[from as int] as nat) + " was requested"@,
                },
            )
        } else if byte_len(row.source@) > remaining {
            Err(RankedErrorView::EnrichmentLimit { limit })
        } else {
            taken(
                position,
                ids,
                rows,
                limit,
                (remaining - byte_len(row.source@)) as nat,
                sources.insert(row.logical_id, row.source),
                from + 1,
            )
        }
    }
}

/// What a reply to `ids` leads to.
pub open spec fn taken_reply(
    group: BatchFetchView,
    rows: Seq<FetchedMatch>,
    limit: usize,
    remaining: nat,
    sources: Map<u64, String>,
) -> Result<(nat, Map<u64, String>), RankedErrorView> {
    if rows.len() != group.ids.len() {
        Err(
            RankedErrorView::InvalidShardReply {
                position: group.position,
                detail: "source stream returned "@ + decimal(rows.len()) + " rows for "@ + decimal(
                    group.ids.len(),
                ) + " requested winners"@,
            },
        )
    } else {
        taken(group.position, group.ids, rows, limit, remaining, sources, 0)
    }
}

/// What delivering the sources of `hits` at or behind `from` leads to, with `delivered` bytes
/// already delivered: an error, or none.
pub open spec fn delivery_fault(
    hits: Seq<ClusterRankedHit>,
    sources: Map<u64, String>,
    limit: usize,
    delivered: nat,
    from: nat,
) -> Option<RankedErrorView>
    decreases hits.len() - from,
{
    if from >= hits.len() {
        None
    } else {
        let h = hits[from as int];
        if !sources.contains_key(h.logical_id) {
            Some(
                RankedErrorView::InvalidShardReply {
                    position: h.owner_position as usize,
                    detail: "source stream omitted winner "@ + decimal(h.logical_id as nat) + ""@,
                },
            )
        } else {
            let d = delivered + byte_len(sources[h.logical_id]@);
            if d > limit {
                Some(RankedErrorView::EnrichmentLimit { limit })
            } else {
                delivery_fault(hits, sources, limit, d, from + 1)
            }
        }
    }
}

impl SourceBudget {
    /// A budget with nothing fetched.
    pub fn new(limit: usize) -> (r: Self)
        ensures
            r.limit == limit,
            r.remaining == limit,
            r.sources@ == Map::<u64, String>::empty(),
    {
        SourceBudget { limit, remaining: limit, sources: HashMap::new() }
    }

    fn exceeded(&self) -> (r: ClusterRankedError)
        ensures
            r@ == (RankedErrorView::EnrichmentLimit { limit: self.limit }),
    {
        ClusterRankedError::EnrichmentLimit { limit: self.limit }
    }

    /// The error of a fetch that failed. A shard whose sources do not fit what is left has used up
    /// the budget as a whole.
    pub fn fetch_failed(&self, e: ShardError) -> (r: ClusterRankedError)
        ensures
            r@ == match e@ {
                ShardErrorView::EnrichmentLimit { .. } => RankedErrorView::EnrichmentLimit {
                    limit: self.limit,
                },
                v => ranked_from_shard(v),
            },
    {
        match e {
            ShardError::EnrichmentLimit { .. } => self.exceeded(),
            other => ClusterRankedError::from_shard(other),
        }
    }

    /// Takes the reply of one position, against what is left of the budget. One that does not fit or
    /// is malformed ends the fetch.
    pub fn take(self, group: &BatchFetchGroup, rows: Vec<FetchedMatch>) -> (r: Result<
        Self,
        ClusterRankedError,
    >)
        ensures
            match taken_reply(
                BatchFetchView { position: group.position, ids: group.ids@ },
                rows@,
                self.limit,
                self.remaining as nat,
                self.sources@,
            ) {
                Ok((left, sources)) => r matches Ok(b) && b.remaining == left && b.sources@
                    == sources && b.limit == self.limit,
                Err(e) => r matches Err(x) && x@ == e,
            },
    {
        let ghost g = BatchFetchView { position: group.position, ids: group.ids@ };
        let ghost all = rows@;
        let n: usize = group.ids.len();
        if rows.len() != n {
            let mut m = with_number("source stream returned ", rows.len() as u64, " rows for ");
            push_decimal(&mut m, n as u64);
            m.append(" requested winners");
            return Err(
                ClusterRankedError::InvalidShardReply { position: group.position, detail: m },
            );
        }
        let ghost outcome = taken_reply(
            g,
            all,
            self.limit,
            self.remaining as nat,
            self.sources@,
        );
        let mut budget = self;
        let mut i: usize = 0;
        for row in it: rows.into_iter()
            invariant
                it.seq() == all,
                i == it.index(),
                n == all.len(),
                n == group.ids@.len(),
                g == (BatchFetchView { position: group.position, ids: group.ids@ }),
                budget.limit == self.limit,
                outcome == taken_reply(
                    g,
                    rows@,
                    self.limit,
                    self.remaining as nat,
                    self.sources@,
                ),
                outcome == taken(
                    g.position,
                    g.ids,
                    all,
                    budget.limit,
                    budget.remaining as nat,
                    budget.sources@,
                    i as nat,
                ),
        {
            if row.logical_id != group.ids[i] {
                let mut m = with_number("source stream returned id ", row.logical_id, " where ");
                push_decimal(&mut m, group.ids[i]);
                m.append(" was requested");
                return Err(
                    ClusterRankedError::InvalidShardReply { position: group.position, detail: m },
                );
            }
            let size: usize = text_bytes(&row.source);
            if size > budget.remaining {
                return Err(budget.exceeded());
            }
            budget.remaining = budget.remaining - size;
            budget.sources.insert(row.logical_id, row.source);
            i = i + 1;
        }
        Ok(budget)
    }

    /// Delivers the sources to every title and winner, counting a source again each time it is
    /// delivered.
    pub fn deliver(&self, titles: &Vec<ClusterRankedTitle>) -> (r: Result<
        Vec<Vec<String>>,
        ClusterRankedError,
    >)
        requires
            all_winners(titles@).len() <= usize::MAX,
        ensures
            match delivery_fault(all_winners(titles@), self.sources@, self.limit, 0, 0) {
                Some(e) => r matches Err(x) && x@ == e,
                None => r matches Ok(out) && {
                    &&& out@.len() == titles@.len()
                    &&& forall|t: int|
                        0 <= t < titles@.len() ==> (#[trigger] out@[t])@.len()
                            == titles@[t].hits@.len() && forall|j: int|
                            0 <= j < out@[t]@.len() ==> (#[trigger] out@[t]@[j])
                                == self.sources@[titles@[t].hits@[j].logical_id]
                },
            },
    {
        let ghost flat = all_winners(titles@);
        let ghost fault = delivery_fault(flat, self.sources@, self.limit, 0, 0);
        let n: usize = titles.len();
        let mut out: Vec<Vec<String>> = Vec::new();
        let mut delivered: usize = 0;
        let mut t: usize = 0;
        let ghost mut at: nat = 0;
        assert(titles@.take(0).len() == 0);
        while t < n
            invariant
                n == titles@.len(),
                t <= n,
                flat == all_winners(titles@),
                fault == delivery_fault(flat, self.sources@, self.limit, 0, 0),
                at == all_winners(titles@.take(t as int)).len(),
                fault == delivery_fault(flat, self.sources@, self.limit, delivered as nat, at),
                out@.len() == t,
                forall|k: int|
                    0 <= k < t ==> (#[trigger] out@[k])@.len() == titles@[k].hits@.len()
                        && forall|j: int|
                        0 <= j < out@[k]@.len() ==> (#[trigger] out@[k]@[j])
                            == self.sources@[titles@[k].hits@[j].logical_id],
            decreases n - t,
        {
            let m: usize = titles[t].hits.len();
            let mut mine: Vec<String> = Vec::new();
            let mut j: usize = 0;
            proof {
                assert(titles@.take(t + 1).drop_last() =~= titles@.take(t as int));
                lemma_winner_at(titles@, t as int);
            }
            while j < m
                invariant
                    t < titles@.len(),
                    m == titles@[t as int].hits@.len(),
                    j <= m,
                    flat == all_winners(titles@),
                    fault == delivery_fault(flat, self.sources@, self.limit, 0, 0),
                    at == all_winners(titles@.take(t as int)).len() + j,
                    fault == delivery_fault(flat, self.sources@, self.limit, delivered as nat, at),
                    mine@.len() == j,
                    forall|k: int|
                        0 <= k < j ==> (#[trigger] mine@[k])
                            == self.sources@[titles@[t as int].hits@[k].logical_id],
                    placed_at(
                        flat,
                        all_winners(titles@.take(t as int)).len(),
                        titles@[t as int].hits@,
                    ),
                decreases m - j,
            {
                let h = titles[t].hits[j];
                assert(flat[at as int] == h);
                match self.sources.get(&h.logical_id) {
                    Some(s) => {
                        let size: usize = text_bytes(s);
                        let sum: usize = delivered.saturating_add(size);
                        if sum > self.limit {
                            return Err(self.exceeded());
                        }
                        if size > self.limit - delivered {
                            return Err(self.exceeded());
                        }
                        delivered = sum;
                        mine.push(s.clone());
                    },
                    None => {
                        return Err(
                            ClusterRankedError::InvalidShardReply {
                                position: h.owner_position as usize,
                                detail: with_number(
                                    "source stream omitted winner ",
                                    h.logical_id,
                                    "",
                                ),
                            },
                        );
                    },
                }
                proof {
                    at = at + 1;
                }
                j = j + 1;
            }
            out.push(mine);
            t = t + 1;
        }
        assert(titles@.take(n as int) =~= titles@);
        Ok(out)
    }
}

fn text_bytes(t: &String) -> (r: usize)
    ensures
        r as nat == byte_len(t@),
{
    let b = t.as_str().as_bytes();
    b.len()
}

/// `hits` stand in `flat` from `base` on.
spec fn placed_at(flat: Seq<ClusterRankedHit>, base: nat, hits: Seq<ClusterRankedHit>) -> bool {
    &&& base + hits.len() <= flat.len()
    &&& forall|k: int| 0 <= k < hits.len() ==> flat[base + k] == #[trigger] hits[k]
}

/// The winners of the title at `t` follow those of the titles before it.
proof fn lemma_winner_at(titles: Seq<ClusterRankedTitle>, t: int)
    requires
        0 <= t < titles.len(),
    ensures
        placed_at(all_winners(titles), all_winners(titles.take(t)).len(), titles[t].hits@),
    decreases titles.len(),
{
    let d = titles.drop_last();
    let flat = all_winners(titles);
    let base = all_winners(titles.take(t)).len();
    let hits = titles[t].hits@;
    if t == titles.len() - 1 {
        assert(titles.take(t) =~= d);
        lemma_placed_behind(all_winners(d), hits);
    } else {
        lemma_winner_at(d, t);
        assert(d.take(t) =~= titles.take(t));
        assert(d[t] == titles[t]);
        lemma_placed_before(all_winners(d), titles.last().hits@, base, hits);
    }
}

proof fn lemma_placed_behind(a: Seq<ClusterRankedHit>, hits: Seq<ClusterRankedHit>)
    ensures
        placed_at(a + hits, a.len(), hits),
{
}

proof fn lemma_placed_before(
    a: Seq<ClusterRankedHit>,
    b: Seq<ClusterRankedHit>,
    base: nat,
    hits: Seq<ClusterRankedHit>,
)
    requires
        placed_at(a, base, hits),
    ensures
        placed_at(a + b, base, hits),
{
    assert forall|k: int| 0 <= k < hits.len() implies (a + b)[base + k] == #[trigger] hits[k] by {
        assert(a[base + k] == hits[k]);
    }
}

// ---- laws ----

/// The bytes of the sources of `hits`, each counted as often as it is delivered.
pub open spec fn delivered_bytes(hits: Seq<ClusterRankedHit>, sources: Map<u64, String>, from: nat) -> nat
    decreases hits.len() - from,
{
    if from >= hits.len() {
        0
    } else {
        byte_len(sources[hits[from as int].logical_id]@) + delivered_bytes(hits, sources, from + 1)
    }
}

/// What is delivered never exceeds the budget.
pub proof fn law_delivery_stays_within_the_budget(
    hits: Seq<ClusterRankedHit>,
    sources: Map<u64, String>,
    limit: usize,
    delivered: nat,
    from: nat,
)
    requires
        delivered <= limit,
        delivery_fault(hits, sources, limit, delivered, from) is None,
    ensures
        delivered + delivered_bytes(hits, sources, from) <= limit,
    decreases hits.len() - from,
{
    if from < hits.len() {
        law_delivery_stays_within_the_budget(
            hits,
            sources,
            limit,
            delivered + byte_len(sources[hits[from as int].logical_id]@),
            from + 1,
        );
    }
}

/// In a batch, each position that a title is sent to contributes exactly one part to it, in the
/// order of positions; no other position contributes.
pub proof fn law_each_routed_position_contributes_once(
    routes: Seq<RouteView>,
    n: nat,
    replies: Seq<ShardBatchRankedMatch>,
    t: int,
)
    requires
        routes.len() <= usize::MAX,
        n <= u32::MAX + 1,
        0 <= t < routes.len(),
        replies.len() == calls_for(routes, n).len(),
    ensures
        ({
            let parts = title_parts(calls_for(routes, n), replies, t);
            &&& forall|i: int| 0 <= i < parts.len() ==> (#[trigger] parts[i]).position < n
            &&& forall|i: int, j: int|
                0 <= i < j < parts.len() ==> (#[trigger] parts[i]).position < (#[trigger] parts[j]).position
            &&& forall|p: u32|
                p < n ==> (#[trigger] routes[t].targets.contains(p) <==> exists|i: int|
                    0 <= i < parts.len() && (#[trigger] parts[i]).position == p)
        }),
    decreases n,
{
    let calls = calls_for(routes, n);
    let parts = title_parts(calls, replies, t);
    if n > 0 {
        let p0 = (n - 1) as u32;
        let ts = titles_for(routes, p0);
        lemma_titles_for_exact(routes, p0, t);
        if ts.len() == 0 {
            law_each_routed_position_contributes_once(routes, (n - 1) as nat, replies, t);
            assert forall|p: u32| p < n implies (#[trigger] routes[t].targets.contains(p)
                <==> exists|i: int| 0 <= i < parts.len() && (#[trigger] parts[i]).position == p) by {
                if p == p0 {
                    assert(!routes[t].targets.contains(p));
                }
            }
        } else {
            law_each_routed_position_contributes_once(
                routes,
                (n - 1) as nat,
                replies.drop_last(),
                t,
            );
            assert(calls.drop_last() =~= calls_for(routes, (n - 1) as nat));
            let head = title_parts(calls.drop_last(), replies.drop_last(), t);
            let c = calls.last();
            let more = call_parts(c, replies.last().titles@, ts.len(), t);
            lemma_call_parts(c, replies.last().titles@, ts.len(), t);
            assert(parts == head + more);
            assert forall|p: u32| p < n implies (#[trigger] routes[t].targets.contains(p)
                <==> exists|i: int| 0 <= i < parts.len() && (#[trigger] parts[i]).position == p) by {
                if p < p0 {
                    if routes[t].targets.contains(p) {
                        let i = choose|i: int|
                            0 <= i < head.len() && (#[trigger] head[i]).position == p;
                        assert(parts[i].position == p);
                    }
                    if exists|i: int| 0 <= i < parts.len() && (#[trigger] parts[i]).position == p {
                        let i = choose|i: int|
                            0 <= i < parts.len() && (#[trigger] parts[i]).position == p;
                        if i < head.len() {
                            assert(head[i].position == p);
                        } else {
                            assert(more[i - head.len()].position == p0);
                        }
                    }
                } else {
                    if routes[t].targets.contains(p) {
                        assert(more.len() == 1);
                        assert(parts[head.len() as int].position == p0);
                    }
                    if exists|i: int| 0 <= i < parts.len() && (#[trigger] parts[i]).position == p {
                        let i = choose|i: int|
                            0 <= i < parts.len() && (#[trigger] parts[i]).position == p;
                        if i < head.len() {
                            assert(head[i].position < n - 1);
                        } else {
                            assert(more.len() >= 1);
                        }
                    }
                }
            }
            assert forall|i: int, j: int| 0 <= i < j < parts.len() implies (
            #[trigger] parts[i]).position < (#[trigger] parts[j]).position by {
                if j >= head.len() {
                    assert(more[j - head.len()].position == p0);
                    if i < head.len() {
                        assert(head[i].position < n - 1);
                    } else {
                        assert(more.len() <= 1);
                    }
                }
            }
        }
    }
}

/// A title is listed for a position once if it is sent there, and not at all otherwise.
proof fn lemma_titles_for_exact(routes: Seq<RouteView>, position: u32, t: int)
    requires
        routes.len() <= usize::MAX,
        0 <= t < routes.len(),
    ensures
        ({
            let ts = titles_for(routes, position);
            &&& forall|i: int, j: int|
                0 <= i < j < ts.len() ==> (#[trigger] ts[i]) < (#[trigger] ts[j])
            &&& routes[t].targets.contains(position) <==> exists|k: int|
                0 <= k < ts.len() && #[trigger] ts[k] == t
        }),
    decreases routes.len(),
{
    let d = routes.drop_last();
    let ts = titles_for(routes, position);
    let td = titles_for(d, position);
    lemma_titles_for(d, position);
    assert forall|i: int, j: int| 0 <= i < j < ts.len() implies (#[trigger] ts[i]) < (
    #[trigger] ts[j]) by {
        if d.len() > 0 {
            lemma_titles_for_exact(d, position, 0);
        }
        if j < td.len() {
            assert(td[i] < td[j]);
        } else if i < td.len() {
            assert(td[i] < d.len());
        }
    }
    if t < d.len() {
        lemma_titles_for_exact(d, position, t);
        assert(d[t] == routes[t]);
        if routes[t].targets.contains(position) {
            let k = choose|k: int| 0 <= k < td.len() && #[trigger] td[k] == t;
            assert(ts[k] == t);
        }
        if exists|k: int| 0 <= k < ts.len() && #[trigger] ts[k] == t {
            let k = choose|k: int| 0 <= k < ts.len() && #[trigger] ts[k] == t;
            if k < td.len() {
                assert(td[k] == t);
            }
        }
    } else {
        if routes[t].targets.contains(position) {
            assert(ts[td.len() as int] == t);
        }
        if exists|k: int| 0 <= k < ts.len() && #[trigger] ts[k] == t {
            let k = choose|k: int| 0 <= k < ts.len() && #[trigger] ts[k] == t;
            if k < td.len() {
                assert(td[k] < d.len());
            }
        }
    }
}

proof fn lemma_call_parts(call: CallView, titles: Seq<ShardTitleResult>, n: nat, t: int)
    requires
        n <= call.titles.len(),
        forall|i: int, j: int|
            0 <= i < j < call.titles.len() ==> (#[trigger] call.titles[i]) < (#[trigger] call.titles[j]),
    ensures
        ({
            let parts = call_parts(call, titles, n, t);
            &&& parts.len() <= 1
            &&& forall|i: int| 0 <= i < parts.len() ==> (#[trigger] parts[i]).position == call.position
            &&& parts.len() == 1 <==> exists|k: int| 0 <= k < n && #[trigger] call.titles[k] == t
        }),
    decreases n,
{
    if n > 0 {
        lemma_call_parts(call, titles, (n - 1) as nat, t);
        let before = call_parts(call, titles, (n - 1) as nat, t);
        if call.titles[n - 1] == t {
            if before.len() == 1 {
                let k = choose|k: int| 0 <= k < n - 1 && #[trigger] call.titles[k] == t;
                assert(call.titles[k] < call.titles[n - 1]);
            }
        } else if exists|k: int| 0 <= k < n && #[trigger] call.titles[k] == t {
            let k = choose|k: int| 0 <= k < n && #[trigger] call.titles[k] == t;
            assert(k < n - 1);
        }
    }
}

/// A batch is admitted exactly where its size, its threshold and its number of titles are within
/// the limits, and so is the number of rows that all its titles may ask for, which counts as no
/// more than the largest value.
pub proof fn law_a_batch_is_admitted_within_the_limits(
    options: TopKOptions,
    titles: usize,
    limits: RankLimits,
)
    ensures
        batch_refusal(options, titles, limits) is None <==> {
            &&& options.size <= limits.max_top_k
            &&& options.track_total_hits_up_to <= limits.max_track_total_hits
            &&& titles <= limits.max_batch_titles
            &&& options.size * titles <= limits.max_batch_rows || limits.max_batch_rows == u64::MAX
        },
{
    assert(options.size * titles >= 0) by (nonlinear_arith);
}

/// Each call asks a position for exactly the titles that are sent there, in order, and for the
/// broad lane exactly if one of them chose that position for it.
pub proof fn law_a_call_asks_for_the_titles_sent_there(
    routes: Seq<RouteView>,
    n: nat,
    c: int,
    d: int,
    t: int,
)
    requires
        routes.len() <= usize::MAX,
        n <= u32::MAX + 1,
        0 <= c < calls_for(routes, n).len(),
    ensures
        calls_for(routes, n)[c].position < n,
        c < d < calls_for(routes, n).len() ==> calls_for(routes, n)[c].position < calls_for(
            routes,
            n,
        )[d].position,
        0 <= t < routes.len() ==> (routes[t].targets.contains(calls_for(routes, n)[c].position)
            <==> exists|k: int|
            0 <= k < calls_for(routes, n)[c].titles.len() && #[trigger] calls_for(
                routes,
                n,
            )[c].titles[k] == t),
        0 < t < calls_for(routes, n)[c].titles.len() ==> calls_for(routes, n)[c].titles[t - 1]
            < calls_for(routes, n)[c].titles[t],
        calls_for(routes, n)[c].titles.len() > 0,
        calls_for(routes, n)[c].broad <==> exists|k: int|
            0 <= k < routes.len() && (#[trigger] routes[k]).targets.contains(
                calls_for(routes, n)[c].position,
            ) && routes[k].broad == Some(calls_for(routes, n)[c].position),
    decreases n,
{
    let cs = calls_for(routes, n);
    let before = calls_for(routes, (n - 1) as nat);
    if c < before.len() {
        assert(cs[c] == before[c]);
        if c < d < before.len() {
            assert(cs[d] == before[d]);
        }
        law_a_call_asks_for_the_titles_sent_there(routes, (n - 1) as nat, c, d, t);
    } else {
        let p = (n - 1) as u32;
        let ts = titles_for(routes, p);
        assert(cs[c].titles == ts);
        lemma_titles_for(routes, p);
        if routes.len() > 0 {
            lemma_titles_for_exact(routes, p, 0);
        }
        if 0 <= t < routes.len() {
            lemma_titles_for_exact(routes, p, t);
            if routes[t].targets.contains(p) {
                let k = choose|k: int| 0 <= k < ts.len() && #[trigger] ts[k] == t;
                assert(cs[c].titles[k] == t);
            }
        }
        if evaluates_broad(routes, p) {
            let k = choose|k: int|
                0 <= k < ts.len() && routes[(#[trigger] ts[k]) as int].broad == Some(p);
            assert(routes[ts[k] as int].targets.contains(p));
        }
        if exists|k: int|
            0 <= k < routes.len() && (#[trigger] routes[k]).targets.contains(p) && routes[k].broad
                == Some(p) {
            let k = choose|k: int|
                0 <= k < routes.len() && (#[trigger] routes[k]).targets.contains(p)
                    && routes[k].broad == Some(p);
            lemma_titles_for_exact(routes, p, k);
            let q = choose|q: int| 0 <= q < ts.len() && #[trigger] ts[q] == k;
            assert(routes[ts[q] as int].broad == Some(p));
        }
    }
}

/// A reply to a call is accepted exactly where it has a result for each title asked for, and the
/// rows of each are accepted.
pub proof fn law_only_sound_batch_replies_are_accepted(
    call: CallView,
    size: usize,
    reply: ShardBatchRankedMatch,
)
    ensures
        batch_reply_fault(call, size, reply) is None <==> reply.titles@.len() == call.titles.len()
            && forall|k: int|
            0 <= k < reply.titles@.len() ==> part_fault(
                call.position as usize,
                size,
                (#[trigger] reply.titles@[k]).hits@,
            ) is None,
{
    lemma_title_fault(call, size, reply.titles@, 0);
}

proof fn lemma_title_fault(call: CallView, size: usize, titles: Seq<ShardTitleResult>, from: nat)
    ensures
        title_fault(call, size, titles, from) is None <==> forall|k: int|
            from <= k < titles.len() ==> part_fault(
                call.position as usize,
                size,
                (#[trigger] titles[k]).hits@,
            ) is None,
    decreases titles.len() - from,
{
    if from < titles.len() {
        lemma_title_fault(call, size, titles, from + 1);
        if title_fault(call, size, titles, from) is None {
            assert forall|k: int| from <= k < titles.len() implies part_fault(
                call.position as usize,
                size,
                (#[trigger] titles[k]).hits@,
            ) is None by {}
        }
    }
}

/// The replies to a batch are accepted exactly where each of them is.
pub proof fn law_every_batch_reply_is_checked(
    calls: Seq<CallView>,
    size: usize,
    replies: Seq<ShardBatchRankedMatch>,
)
    requires
        calls.len() == replies.len(),
    ensures
        batch_fault(calls, size, replies) is None <==> forall|c: int|
            0 <= c < calls.len() ==> batch_reply_fault(#[trigger] calls[c], size, replies[c])
                is None,
    decreases calls.len(),
{
    if calls.len() > 0 {
        let d = calls.drop_last();
        let r = replies.drop_last();
        let n = calls.len() - 1;
        law_every_batch_reply_is_checked(d, size, r);
        assert forall|c: int| 0 <= c < n implies calls[c] == #[trigger] d[c] && replies[c]
            == r[c] by {}
        if batch_fault(calls, size, replies) is None {
            assert forall|c: int| 0 <= c < calls.len() implies batch_reply_fault(
                #[trigger] calls[c],
                size,
                replies[c],
            ) is None by {
                if c < n {
                    assert(batch_reply_fault(d[c], size, r[c]) is None);
                }
            }
        } else if batch_fault(d, size, r) is Some {
            let c = choose|c: int|
                0 <= c < d.len() && batch_reply_fault(#[trigger] d[c], size, r[c]) is Some;
            assert(batch_reply_fault(calls[c], size, replies[c]) is Some);
        } else {
            assert(batch_reply_fault(calls[n], size, replies[n]) is Some);
        }
    }
}

/// A batch is refused for a repeated id exactly where some title has one, and then for that of the
/// first such title.
pub proof fn law_the_first_repeat_of_a_batch_is_reported(
    calls: Seq<CallView>,
    replies: Seq<ShardBatchRankedMatch>,
    n: nat,
    t: int,
)
    ensures
        0 <= t < n && first_repeat(row_ids(all_rows(title_parts(calls, replies, t)))) is Some && (
        forall|k: int|
            0 <= k < t ==> first_repeat(
                row_ids(all_rows(#[trigger] title_parts(calls, replies, k))),
            ) is None) ==> batch_repeat(calls, replies, n) == first_repeat(
            row_ids(all_rows(title_parts(calls, replies, t))),
        ),
        (forall|k: int|
            0 <= k < n ==> first_repeat(
                row_ids(all_rows(#[trigger] title_parts(calls, replies, k))),
            ) is None) ==> batch_repeat(calls, replies, n) is None,
    decreases n,
{
    if n > 0 {
        law_the_first_repeat_of_a_batch_is_reported(calls, replies, (n - 1) as nat, t);
        if t == n - 1 {
            assert((forall|k: int|
                0 <= k < t ==> first_repeat(
                    row_ids(all_rows(#[trigger] title_parts(calls, replies, k))),
                ) is None) ==> batch_repeat(calls, replies, (n - 1) as nat) is None);
        }
    }
}

/// Each title's rows and each reply's counters count once, up to the largest value.
pub proof fn law_batch_counters_add_up(
    calls: Seq<CallView>,
    replies: Seq<ShardBatchRankedMatch>,
    r: ShardBatchRankedMatch,
    n: nat,
    start: RankStats,
    titles: Seq<ShardTitleResult>,
    t: ShardTitleResult,
)
    ensures
        batch_rows(calls, replies, 0) == 0,
        batch_rows(calls, replies, n + 1) == batch_rows(calls, replies, n) + all_rows(
            title_parts(calls, replies, n as int),
        ).len(),
        batch_stats(Seq::<ShardBatchRankedMatch>::empty()) == (
            0u32,
            (RankStats { evaluations: 0, heap_replacements: 0 }),
            0u64,
        ),
        ({
            let (m, s, b) = batch_stats(replies);
            let (m2, s2, b2) = batch_stats(replies.push(r));
            &&& m2 == if m + r.stats.matches > u32::MAX {
                u32::MAX as int
            } else {
                m + r.stats.matches
            }
            &&& s2 == titles_rank_stats(s, r.titles@)
            &&& b2 == if b + r.result_bytes > u64::MAX {
                u64::MAX as int
            } else {
                b + r.result_bytes
            }
        }),
        titles_rank_stats(start, Seq::<ShardTitleResult>::empty()) == start,
        ({
            let s = titles_rank_stats(start, titles);
            let s2 = titles_rank_stats(start, titles.push(t));
            &&& s2.evaluations == if s.evaluations + t.rank_stats.evaluations > u64::MAX {
                u64::MAX as int
            } else {
                s.evaluations + t.rank_stats.evaluations
            }
            &&& s2.heap_replacements == if s.heap_replacements + t.rank_stats.heap_replacements
                > u64::MAX {
                u64::MAX as int
            } else {
                s.heap_replacements + t.rank_stats.heap_replacements
            }
        }),
{
    assert(replies.push(r).drop_last() =~= replies);
    assert(titles.push(t).drop_last() =~= titles);
}

/// The winners of all titles are those of each, title by title.
pub proof fn law_winners_of_a_batch_follow_one_another(
    titles: Seq<ClusterRankedTitle>,
    t: ClusterRankedTitle,
)
    ensures
        all_winners(Seq::<ClusterRankedTitle>::empty()) == Seq::<ClusterRankedHit>::empty(),
        all_winners(titles.push(t)) == all_winners(titles) + t.hits@,
{
    assert(titles.push(t).drop_last() =~= titles);
}

/// An id is asked of a position exactly where the first winner with that id names the position as
/// its owner; and it is asked once.
pub proof fn law_each_winner_is_fetched_once(hits: Seq<ClusterRankedHit>, position: nat, id: u64)
    ensures
        first_owned(hits, position).contains(id) <==> exists|i: int|
            #![trigger hits[i]]
            0 <= i < hits.len() && hits[i].logical_id == id && hits[i].owner_position == position
                && forall|k: int| 0 <= k < i ==> (#[trigger] hits[k]).logical_id != id,
        forall|a: int, b: int|
            0 <= a < b < first_owned(hits, position).len() ==> first_owned(hits, position)[a]
                != first_owned(hits, position)[b],
    decreases hits.len(),
{
    let f = first_owned(hits, position);
    if hits.len() > 0 {
        let d = hits.drop_last();
        let fd = first_owned(d, position);
        let h = hits.last();
        let n = hits.len() - 1;
        law_each_winner_is_fetched_once(d, position, id);
        law_each_winner_is_fetched_once(d, position, h.logical_id);
        assert forall|i: int| 0 <= i < n implies hits[i] == #[trigger] d[i] && row_ids(d)[i]
            == hits[i].logical_id by {}
        let new = h.owner_position == position && !row_ids(d).contains(h.logical_id);
        if f.contains(id) {
            let k = choose|k: int| 0 <= k < f.len() && f[k] == id;
            if k < fd.len() {
                assert(fd[k] == id);
                assert(fd.contains(id));
                let i = choose|i: int|
                    #![trigger d[i]]
                    0 <= i < d.len() && d[i].logical_id == id && d[i].owner_position == position
                        && forall|k: int| 0 <= k < i ==> (#[trigger] d[k]).logical_id != id;
                assert(hits[i] == d[i]);
                assert forall|k: int| 0 <= k < i implies (#[trigger] hits[k]).logical_id != id by {
                    assert(d[k].logical_id != id);
                }
            } else {
                assert(new && id == h.logical_id);
                assert forall|k: int| 0 <= k < n implies (#[trigger] hits[k]).logical_id != id by {
                    assert(row_ids(d)[k] == hits[k].logical_id);
                }
                assert(hits[n] == h);
            }
        }
        if exists|i: int|
            #![trigger hits[i]]
            0 <= i < hits.len() && hits[i].logical_id == id && hits[i].owner_position == position
                && forall|k: int| 0 <= k < i ==> (#[trigger] hits[k]).logical_id != id {
            let i = choose|i: int|
                #![trigger hits[i]]
                0 <= i < hits.len() && hits[i].logical_id == id && hits[i].owner_position
                    == position && forall|k: int|
                    0 <= k < i ==> (#[trigger] hits[k]).logical_id != id;
            if i < n {
                assert(d[i] == hits[i]);
                assert forall|k: int| 0 <= k < i implies (#[trigger] d[k]).logical_id != id by {
                    assert(hits[k].logical_id != id);
                }
                assert(fd.contains(id));
                let k = choose|k: int| 0 <= k < fd.len() && fd[k] == id;
                assert(f[k] == id);
            } else {
                if row_ids(d).contains(id) {
                    let k = choose|k: int| 0 <= k < row_ids(d).len() && row_ids(d)[k] == id;
                    assert(hits[k].logical_id == id);
                }
                assert(f[fd.len() as int] == id);
            }
        }
        assert forall|a: int, b: int| 0 <= a < b < f.len() implies f[a] != f[b] by {
            assert(f[a] == fd[a]);
            if b < fd.len() {
                assert(f[b] == fd[b]);
            } else if fd[a] == h.logical_id {
                assert(fd.contains(h.logical_id));
                let i = choose|i: int|
                    #![trigger d[i]]
                    0 <= i < d.len() && d[i].logical_id == h.logical_id && d[i].owner_position
                        == position && forall|k: int|
                        0 <= k < i ==> (#[trigger] d[k]).logical_id != h.logical_id;
                assert(row_ids(d)[i] == h.logical_id);
            }
        }
    }
}

/// The groups are those of the positions in range that are asked for anything, in order.
pub proof fn law_each_owner_has_its_group(hits: Seq<ClusterRankedHit>, n: nat, p: u32, g: int, h: int)
    requires
        n <= u32::MAX + 1,
    ensures
        p < n && first_owned(hits, p as nat).len() > 0 ==> exists|k: int|
            0 <= k < batch_fetch_groups(hits, n).len() && (#[trigger] batch_fetch_groups(
                hits,
                n,
            )[k]).position == p,
        0 <= g < batch_fetch_groups(hits, n).len() ==> {
            let x = batch_fetch_groups(hits, n)[g];
            x.position < n && x.ids == first_owned(hits, x.position as nat) && x.ids.len() > 0
        },
        0 <= g < h < batch_fetch_groups(hits, n).len() ==> batch_fetch_groups(hits, n)[g].position
            < batch_fetch_groups(hits, n)[h].position,
    decreases n,
{
    if n > 0 {
        let gs = batch_fetch_groups(hits, n);
        let before = batch_fetch_groups(hits, (n - 1) as nat);
        law_each_owner_has_its_group(hits, (n - 1) as nat, p, g, h);
        if p < n - 1 && first_owned(hits, p as nat).len() > 0 {
            let k = choose|k: int| 0 <= k < before.len() && (#[trigger] before[k]).position == p;
            assert(gs[k] == before[k]);
        }
        if p == n - 1 && first_owned(hits, p as nat).len() > 0 {
            assert(gs[before.len() as int].position == p);
        }
    }
}

/// The bytes of the rows at or behind `from`.
pub open spec fn row_bytes(rows: Seq<FetchedMatch>, from: nat) -> nat
    decreases rows.len() - from,
{
    if from >= rows.len() {
        0
    } else {
        byte_len(rows[from as int].source@) + row_bytes(rows, from + 1)
    }
}

/// A position's sources are taken exactly where it sent one for each id asked for, in order, and
/// all of them fit what is left of the budget. They use up as many bytes as they have; each is kept
/// under its id, and what was kept before under another id stays.
pub proof fn law_sources_are_taken_within_the_budget(
    group: BatchFetchView,
    rows: Seq<FetchedMatch>,
    limit: usize,
    remaining: nat,
    sources: Map<u64, String>,
    j: int,
    id: u64,
)
    ensures
        taken_reply(group, rows, limit, remaining, sources) is Ok <==> {
            &&& rows.len() == group.ids.len()
            &&& forall|k: int|
                0 <= k < rows.len() ==> (#[trigger] rows[k]).logical_id == group.ids[k]
            &&& row_bytes(rows, 0) <= remaining
        },
        taken_reply(group, rows, limit, remaining, sources) matches Ok((left, s)) ==> {
            &&& left + row_bytes(rows, 0) == remaining
            &&& 0 <= j < rows.len() && (forall|k: int|
                j < k < rows.len() ==> (#[trigger] rows[k]).logical_id != rows[j].logical_id)
                ==> s.contains_key(rows[j].logical_id) && s[rows[j].logical_id] == rows[j].source
            &&& !group.ids.contains(id) ==> (s.contains_key(id) <==> sources.contains_key(id)) && (
            sources.contains_key(id) ==> s[id] == sources[id])
        },
{
    if rows.len() == group.ids.len() {
        lemma_taken(group.position, group.ids, rows, limit, remaining, sources, 0, j, id);
        if !group.ids.contains(id) && taken_reply(group, rows, limit, remaining, sources) is Ok {
            assert forall|k: int| 0 <= k < rows.len() implies (#[trigger] rows[k]).logical_id
                != id by {
                assert(group.ids[k] == rows[k].logical_id);
            }
        }
    }
}

proof fn lemma_taken(
    position: usize,
    ids: Seq<u64>,
    rows: Seq<FetchedMatch>,
    limit: usize,
    remaining: nat,
    sources: Map<u64, String>,
    from: nat,
    j: int,
    id: u64,
)
    ensures
        taken(position, ids, rows, limit, remaining, sources, from) is Ok <==> {
            &&& forall|k: int| from <= k < rows.len() ==> (#[trigger] rows[k]).logical_id == ids[k]
            &&& row_bytes(rows, from) <= remaining
        },
        taken(position, ids, rows, limit, remaining, sources, from) matches Ok((left, s)) ==> {
            &&& left + row_bytes(rows, from) == remaining
            &&& from <= j < rows.len() && (forall|k: int|
                j < k < rows.len() ==> (#[trigger] rows[k]).logical_id != rows[j].logical_id)
                ==> s.contains_key(rows[j].logical_id) && s[rows[j].logical_id] == rows[j].source
            &&& (forall|k: int| from <= k < rows.len() ==> (#[trigger] rows[k]).logical_id != id)
                ==> (s.contains_key(id) <==> sources.contains_key(id)) && (sources.contains_key(id)
                ==> s[id] == sources[id])
        },
    decreases rows.len() - from,
{
    if from < rows.len() {
        let row = rows[from as int];
        if row.logical_id == ids[from as int] && byte_len(row.source@) <= remaining {
            let left = (remaining - byte_len(row.source@)) as nat;
            let s = sources.insert(row.logical_id, row.source);
            lemma_taken(position, ids, rows, limit, left, s, from + 1, j, id);
            lemma_taken(position, ids, rows, limit, left, s, from + 1, j, row.logical_id);
            if taken(position, ids, rows, limit, left, s, from + 1) is Ok {
                assert forall|k: int| from <= k < rows.len() implies (
                #[trigger] rows[k]).logical_id == ids[k] by {}
            }
            if j == from && (forall|k: int|
                j < k < rows.len() ==> (#[trigger] rows[k]).logical_id != rows[j].logical_id) {
                assert forall|k: int| from + 1 <= k < rows.len() implies (
                #[trigger] rows[k]).logical_id != row.logical_id by {}
            }
        }
    }
}

/// Sources are delivered exactly where there is one for each winner and all of them together,
/// counted as often as they are delivered, fit the budget.
pub proof fn law_everything_within_the_budget_is_delivered(
    hits: Seq<ClusterRankedHit>,
    sources: Map<u64, String>,
    limit: usize,
    delivered: nat,
    from: nat,
)
    requires
        delivered <= limit,
    ensures
        delivery_fault(hits, sources, limit, delivered, from) is None <==> {
            &&& forall|k: int|
                from <= k < hits.len() ==> sources.contains_key((#[trigger] hits[k]).logical_id)
            &&& delivered + delivered_bytes(hits, sources, from) <= limit
        },
    decreases hits.len() - from,
{
    if from < hits.len() {
        let h = hits[from as int];
        let d = delivered + byte_len(sources[h.logical_id]@);
        if sources.contains_key(h.logical_id) && d <= limit {
            law_everything_within_the_budget_is_delivered(hits, sources, limit, d, from + 1);
            if delivery_fault(hits, sources, limit, d, from + 1) is None {
                assert forall|k: int| from <= k < hits.len() implies sources.contains_key(
                    (#[trigger] hits[k]).logical_id,
                ) by {}
            }
        }
    }
}

/// The winners of a batch can be fetched exactly where each names an owner in range; otherwise the
/// first that does not is named.
pub proof fn law_the_first_stray_owner_is_named(
    hits: Seq<ClusterRankedHit>,
    num_shards: u32,
    i: int,
)
    ensures
        stray_owner(hits, num_shards) is None <==> forall|k: int|
            0 <= k < hits.len() ==> (#[trigger] hits[k]).owner_position < num_shards,
        0 <= i < hits.len() && hits[i].owner_position >= num_shards && (forall|k: int|
            0 <= k < i ==> (#[trigger] hits[k]).owner_position < num_shards) ==> stray_owner(
            hits,
            num_shards,
        ) == Some(hits[i]),
{
    let p = |h: ClusterRankedHit| h.owner_position >= num_shards;
    crate::seqs::lemma_find(hits, p);
    if stray_owner(hits, num_shards) is None {
        assert forall|k: int| 0 <= k < hits.len() implies (#[trigger] hits[k]).owner_position
            < num_shards by {
            assert(!p(hits[k]));
        }
    } else {
        let h = stray_owner(hits, num_shards)->0;
        let k = choose|k: int| 0 <= k < hits.len() && #[trigger] hits[k] == h && p(h);
        assert(hits[k].owner_position >= num_shards);
    }
    if 0 <= i < hits.len() && hits[i].owner_position >= num_shards && (forall|k: int|
        0 <= k < i ==> (#[trigger] hits[k]).owner_position < num_shards) {
        assert forall|j: int| 0 <= j < i implies !p(#[trigger] hits[j]) by {
            assert(hits[j].owner_position < num_shards);
        }
        crate::seqs::lemma_find_at(hits, p, i);
    }
}

/// A merged batch says what came in: a result for each title, with the number of shards it was sent
/// to, the number of calls, the number of rows, and what the counters add up to.
pub proof fn law_a_batch_result_says_what_came_in(
    m: ClusterBatchRankedMatch,
    options: TopKOptions,
    routed: Seq<usize>,
    calls: Seq<CallView>,
    replies: Seq<ShardBatchRankedMatch>,
    t: int,
)
    requires
        batch_of(m, options, routed, calls, replies),
        0 <= t < routed.len(),
    ensures
        m.titles@.len() == routed.len(),
        m.titles@[t].routed_shards == routed[t],
        m.titles@[t].hits@ == best(
            all_rows(title_parts(calls, replies, t)),
            options.size as nat,
        ),
        m.titles@[t].total_hits == merged_total(
            title_parts(calls, replies, t),
            options.track_total_hits_up_to,
        ),
        m.fanned_shard_calls == calls.len(),
        m.shard_rows_received == batch_rows(calls, replies, routed.len()),
        m.stats.matches == batch_stats(replies).0,
        m.rank_stats == batch_stats(replies).1,
        m.shard_result_bytes == batch_stats(replies).2,
{
}

} // verus!
