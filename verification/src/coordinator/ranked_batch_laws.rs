//! A batch answers each of its titles as a request for that title alone would.
use crate::coordinator::ranked::{
    all_rows, first_repeat, lemma_replies_fault, part_fault, ranked_of, replies_fault, reply_parts,
    row_ids, well_formed, ClusterRankedMatch, PartView,
};
use crate::coordinator::ranked_batch::{
    batch_fault, batch_of, batch_repeat, batch_reply_fault, call_parts, calls_for,
    law_each_routed_position_contributes_once, title_fault, title_parts, CallView,
    ClusterBatchRankedMatch, RouteView,
};
use crate::order::{lemma_strictly_ascending_unique, strictly_ascending};
use crate::rank::{ShardBatchRankedMatch, ShardRankedMatch, ShardTitleResult, TopKOptions};
use vstd::prelude::*;

verus! {

/// The shards answer the title at `t` of the batch with the rows and the total that they give to a
/// request for it alone. (Their counters may differ.)
pub open spec fn same_answers(
    calls: Seq<CallView>,
    replies: Seq<ShardBatchRankedMatch>,
    single: Seq<(u32, ShardRankedMatch)>,
    t: int,
) -> bool {
    forall|c: int, k: int, j: int|
        #![trigger calls[c].titles[k], single[j]]
        0 <= c < calls.len() && 0 <= k < calls[c].titles.len() && 0 <= j < single.len()
            && calls[c].titles[k] == t && calls[c].position == single[j].0
            ==> replies[c].titles@[k].hits@ == single[j].1.hits@
            && replies[c].titles@[k].total_hits == single[j].1.total_hits
}

/// Where a position stands.
pub open spec fn by_position() -> spec_fn(u32) -> int {
    |p: u32| p as int
}

/// The part is the answer of call `c` to its title at `k`, and that title is the one at `t`.
spec fn comes_from(
    p: PartView,
    calls: Seq<CallView>,
    replies: Seq<ShardBatchRankedMatch>,
    t: int,
    c: int,
    k: int,
) -> bool {
    &&& 0 <= c < calls.len()
    &&& 0 <= k < calls[c].titles.len()
    &&& calls[c].titles[k] == t
    &&& p.position == calls[c].position
    &&& p.hits == replies[c].titles@[k].hits@
    &&& p.total == replies[c].titles@[k].total_hits
}

proof fn lemma_call_part_origin(
    call: CallView,
    titles: Seq<ShardTitleResult>,
    n: nat,
    t: int,
    i: int,
) -> (k: int)
    requires
        n <= call.titles.len(),
        0 <= i < call_parts(call, titles, n, t).len(),
    ensures
        0 <= k < n,
        call.titles[k] == t,
        call_parts(call, titles, n, t)[i] == (PartView {
            position: call.position,
            hits: titles[k].hits@,
            total: titles[k].total_hits,
        }),
    decreases n,
{
    let before = call_parts(call, titles, (n - 1) as nat, t);
    if i < before.len() {
        lemma_call_part_origin(call, titles, (n - 1) as nat, t, i)
    } else {
        n - 1
    }
}

proof fn lemma_part_origin(
    calls: Seq<CallView>,
    replies: Seq<ShardBatchRankedMatch>,
    t: int,
    i: int,
) -> (r: (int, int))
    requires
        calls.len() == replies.len(),
        0 <= i < title_parts(calls, replies, t).len(),
    ensures
        comes_from(title_parts(calls, replies, t)[i], calls, replies, t, r.0, r.1),
    decreases calls.len(),
{
    let head = title_parts(calls.drop_last(), replies.drop_last(), t);
    let last = calls.len() - 1;
    if i < head.len() {
        let r = lemma_part_origin(calls.drop_last(), replies.drop_last(), t, i);
        assert(calls.drop_last()[r.0] == calls[r.0]);
        assert(replies.drop_last()[r.0] == replies[r.0]);
        r
    } else {
        let k = lemma_call_part_origin(
            calls.last(),
            replies.last().titles@,
            calls.last().titles.len(),
            t,
            i - head.len(),
        );
        (last, k)
    }
}

proof fn lemma_title_fault(call: CallView, size: usize, titles: Seq<ShardTitleResult>, from: nat, k: int)
    requires
        title_fault(call, size, titles, from) is None,
        from <= k < titles.len(),
    ensures
        part_fault(call.position as usize, size, titles[k].hits@) is None,
    decreases titles.len() - from,
{
    if from < k {
        lemma_title_fault(call, size, titles, from + 1, k);
    }
}

proof fn lemma_batch_fault(
    calls: Seq<CallView>,
    size: usize,
    replies: Seq<ShardBatchRankedMatch>,
    c: int,
    k: int,
)
    requires
        calls.len() == replies.len(),
        batch_fault(calls, size, replies) is None,
        0 <= c < calls.len(),
        0 <= k < calls[c].titles.len(),
    ensures
        part_fault(calls[c].position as usize, size, replies[c].titles@[k].hits@) is None,
    decreases calls.len(),
{
    if c < calls.len() - 1 {
        assert(calls.drop_last()[c] == calls[c]);
        assert(replies.drop_last()[c] == replies[c]);
        lemma_batch_fault(calls.drop_last(), size, replies.drop_last(), c, k);
    } else {
        assert(batch_reply_fault(calls[c], size, replies[c]) is None);
        lemma_title_fault(calls[c], size, replies[c].titles@, 0, k);
    }
}

proof fn lemma_batch_repeat(
    calls: Seq<CallView>,
    replies: Seq<ShardBatchRankedMatch>,
    n: nat,
    t: int,
)
    requires
        batch_repeat(calls, replies, n) is None,
        0 <= t < n,
    ensures
        first_repeat(row_ids(all_rows(title_parts(calls, replies, t)))) is None,
    decreases n,
{
    if t < n - 1 {
        lemma_batch_repeat(calls, replies, (n - 1) as nat, t);
    }
}

/// What a batch gathers for a title is what a request for that title alone gathers: the same parts
/// from the same positions, in the same order.
pub proof fn law_batch_gathers_what_one_request_gathers(
    routes: Seq<RouteView>,
    num_shards: u32,
    replies: Seq<ShardBatchRankedMatch>,
    single: Seq<(u32, ShardRankedMatch)>,
    t: int,
)
    requires
        routes.len() <= usize::MAX,
        0 <= t < routes.len(),
        strictly_ascending(routes[t].targets, by_position()),
        forall|j: int|
            0 <= j < routes[t].targets.len() ==> (#[trigger] routes[t].targets[j]) < num_shards,
        replies.len() == calls_for(routes, num_shards as nat).len(),
        single.len() == routes[t].targets.len(),
        forall|j: int| 0 <= j < single.len() ==> (#[trigger] single[j]).0 == routes[t].targets[j],
        same_answers(calls_for(routes, num_shards as nat), replies, single, t),
    ensures
        title_parts(calls_for(routes, num_shards as nat), replies, t) == reply_parts(single),
{
    let calls = calls_for(routes, num_shards as nat);
    let parts = title_parts(calls, replies, t);
    let targets = routes[t].targets;
    law_each_routed_position_contributes_once(routes, num_shards as nat, replies, t);
    let positions = Seq::new(parts.len(), |i: int| parts[i].position);
    assert(strictly_ascending(positions, by_position()));
    assert forall|p: u32| #[trigger] positions.contains(p) <==> targets.contains(p) by {
        if positions.contains(p) {
            let i = choose|i: int| 0 <= i < positions.len() && positions[i] == p;
            assert(parts[i].position == p);
            assert(routes[t].targets.contains(p));
        }
        if targets.contains(p) {
            let j = choose|j: int| 0 <= j < targets.len() && targets[j] == p;
            assert(targets[j] < num_shards);
            assert(routes[t].targets.contains(p));
            let i = choose|i: int| 0 <= i < parts.len() && (#[trigger] parts[i]).position == p;
            assert(positions[i] == p);
        }
    }
    lemma_strictly_ascending_unique(positions, targets, by_position());
    assert(parts.len() == single.len());
    assert forall|i: int| 0 <= i < parts.len() implies #[trigger] parts[i] == reply_parts(
        single,
    )[i] by {
        let (c, k) = lemma_part_origin(calls, replies, t, i);
        assert(positions[i] == targets[i]);
        assert(single[i].0 == parts[i].position);
        assert(calls[c].titles[k] == t);
    }
    assert(parts =~= reply_parts(single));
}

/// A batch answers each of its titles exactly as a request for that title alone would: the same
/// hits, in the same order, and the same total; and where the batch is not refused, neither is that
/// request.
pub proof fn law_batch_equals_single_requests(
    routes: Seq<RouteView>,
    num_shards: u32,
    options: TopKOptions,
    routed: Seq<usize>,
    replies: Seq<ShardBatchRankedMatch>,
    batch: ClusterBatchRankedMatch,
    single: Seq<(u32, ShardRankedMatch)>,
    one: ClusterRankedMatch,
    t: int,
)
    requires
        routes.len() <= usize::MAX,
        routed.len() == routes.len(),
        0 <= t < routes.len(),
        routed[t] == routes[t].targets.len(),
        strictly_ascending(routes[t].targets, by_position()),
        forall|j: int|
            0 <= j < routes[t].targets.len() ==> (#[trigger] routes[t].targets[j]) < num_shards,
        replies.len() == calls_for(routes, num_shards as nat).len(),
        batch_fault(calls_for(routes, num_shards as nat), options.size, replies) is None,
        batch_repeat(calls_for(routes, num_shards as nat), replies, routes.len()) is None,
        batch_of(batch, options, routed, calls_for(routes, num_shards as nat), replies),
        single.len() == routes[t].targets.len(),
        forall|j: int| 0 <= j < single.len() ==> (#[trigger] single[j]).0 == routes[t].targets[j],
        same_answers(calls_for(routes, num_shards as nat), replies, single, t),
        ranked_of(one, options, single),
    ensures
        batch.titles@.len() == routes.len(),
        replies_fault(options.size, reply_parts(single)) is None,
        batch.titles@[t].hits@ == one.hits@,
        batch.titles@[t].total_hits == one.total_hits,
        batch.titles@[t].routed_shards == one.routed_shards,
{
    let calls = calls_for(routes, num_shards as nat);
    law_batch_gathers_what_one_request_gathers(routes, num_shards, replies, single, t);
    let parts = title_parts(calls, replies, t);
    assert(well_formed(options.size, parts)) by {
        assert forall|i: int| 0 <= i < parts.len() implies part_fault(
            (#[trigger] parts[i]).position as usize,
            options.size,
            parts[i].hits,
        ) is None by {
            let (c, k) = lemma_part_origin(calls, replies, t, i);
            lemma_batch_fault(calls, options.size, replies, c, k);
        }
    }
    lemma_batch_repeat(calls, replies, routes.len(), t);
    lemma_replies_fault(options.size, parts);
    assert(batch.titles@[t].hits@ == one.hits@);
}

} // verus!
