//! Asking several shards at once: which are asked, and what their answers come to.
use crate::coordinator::buckets::{bucket, law_buckets_hold_what_goes_there};
use crate::coordinator::matching::{
    anchor_owners, gathered, law_a_title_with_the_anchor_reaches_the_query,
    law_broad_lane_is_evaluated_on_a_target, merge_matches, placement_spec, route_spec, PlanView,
    TargetView, TitleFeature,
};
use crate::order::{key_of, sorted_set, strictly_ascending};
use crate::rank::MatchStats;
use crate::shard::ShardError;
use vstd::prelude::*;

verus! {

/// The shards that are asked, each with whether it evaluates the broad lane.
pub open spec fn probes_spec(targets: Seq<usize>, broad: usize, include_broad: bool) -> Seq<
    (usize, bool),
> {
    targets.map_values(|s: usize| (s, include_broad && s == broad))
}

/// The shards that are asked, each with whether it evaluates the broad lane.
pub fn probes(targets: &Vec<usize>, broad: usize, include_broad: bool) -> (r: Vec<(usize, bool)>)
    ensures
        r@ == probes_spec(targets@, broad, include_broad),
{
    let n: usize = targets.len();
    let mut r: Vec<(usize, bool)> = Vec::new();
    let mut i: usize = 0;
    while i < n
        invariant
            n == targets@.len(),
            i <= n,
            r@ =~= probes_spec(targets@, broad, include_broad).take(i as int),
        decreases n - i,
    {
        r.push((targets[i], include_broad && targets[i] == broad));
        i = i + 1;
    }
    let ghost all = probes_spec(targets@, broad, include_broad);
    assert(all.take(n as int) =~= all);
    r
}

/// The first error among replies.
pub open spec fn first_failure<T, E>(replies: Seq<Result<T, E>>) -> Option<E>
    decreases replies.len(),
{
    if replies.len() == 0 {
        None
    } else {
        match first_failure(replies.drop_last()) {
            Some(e) => Some(e),
            None => match replies.last() {
                Ok(_) => None,
                Err(e) => Some(e),
            },
        }
    }
}

/// The replies, where every one is an answer; else the first error. A shard that did not answer is
/// never left out: its matches would be missing.
pub fn collect_replies<T, E>(replies: Vec<Result<T, E>>) -> (r: Result<Vec<T>, E>)
    ensures
        match r {
            Ok(v) => first_failure(replies@) is None && v@.len() == replies@.len() && forall|i: int|
                0 <= i < replies@.len() ==> replies@[i] == Ok::<T, E>(#[trigger] v@[i]),
            Err(e) => first_failure(replies@) == Some(e),
        },
{
    let ghost all = replies@;
    let mut out: Vec<T> = Vec::new();
    let mut fault: Option<E> = None;
    assert(all.take(0) =~= Seq::empty());
    for x in it: replies.into_iter()
        invariant
            it.seq() == all,
            fault == first_failure(all.take(it.index())),
            fault is None ==> out@.len() == it.index() && forall|i: int|
                0 <= i < it.index() ==> all[i] == Ok::<T, E>(#[trigger] out@[i]),
    {
        proof {
            let i = it.index();
            assert(all.take(i + 1).drop_last() =~= all.take(i));
            assert(all.take(i + 1).last() == x);
        }
        if fault.is_none() {
            match x {
                Ok(v) => {
                    out.push(v);
                },
                Err(e) => {
                    fault = Some(e);
                },
            }
        }
    }
    assert(all.take(all.len() as int) =~= all);
    match fault {
        None => Ok(out),
        Some(e) => Err(e),
    }
}

/// The ids that the shards answered with, shard by shard.
pub open spec fn answered_ids(replies: Seq<Result<(Vec<u64>, MatchStats), ShardError>>) -> Seq<u64>
    decreases replies.len(),
{
    if replies.len() == 0 {
        Seq::empty()
    } else {
        answered_ids(replies.drop_last()) + match replies.last() {
            Ok(p) => p.0@,
            Err(_) => Seq::empty(),
        }
    }
}

/// The matches of a title from the answers of the shards that were asked: every id once, in order.
pub fn percolated(replies: Vec<Result<(Vec<u64>, MatchStats), ShardError>>) -> (r: Result<
    (Vec<u64>, MatchStats),
    ShardError,
>)
    requires
        answered_ids(replies@).len() <= usize::MAX,
    ensures
        match r {
            Ok((ids, stats)) => {
                &&& first_failure(replies@) is None
                &&& ids@ == sorted_set(answered_ids(replies@), key_of::<u64>())
                &&& stats.matches == ids@.len() as u32
            },
            Err(e) => first_failure(replies@) == Some(e),
        },
{
    let ghost all = replies@;
    match collect_replies(replies) {
        Ok(parts) => {
            proof {
                lemma_gathered(parts@, all);
            }
            Ok(merge_matches(&parts))
        },
        Err(e) => Err(e),
    }
}

proof fn lemma_gathered(
    parts: Seq<(Vec<u64>, MatchStats)>,
    replies: Seq<Result<(Vec<u64>, MatchStats), ShardError>>,
)
    requires
        parts.len() == replies.len(),
        forall|i: int|
            0 <= i < replies.len() ==> replies[i] == Ok::<(Vec<u64>, MatchStats), ShardError>(
                #[trigger] parts[i],
            ),
    ensures
        gathered(parts) == answered_ids(replies),
    decreases parts.len(),
{
    if parts.len() > 0 {
        let p = parts.drop_last();
        let r = replies.drop_last();
        assert forall|i: int| 0 <= i < r.len() implies r[i] == Ok::<
            (Vec<u64>, MatchStats),
            ShardError,
        >(#[trigger] p[i]) by {
            assert(parts[i] == p[i]);
            assert(replies[i] == r[i]);
        }
        lemma_gathered(p, r);
        assert(parts[parts.len() - 1] == parts.last());
    }
}

/// The broad lane is evaluated on exactly one of the shards that are asked, and on none where it is
/// not wanted.
pub proof fn law_broad_lane_is_evaluated_once(targets: Seq<usize>, broad: usize)
    requires
        strictly_ascending(targets, key_of::<usize>()),
        targets.contains(broad),
    ensures
        exists|i: int| 0 <= i < targets.len() && (#[trigger] probes_spec(targets, broad, true)[i]).1,
        forall|i: int, j: int|
            0 <= i < targets.len() && 0 <= j < targets.len() && (#[trigger] probes_spec(
                targets,
                broad,
                true,
            )[i]).1 && (#[trigger] probes_spec(targets, broad, true)[j]).1 ==> i == j,
        forall|i: int|
            0 <= i < targets.len() ==> !(#[trigger] probes_spec(targets, broad, false)[i]).1,
{
    let k = choose|k: int| 0 <= k < targets.len() && targets[k] == broad;
    assert(probes_spec(targets, broad, true)[k].1);
    let key = key_of::<usize>();
    assert forall|i: int, j: int|
        0 <= i < targets.len() && 0 <= j < targets.len() && (#[trigger] probes_spec(
            targets,
            broad,
            true,
        )[i]).1 && (#[trigger] probes_spec(targets, broad, true)[j]).1 implies i == j by {
        if i < j {
            assert(key(targets[i]) < key(targets[j]));
        } else if j < i {
            assert(key(targets[j]) < key(targets[i]));
        }
    }
}

/// No shard boundary drops a match. A stored query is on a shard that is asked about every title
/// that can match it: one that has one of the query's anchors among its rare features, where the
/// query goes to the owners of its anchors, and any title, with the broad lane evaluated, where it
/// goes everywhere.
pub proof fn law_no_shard_boundary_drops_a_match(
    title: Seq<char>,
    features: Seq<TitleFeature>,
    num_shards: usize,
    plan: PlanView,
    accept_class_d: bool,
    load: Seq<Option<TargetView>>,
    q: usize,
    a: int,
    f: TitleFeature,
)
    requires
        num_shards > 0,
        anchor_owners(features).len() <= u64::MAX,
        load.len() <= usize::MAX,
        q < load.len(),
        load[q as int] == Some(placement_spec(plan, accept_class_d)),
        !(placement_spec(plan, accept_class_d) is Reject),
        placement_spec(plan, accept_class_d) is Selective ==> 0 <= a < plan.anchors.len()
            && features.contains(f) && !f.hot && plan.anchors[a][0] == f.owner,
    ensures
        exists|i: int|
            0 <= i < route_spec(title, features, num_shards).0.len() && {
                let ask = #[trigger] probes_spec(
                    route_spec(title, features, num_shards).0,
                    route_spec(title, features, num_shards).1,
                    true,
                )[i];
                &&& bucket(load, ask.0).contains(q)
                &&& placement_spec(plan, accept_class_d) is Replicated ==> ask.1
            },
{
    let (targets, broad) = route_spec(title, features, num_shards);
    let asks = probes_spec(targets, broad, true);
    law_broad_lane_is_evaluated_on_a_target(title, features, num_shards);
    let shard = if placement_spec(plan, accept_class_d) is Replicated {
        broad
    } else {
        law_a_title_with_the_anchor_reaches_the_query(
            title,
            features,
            num_shards,
            plan,
            accept_class_d,
            a,
            f,
        );
        f.owner
    };
    assert(targets.contains(shard));
    let i = choose|i: int| 0 <= i < targets.len() && targets[i] == shard;
    assert(asks[i].0 == shard);
    law_buckets_hold_what_goes_there(load, shard, q);
}

/// Each target is asked, in order, and evaluates the broad lane exactly where that is wanted and it
/// is the one chosen for it.
pub proof fn law_every_target_is_asked(
    targets: Seq<usize>,
    broad: usize,
    include_broad: bool,
    i: int,
)
    requires
        0 <= i < targets.len(),
    ensures
        probes_spec(targets, broad, include_broad).len() == targets.len(),
        probes_spec(targets, broad, include_broad)[i].0 == targets[i],
        probes_spec(targets, broad, include_broad)[i].1 <==> include_broad && targets[i] == broad,
{
}

/// There is no failure exactly where every reply is an answer; otherwise it is the first one.
pub proof fn law_the_first_failure_is_reported<T, E>(replies: Seq<Result<T, E>>, i: int)
    ensures
        first_failure(replies) is None <==> forall|k: int|
            0 <= k < replies.len() ==> (#[trigger] replies[k]) is Ok,
        0 <= i < replies.len() && replies[i] is Err && (forall|k: int|
            0 <= k < i ==> (#[trigger] replies[k]) is Ok) ==> first_failure(replies) == Some(
            replies[i]->Err_0,
        ),
    decreases replies.len(),
{
    if replies.len() > 0 {
        let d = replies.drop_last();
        let n = replies.len() - 1;
        law_the_first_failure_is_reported(d, i);
        assert forall|k: int| 0 <= k < n implies replies[k] == #[trigger] d[k] by {}
        if first_failure(d) is Some {
            let k = choose|k: int| 0 <= k < d.len() && !((#[trigger] d[k]) is Ok);
            assert(!(replies[k] is Ok));
        } else if replies.last() is Ok {
            assert forall|k: int| 0 <= k < replies.len() implies (#[trigger] replies[k]) is Ok by {
                if k < n {
                    assert(d[k] is Ok);
                }
            }
        } else {
            assert(!(replies[n] is Ok));
        }
    }
}

/// What the shards answered with is what each of them answered with, and nothing else.
pub proof fn law_every_answer_counts(
    replies: Seq<Result<(Vec<u64>, MatchStats), ShardError>>,
    x: u64,
)
    ensures
        answered_ids(replies).contains(x) <==> exists|i: int|
            0 <= i < replies.len() && (#[trigger] replies[i] matches Ok(p) && p.0@.contains(x)),
    decreases replies.len(),
{
    if replies.len() > 0 {
        let d = replies.drop_last();
        let n = replies.len() - 1;
        let a = answered_ids(d);
        let b = match replies.last() {
            Ok(p) => p.0@,
            Err(_) => Seq::<u64>::empty(),
        };
        let all = answered_ids(replies);
        law_every_answer_counts(d, x);
        assert forall|k: int| 0 <= k < n implies replies[k] == #[trigger] d[k] by {}
        if all.contains(x) {
            let k = choose|k: int| 0 <= k < all.len() && all[k] == x;
            if k < a.len() {
                assert(a[k] == x);
                assert(a.contains(x));
                let i = choose|i: int|
                    0 <= i < d.len() && (#[trigger] d[i] matches Ok(p) && p.0@.contains(x));
                assert(replies[i] == d[i]);
            } else {
                assert(b[k - a.len()] == x);
                assert(replies[n] is Ok);
            }
        }
        if exists|i: int|
            0 <= i < replies.len() && (#[trigger] replies[i] matches Ok(p) && p.0@.contains(x)) {
            let i = choose|i: int|
                0 <= i < replies.len() && (#[trigger] replies[i] matches Ok(p) && p.0@.contains(x));
            if i < n {
                assert(d[i] == replies[i]);
                assert(a.contains(x));
                let k = choose|k: int| 0 <= k < a.len() && a[k] == x;
                assert(all[k] == x);
            } else {
                let k = choose|k: int| 0 <= k < b.len() && b[k] == x;
                assert(all[a.len() + k] == x);
            }
        }
    }
}

} // verus!
