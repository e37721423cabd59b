//! Loading many queries at once: which shards each goes to, and what is kept where the load stops
//! half way.
use crate::coordinator::logical_ids::LogicalIdDirectory;
use crate::coordinator::matching::{Target, TargetView};
use crate::order::{key_of, strictly_ascending};
use crate::shard::{ShardError, ShardErrorView};
use crate::text::{decimal, with_number};
use std::collections::HashSet;
use vstd::prelude::*;

verus! {

broadcast use vstd::std_specs::hash::group_hash_axioms;

/// A query to load: its id, its version, its text and its tags.
pub type TaggedEntry = (u64, u32, String, Vec<(String, String)>);

/// A copy of a query's tags.
fn copy_tags(tags: &Vec<(String, String)>) -> (r: Vec<(String, String)>)
    ensures
        r@ == tags@,
{
    let n: usize = tags.len();
    let mut r: Vec<(String, String)> = Vec::new();
    let mut i: usize = 0;
    while i < n
        invariant
            n == tags@.len(),
            i <= n,
            r@ =~= tags@.take(i as int),
        decreases n - i,
    {
        r.push((tags[i].0.clone(), tags[i].1.clone()));
        i = i + 1;
    }
    assert(tags@.take(n as int) =~= tags@);
    r
}

/// The queries to load, at their first version, each with the tags at its place; a query past the
/// end of the tags has none.
pub fn ingest_entries(queries: &Vec<(u64, String)>, tags: &Vec<Vec<(String, String)>>) -> (r: Vec<
    TaggedEntry,
>)
    ensures
        r@.len() == queries@.len(),
        forall|i: int|
            0 <= i < queries@.len() ==> {
                let e = #[trigger] r@[i];
                &&& e.0 == queries@[i].0
                &&& e.1 == 1
                &&& e.2@ == queries@[i].1@
                &&& e.3@ == (if i < tags@.len() {
                    tags@[i]@
                } else {
                    Seq::empty()
                })
            },
{
    let n: usize = queries.len();
    let mut r: Vec<TaggedEntry> = Vec::new();
    let mut i: usize = 0;
    while i < n
        invariant
            n == queries@.len(),
            i <= n,
            r@.len() == i,
            forall|k: int|
                0 <= k < i ==> {
                    let e = #[trigger] r@[k];
                    &&& e.0 == queries@[k].0
                    &&& e.1 == 1
                    &&& e.2@ == queries@[k].1@
                    &&& e.3@ == (if k < tags@.len() {
                        tags@[k]@
                    } else {
                        Seq::empty()
                    })
                },
        decreases n - i,
    {
        let own: Vec<(String, String)> = if i < tags.len() {
            copy_tags(&tags[i])
        } else {
            Vec::new()
        };
        assert(i >= tags@.len() ==> own@ =~= Seq::empty());
        r.push((queries[i].0, 1, queries[i].1.clone(), own));
        i = i + 1;
    }
    r
}

/// Whether some query of a load has tags.
pub fn any_tagged(tags: &Vec<Vec<(String, String)>>) -> (r: bool)
    ensures
        r <==> exists|i: int| 0 <= i < tags@.len() && (#[trigger] tags@[i])@.len() > 0,
{
    let n: usize = tags.len();
    let mut i: usize = 0;
    while i < n
        invariant
            n == tags@.len(),
            i <= n,
            forall|k: int| 0 <= k < i ==> (#[trigger] tags@[k])@.len() == 0,
        decreases n - i,
    {
        if tags[i].len() > 0 {
            return true;
        }
        i = i + 1;
    }
    false
}

/// Some entry has this id.
pub open spec fn listed(entries: Seq<TaggedEntry>, logical: u64) -> bool {
    exists|i: int| 0 <= i < entries.len() && (#[trigger] entries[i]).0 == logical
}

/// The first entry of each id, in the order in which they come.
pub open spec fn first_of_each(entries: Seq<TaggedEntry>) -> Seq<TaggedEntry>
    decreases entries.len(),
{
    if entries.len() == 0 {
        Seq::empty()
    } else {
        let before = first_of_each(entries.drop_last());
        if listed(entries.drop_last(), entries.last().0) {
            before
        } else {
            before.push(entries.last())
        }
    }
}

/// The live queries of a cluster, each once, given what its shards hold: a query is on several
/// shards, and the same on each.
pub fn distinct_entries(entries: Vec<TaggedEntry>) -> (r: Vec<TaggedEntry>)
    ensures
        r@ == first_of_each(entries@),
{
    let ghost all = entries@;
    let mut seen: HashSet<u64> = HashSet::new();
    let mut r: Vec<TaggedEntry> = Vec::new();
    assert(all.take(0) =~= Seq::empty());
    for e in it: entries.into_iter()
        invariant
            it.seq() == all,
            r@ == first_of_each(all.take(it.index())),
            forall|x: u64| #[trigger] seen@.contains(x) <==> listed(all.take(it.index()), x),
    {
        let ghost i = it.index();
        let ghost now = all.take(i + 1);
        proof {
            assert(now.drop_last() =~= all.take(i));
            assert(now.last() == e);
            assert forall|x: u64| #[trigger] listed(now, x) <==> (listed(all.take(i), x) || x
                == e.0) by {
                if listed(now, x) {
                    let k = choose|k: int| 0 <= k < now.len() && (#[trigger] now[k]).0 == x;
                    if k < i {
                        assert(all.take(i)[k].0 == x);
                    }
                }
                if listed(all.take(i), x) {
                    let k = choose|k: int| 0 <= k < i && (#[trigger] all.take(i)[k]).0 == x;
                    assert(now[k].0 == x);
                }
                if x == e.0 {
                    assert(now[i].0 == x);
                }
            }
        }
        if !seen.contains(&e.0) {
            seen.insert(e.0);
            r.push(e);
        }
    }
    assert(all.take(all.len() as int) =~= all);
    r
}

/// No query is dropped or kept twice where copies are sorted out, and what is kept is a copy.
pub proof fn law_every_query_is_kept_once(entries: Seq<TaggedEntry>)
    ensures
        forall|x: u64| #[trigger] listed(first_of_each(entries), x) <==> listed(entries, x),
        forall|i: int, j: int|
            0 <= i < j < first_of_each(entries).len() ==> (#[trigger] first_of_each(entries)[i]).0
                != (#[trigger] first_of_each(entries)[j]).0,
        forall|i: int|
            0 <= i < first_of_each(entries).len() ==> entries.contains(
                #[trigger] first_of_each(entries)[i],
            ),
    decreases entries.len(),
{
    if entries.len() > 0 {
        let d = entries.drop_last();
        let before = first_of_each(d);
        let r = first_of_each(entries);
        let n = entries.len() - 1;
        law_every_query_is_kept_once(d);
        assert forall|i: int| 0 <= i < r.len() implies entries.contains(#[trigger] r[i]) by {
            if i < before.len() {
                assert(d.contains(before[i]));
                let k = choose|k: int| 0 <= k < d.len() && d[k] == before[i];
                assert(entries[k] == r[i]);
            } else {
                assert(entries[n] == r[i]);
            }
        }
        assert forall|i: int, j: int| 0 <= i < j < r.len() implies (#[trigger] r[i]).0 != (
        #[trigger] r[j]).0 by {
            if j < before.len() {
                assert(before[i].0 != before[j].0);
            } else {
                assert(before[i].0 == r[i].0);
                assert(listed(before, r[i].0));
            }
        }
        assert forall|x: u64| #[trigger] listed(r, x) <==> listed(entries, x) by {
            if listed(r, x) {
                let i = choose|i: int| 0 <= i < r.len() && (#[trigger] r[i]).0 == x;
                assert(entries.contains(r[i]));
                let k = choose|k: int| 0 <= k < entries.len() && entries[k] == r[i];
                assert(entries[k].0 == x);
            }
            if listed(entries, x) {
                let k = choose|k: int| 0 <= k < entries.len() && (#[trigger] entries[k]).0 == x;
                if k < n {
                    assert(d[k].0 == x);
                    assert(listed(d, x));
                }
                if listed(d, x) {
                    assert(listed(before, x));
                    let i = choose|i: int| 0 <= i < before.len() && (#[trigger] before[i]).0 == x;
                    assert(r[i].0 == x);
                } else {
                    assert(k == n);
                    assert(r[before.len() as int].0 == x);
                }
            }
        }
    }
}

/// Where queries go; nothing for one that does not parse.
pub open spec fn target_views(targets: Seq<Option<Target>>) -> Seq<Option<TargetView>> {
    targets.map_values(
        |t: Option<Target>|
            match t {
                Some(t) => Some(t@),
                None => None,
            },
    )
}

/// Whether a query goes to a shard.
pub open spec fn goes_to(t: Option<TargetView>, shard: usize) -> bool {
    match t {
        Some(TargetView::Replicated) => true,
        Some(TargetView::Selective(shards)) => shards.contains(shard),
        _ => false,
    }
}

/// Whether a query is stored at all.
pub open spec fn accepted(t: Option<TargetView>) -> bool {
    t is Some && !(t->0 is Reject)
}

/// The places, among `targets`, of the queries that go to a shard.
pub open spec fn bucket(targets: Seq<Option<TargetView>>, shard: usize) -> Seq<usize>
    decreases targets.len(),
{
    if targets.len() == 0 {
        Seq::empty()
    } else {
        let before = bucket(targets.drop_last(), shard);
        if goes_to(targets.last(), shard) {
            before.push((targets.len() - 1) as usize)
        } else {
            before
        }
    }
}

/// The ids of the queries that are stored.
pub open spec fn accepted_ids(targets: Seq<Option<TargetView>>, ids: Seq<u64>) -> Seq<u64>
    decreases targets.len(),
{
    if targets.len() == 0 {
        Seq::empty()
    } else {
        let before = accepted_ids(targets.drop_last(), ids);
        if accepted(targets.last()) {
            before.push(ids[targets.len() - 1])
        } else {
            before
        }
    }
}

/// Every chosen shard exists and is chosen once.
pub open spec fn placeable(t: Option<TargetView>, num_shards: usize) -> bool {
    match t {
        Some(TargetView::Selective(shards)) => strictly_ascending(shards, key_of::<usize>())
            && forall|i: int| 0 <= i < shards.len() ==> (#[trigger] shards[i]) < num_shards,
        _ => true,
    }
}

/// The places of the queries that go to each shard, in the order of the load. A query that goes
/// everywhere is in every bucket.
pub fn bucket_by_target(targets: &Vec<Option<Target>>, num_shards: usize) -> (r: Vec<Vec<usize>>)
    requires
        forall|i: int|
            0 <= i < targets@.len() ==> placeable(
                #[trigger] target_views(targets@)[i],
                num_shards,
            ),
    ensures
        r@.len() == num_shards,
        forall|s: usize| s < num_shards ==> (#[trigger] r@[s as int])@ == bucket(target_views(targets@), s),
{
    let ghost tv = target_views(targets@);
    let n: usize = targets.len();
    let mut buckets: Vec<Vec<usize>> = Vec::new();
    let mut s: usize = 0;
    while s < num_shards
        invariant
            s <= num_shards,
            buckets@.len() == s,
            forall|k: int| 0 <= k < s ==> (#[trigger] buckets@[k])@ == Seq::<usize>::empty(),
        decreases num_shards - s,
    {
        let b: Vec<usize> = Vec::new();
        assert(b@ =~= Seq::empty());
        buckets.push(b);
        s = s + 1;
    }
    let mut i: usize = 0;
    assert(tv.take(0) =~= Seq::empty());
    while i < n
        invariant
            n == targets@.len(),
            tv == target_views(targets@),
            i <= n,
            buckets@.len() == num_shards,
            forall|k: int| 0 <= k < n ==> placeable(#[trigger] tv[k], num_shards),
            forall|s: usize|
                s < num_shards ==> (#[trigger] buckets@[s as int])@ == bucket(
                    tv.take(i as int),
                    s,
                ),
        decreases n - i,
    {
        let ghost before = tv.take(i as int);
        let ghost now = tv.take(i + 1);
        proof {
            assert(now.drop_last() =~= before);
            assert(now.last() == tv[i as int]);
            assert(placeable(tv[i as int], num_shards));
        }
        match &targets[i] {
            Some(Target::Replicated) => {
                let mut s: usize = 0;
                while s < num_shards
                    invariant
                        s <= num_shards,
                        buckets@.len() == num_shards,
                        now.drop_last() == before,
                        now.len() == i + 1,
                        now.last() == Some(TargetView::Replicated),
                        forall|k: usize|
                            k < s ==> (#[trigger] buckets@[k as int])@ == bucket(now, k),
                        forall|k: usize|
                            s <= k < num_shards ==> (#[trigger] buckets@[k as int])@ == bucket(
                                before,
                                k,
                            ),
                    decreases num_shards - s,
                {
                    buckets[s].push(i);
                    s = s + 1;
                }
            },
            Some(Target::Selective(shards)) => {
                let m: usize = shards.len();
                let ghost sv = shards@;
                let mut j: usize = 0;
                assert(sv.take(0) =~= Seq::empty());
                while j < m
                    invariant
                        m == shards@.len(),
                        sv == shards@,
                        j <= m,
                        buckets@.len() == num_shards,
                        now.drop_last() == before,
                        now.len() == i + 1,
                        now.last() == Some(TargetView::Selective(sv)),
                        placeable(now.last(), num_shards),
                        forall|k: usize|
                            k < num_shards ==> (#[trigger] buckets@[k as int])@ == (
                            if sv.take(j as int).contains(k) {
                                bucket(before, k).push(i)
                            } else {
                                bucket(before, k)
                            }),
                    decreases m - j,
                {
                    let at: usize = shards[j];
                    let ghost old_buckets = buckets@;
                    proof {
                        assert(sv[j as int] < num_shards);
                        if sv.take(j as int).contains(at) {
                            let p = choose|p: int| 0 <= p < j && sv.take(j as int)[p] == at;
                            assert(key_of::<usize>()(sv[p]) < key_of::<usize>()(sv[j as int]));
                        }
                    }
                    buckets[at].push(i);
                    proof {
                        assert(sv.take(j + 1) =~= sv.take(j as int).push(at));
                        assert forall|k: usize| k < num_shards implies (
                        #[trigger] buckets@[k as int])@ == (if sv.take(j + 1).contains(k) {
                            bucket(before, k).push(i)
                        } else {
                            bucket(before, k)
                        }) by {
                            if k == at {
                                assert(sv.take(j + 1)[j as int] == at);
                            } else {
                                assert(buckets@[k as int] == old_buckets[k as int]);
                                if sv.take(j as int).contains(k) {
                                    let p = choose|p: int|
                                        0 <= p < j && sv.take(j as int)[p] == k;
                                    assert(sv.take(j + 1)[p] == k);
                                }
                                if sv.take(j + 1).contains(k) {
                                    let p = choose|p: int|
                                        0 <= p < j + 1 && #[trigger] sv.take(j + 1)[p] == k;
                                    assert(p < j);
                                    assert(sv.take(j as int)[p] == k);
                                }
                            }
                        }
                    }
                    j = j + 1;
                }
                assert(sv.take(m as int) =~= sv);
            },
            _ => {
                assert(!(tv[i as int] is Some) || tv[i as int]->0 is Reject);
            },
        }
        i = i + 1;
    }
    assert(tv.take(n as int) =~= tv);
    buckets
}

/// The shards that one query goes to, in ascending order.
pub fn target_shards(target: &Target, num_shards: usize) -> (r: Vec<usize>)
    requires
        placeable(Some(target@), num_shards),
    ensures
        strictly_ascending(r@, key_of::<usize>()),
        forall|s: usize| #[trigger]
            r@.contains(s) <==> s < num_shards && goes_to(Some(target@), s),
{
    let mut r: Vec<usize> = Vec::new();
    match target {
        Target::Reject => {},
        Target::Replicated => {
            let mut s: usize = 0;
            while s < num_shards
                invariant
                    s <= num_shards,
                    r@.len() == s,
                    forall|k: int| 0 <= k < s ==> #[trigger] r@[k] == k,
                decreases num_shards - s,
            {
                r.push(s);
                s = s + 1;
            }
            assert forall|x: usize| #[trigger] r@.contains(x) <==> x < num_shards by {
                if x < num_shards {
                    assert(r@[x as int] == x);
                }
            }
        },
        Target::Selective(shards) => {
            let n: usize = shards.len();
            let mut i: usize = 0;
            while i < n
                invariant
                    n == shards@.len(),
                    i <= n,
                    r@ =~= shards@.take(i as int),
                decreases n - i,
            {
                r.push(shards[i]);
                i = i + 1;
            }
            assert(shards@.take(n as int) =~= shards@);
            assert forall|x: usize| #[trigger] r@.contains(x) implies x < num_shards by {
                let k = choose|k: int| 0 <= k < r@.len() && r@[k] == x;
                assert(shards@[k] < num_shards);
            }
        },
    }
    r
}

/// The ids that a load takes before its first write: those of the queries that are stored. Where
/// an id occurs twice, nothing is loaded.
pub fn reserve_ids(targets: &Vec<Option<Target>>, ids: &Vec<u64>) -> (r: Result<
    LogicalIdDirectory,
    ShardError,
>)
    requires
        ids@.len() == targets@.len(),
    ensures
        match r {
            Ok(d) => {
                let all = accepted_ids(target_views(targets@), ids@);
                &&& d.wf()
                &&& d.authoritative
                &&& all.no_duplicates()
                &&& d.ids() == all.to_set()
            },
            Err(e) => exists|d: u64|
                #[trigger] crate::coordinator::logical_ids::occurs_twice(
                    accepted_ids(target_views(targets@), ids@),
                    d,
                ) && e == ShardError::DuplicateLogicalId(d) && forall|x: u64|
                    #[trigger] crate::coordinator::logical_ids::occurs_twice(
                        accepted_ids(target_views(targets@), ids@),
                        x,
                    ) ==> d <= x,
        },
{
    let ghost tv = target_views(targets@);
    let n: usize = targets.len();
    let mut all: Vec<u64> = Vec::new();
    let mut i: usize = 0;
    assert(tv.take(0) =~= Seq::empty());
    while i < n
        invariant
            n == targets@.len(),
            n == ids@.len(),
            tv == target_views(targets@),
            i <= n,
            all@ == accepted_ids(tv.take(i as int), ids@),
        decreases n - i,
    {
        proof {
            assert(tv.take(i + 1).drop_last() =~= tv.take(i as int));
            assert(tv.take(i + 1).last() == tv[i as int]);
        }
        match &targets[i] {
            None => {},
            Some(Target::Reject) => {},
            Some(_) => {
                all.push(ids[i]);
            },
        }
        i = i + 1;
    }
    assert(tv.take(n as int) =~= tv);
    LogicalIdDirectory::from_ids(all)
}

/// A load needs a cluster without queries: on any other it would store them twice.
pub fn check_ingest(num_queries: usize) -> (r: Result<(), ShardError>)
    ensures
        match r {
            Ok(_) => num_queries == 0,
            Err(e) => num_queries > 0 && e@ == ShardErrorView::Config(
                "ingest() requires an empty cluster; it re-indexes from scratch — use add_query for incremental adds"@,
            ),
        },
{
    if num_queries > 0 {
        return Err(
            ShardError::Config(
                String::from_str(
                    "ingest() requires an empty cluster; it re-indexes from scratch — use add_query for incremental adds",
                ),
            ),
        );
    }
    Ok(())
}

/// Records that a shard failed in the middle of a load, and gives the notice. The ids stay taken,
/// since the queries may be stored; but whether every shard agrees is no longer known.
pub fn ingest_failed(ids: &mut LogicalIdDirectory, shard: usize) -> (r: String)
    requires
        old(ids).wf(),
    ensures
        final(ids).wf(),
        final(ids).ids() == old(ids).ids(),
        !final(ids).authoritative,
        r@ == "bulk ingest failed at shard "@ + decimal(shard as nat)
            + "; cluster convergence is unattested"@,
{
    ids.authoritative = false;
    with_number(
        "bulk ingest failed at shard ",
        shard as u64,
        "; cluster convergence is unattested",
    )
}

/// A query is in the bucket of every shard it goes to, and in no other.
pub proof fn law_buckets_hold_what_goes_there(
    targets: Seq<Option<TargetView>>,
    shard: usize,
    i: usize,
)
    requires
        targets.len() <= usize::MAX,
    ensures
        bucket(targets, shard).contains(i) <==> i < targets.len() && goes_to(
            targets[i as int],
            shard,
        ),
    decreases targets.len(),
{
    if targets.len() > 0 {
        let init = targets.drop_last();
        law_buckets_hold_what_goes_there(init, shard, i);
        let before = bucket(init, shard);
        let all = bucket(targets, shard);
        if before.contains(i) {
            let k = choose|k: int| 0 <= k < before.len() && before[k] == i;
            assert(all[k] == i);
        }
        if all.contains(i) && !before.contains(i) {
            let k = choose|k: int| 0 <= k < all.len() && all[k] == i;
            if k < before.len() {
                assert(before[k] == i);
            }
        }
        if i == targets.len() - 1 && goes_to(targets.last(), shard) {
            assert(all[before.len() as int] == i);
        }
    }
}

/// A bucket keeps the order of the load.
pub proof fn law_buckets_keep_the_order(targets: Seq<Option<TargetView>>, shard: usize)
    requires
        targets.len() <= usize::MAX,
    ensures
        strictly_ascending(bucket(targets, shard), key_of::<usize>()),
    decreases targets.len(),
{
    if targets.len() > 0 {
        let init = targets.drop_last();
        law_buckets_keep_the_order(init, shard);
        let before = bucket(init, shard);
        let all = bucket(targets, shard);
        assert forall|i: int, j: int| 0 <= i < j < all.len() implies key_of::<usize>()(
            #[trigger] all[i],
        ) < key_of::<usize>()(#[trigger] all[j]) by {
            if j == before.len() {
                assert(before.contains(before[i]));
                law_buckets_hold_what_goes_there(init, shard, before[i]);
            } else {
                assert(key_of::<usize>()(before[i]) < key_of::<usize>()(before[j]));
            }
        }
    }
}

/// The lane that every shard holds is the same on all of them: a query that goes everywhere is in
/// the buckets of any two shards.
pub proof fn law_replicated_lane_is_on_every_shard(
    targets: Seq<Option<TargetView>>,
    i: usize,
    shard: usize,
)
    requires
        targets.len() <= usize::MAX,
        i < targets.len(),
        targets[i as int] == Some(TargetView::Replicated),
    ensures
        bucket(targets, shard).contains(i),
{
    law_buckets_hold_what_goes_there(targets, shard, i);
}

/// A query that goes everywhere goes to each shard, one that goes to chosen shards to exactly
/// those, and one that is rejected or does not parse to none; and a query is stored exactly where
/// it is of one of the first two sorts.
pub proof fn law_where_a_query_goes(t: Option<TargetView>, shard: usize)
    ensures
        goes_to(t, shard) <==> t == Some(TargetView::Replicated) || (t matches Some(
            TargetView::Selective(shards),
        ) && exists|k: int| 0 <= k < shards.len() && shards[k] == shard),
        accepted(t) <==> t == Some(TargetView::Replicated) || (t matches Some(x) && x is Selective),
{
}

/// The ids that are taken are those of the queries that are stored.
pub proof fn law_the_ids_of_stored_queries_are_taken(
    targets: Seq<Option<TargetView>>,
    ids: Seq<u64>,
    x: u64,
)
    requires
        ids.len() == targets.len(),
    ensures
        accepted_ids(targets, ids).contains(x) <==> exists|i: int|
            0 <= i < targets.len() && accepted(#[trigger] targets[i]) && ids[i] == x,
    decreases targets.len(),
{
    lemma_accepted_ids(targets, ids, x);
}

proof fn lemma_accepted_ids(targets: Seq<Option<TargetView>>, ids: Seq<u64>, x: u64)
    requires
        ids.len() >= targets.len(),
    ensures
        accepted_ids(targets, ids).contains(x) <==> exists|i: int|
            0 <= i < targets.len() && accepted(#[trigger] targets[i]) && ids[i] == x,
    decreases targets.len(),
{
    if targets.len() > 0 {
        let d = targets.drop_last();
        let n = targets.len() - 1;
        let before = accepted_ids(d, ids);
        let all = accepted_ids(targets, ids);
        lemma_accepted_ids(d, ids, x);
        assert forall|k: int| 0 <= k < n implies targets[k] == #[trigger] d[k] by {}
        if all.contains(x) {
            let k = choose|k: int| 0 <= k < all.len() && all[k] == x;
            if k < before.len() {
                assert(before[k] == x);
                assert(before.contains(x));
                let i = choose|i: int| 0 <= i < d.len() && accepted(#[trigger] d[i]) && ids[i] == x;
                assert(targets[i] == d[i]);
            } else {
                assert(accepted(targets[n]));
            }
        }
        if exists|i: int| 0 <= i < targets.len() && accepted(#[trigger] targets[i]) && ids[i] == x {
            let i = choose|i: int|
                0 <= i < targets.len() && accepted(#[trigger] targets[i]) && ids[i] == x;
            if i < n {
                assert(d[i] == targets[i]);
                assert(before.contains(x));
                let k = choose|k: int| 0 <= k < before.len() && before[k] == x;
                assert(all[k] == x);
            } else {
                assert(all[before.len() as int] == x);
            }
        }
    }
}

/// Of the copies of a query the first is kept.
pub proof fn law_the_first_copy_is_kept(entries: Seq<TaggedEntry>, i: int)
    requires
        0 <= i < entries.len(),
        forall|k: int| 0 <= k < i ==> (#[trigger] entries[k]).0 != entries[i].0,
    ensures
        first_of_each(entries).contains(entries[i]),
    decreases entries.len(),
{
    let d = entries.drop_last();
    let f = first_of_each(entries);
    let fd = first_of_each(d);
    if i < d.len() {
        assert forall|k: int| 0 <= k < i implies (#[trigger] d[k]).0 != d[i].0 by {
            assert(entries[k] == d[k]);
        }
        law_the_first_copy_is_kept(d, i);
        let k = choose|k: int| 0 <= k < fd.len() && fd[k] == d[i];
        assert(f[k] == d[i]);
    } else {
        if listed(d, entries.last().0) {
            let k = choose|k: int| 0 <= k < d.len() && (#[trigger] d[k]).0 == entries.last().0;
            assert(entries[k].0 == entries[i].0);
        }
        assert(f[fd.len() as int] == entries[i]);
    }
}

} // verus!
