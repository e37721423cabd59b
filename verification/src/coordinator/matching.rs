//! Where a query is stored, where a title is sent, and how the answers are put together.
//!
//! A query is stored on the shards that own its anchors, or on all of them. A title is sent to the
//! shards that own its features, and to one shard for the broad lane.
use crate::codec::{fnv1a64, fnv1a64_spec};
use crate::order::{
    key_of, lemma_exact, lemma_sorted_set, merge_sort, sort_dedup, sorted_set, strictly_ascending,
    Keyed,
};
use crate::rank::MatchStats;
use crate::shard::ShardError;
use vstd::prelude::*;
use vstd::utf8::encode_utf8;

verus! {

/// A feature of a title: the position that owns it on the ring, and whether it is too common to
/// anchor a query.
#[derive(Clone, Copy, PartialEq, Eq, Debug, Structural)]
pub struct TitleFeature {
    pub owner: usize,
    pub hot: bool,
}

/// The owners of the features that can anchor a query.
pub open spec fn anchor_owners(features: Seq<TitleFeature>) -> Seq<usize> {
    features.filter(|f: TitleFeature| !f.hot).map_values(|f: TitleFeature| f.owner)
}

/// The positions that a title is sent to, and the one that evaluates the broad lane for it. The
/// broad lane is picked by a hash of the title among the positions that are asked anyway.
pub open spec fn route_spec(title: Seq<char>, features: Seq<TitleFeature>, num_shards: usize) -> (
    Seq<usize>,
    usize,
) {
    let h = fnv1a64_spec(encode_utf8(title));
    let targets = sorted_set(anchor_owners(features), key_of::<usize>());
    if targets.len() == 0 {
        let s = (h % (num_shards as u64)) as usize;
        (seq![s], s)
    } else {
        (targets, targets[(h % (targets.len() as u64)) as int])
    }
}

/// Routes a title.
pub fn route(title: &str, features: &Vec<TitleFeature>, num_shards: usize) -> (r: (
    Vec<usize>,
    usize,
))
    requires
        num_shards > 0,
    ensures
        (r.0@, r.1) == route_spec(title@, features@, num_shards),
{
    let ghost hot = |f: TitleFeature| !f.hot;
    let ghost own = |f: TitleFeature| f.owner;
    let n: usize = features.len();
    let mut owners: Vec<usize> = Vec::new();
    let mut i: usize = 0;
    proof {
        reveal(Seq::filter);
        assert(owners@ =~= features@.take(0).filter(hot).map_values(own));
    }
    while i < n
        invariant
            n == features@.len(),
            i <= n,
            hot == (|f: TitleFeature| !f.hot),
            own == (|f: TitleFeature| f.owner),
            owners@ == features@.take(i as int).filter(hot).map_values(own),
        decreases n - i,
    {
        let ghost kept = features@.take(i as int).filter(hot);
        let ghost x = features@[i as int];
        proof {
            crate::seqs::lemma_filter_step(features@, hot, i as int);
            assert(kept.push(x).map_values(own) =~= kept.map_values(own).push(x.owner));
        }
        if !features[i].hot {
            owners.push(features[i].owner);
        }
        i = i + 1;
    }
    assert(features@.take(n as int) =~= features@);
    let mut targets = sort_dedup(&owners);
    let h: u64 = fnv1a64(title.as_bytes());
    let m: usize = targets.len();
    if m == 0 {
        let s: usize = (h % (num_shards as u64)) as usize;
        targets.push(s);
        assert(targets@ =~= seq![s]);
        (targets, s)
    } else {
        let k: usize = (h % (m as u64)) as usize;
        let s: usize = targets[k];
        (targets, s)
    }
}

/// The cost class of a query.
#[derive(Clone, Copy, PartialEq, Eq, Debug, Structural)]
pub enum CostClass {
    A,
    B,
    C,
    D,
}

/// How a query is anchored: its class, and for each anchor the positions that own its features.
#[derive(Clone, Debug)]
pub struct AnchorPlan {
    pub class: CostClass,
    pub anchors: Vec<Vec<usize>>,
    /// Whether the query forbids anything. A query without an anchor that forbids nothing is
    /// empty.
    pub forbids: bool,
}

/// How a query is anchored, as a mathematical value.
pub ghost struct PlanView {
    pub class: CostClass,
    pub anchors: Seq<Seq<usize>>,
    pub forbids: bool,
}

impl View for AnchorPlan {
    type V = PlanView;

    open spec fn view(&self) -> PlanView {
        PlanView {
            class: self.class,
            anchors: anchor_views(self.anchors@),
            forbids: self.forbids,
        }
    }
}

/// Where a query is stored.
#[derive(Clone, Debug, PartialEq, Eq)]
pub enum Target {
    /// Nowhere.
    Reject,
    /// On every shard.
    Replicated,
    /// On these shards, in ascending order.
    Selective(Vec<usize>),
}

/// Where a query is stored, as a mathematical value.
pub ghost enum TargetView {
    Reject,
    Replicated,
    Selective(Seq<usize>),
}

impl View for Target {
    type V = TargetView;

    open spec fn view(&self) -> TargetView {
        match self {
            Target::Reject => TargetView::Reject,
            Target::Replicated => TargetView::Replicated,
            Target::Selective(s) => TargetView::Selective(s@),
        }
    }
}

/// The anchors as mathematical values.
pub open spec fn anchor_views(v: Seq<Vec<usize>>) -> Seq<Seq<usize>> {
    v.map_values(|g: Vec<usize>| g@)
}

/// Where a query is stored. A class-D query has no anchor: it goes everywhere where such queries
/// are accepted, unless it is empty, and is refused otherwise. A class-C query, and one with an
/// anchor of more or less than one feature, goes everywhere; any other goes to the owners of its
/// anchors.
pub open spec fn placement_spec(plan: PlanView, accept_class_d: bool) -> TargetView {
    match plan.class {
        CostClass::D => if accept_class_d && plan.forbids {
            TargetView::Replicated
        } else {
            TargetView::Reject
        },
        CostClass::C => TargetView::Replicated,
        _ => if exists|i: int|
            0 <= i < plan.anchors.len() && (#[trigger] plan.anchors[i]).len() != 1 {
            TargetView::Replicated
        } else if plan.anchors.len() == 0 {
            TargetView::Reject
        } else {
            TargetView::Selective(
                sorted_set(plan.anchors.map_values(|g: Seq<usize>| g[0]), key_of::<usize>()),
            )
        },
    }
}

/// Decides where a query is stored: a new one, where class-D queries may be accepted or not, or,
/// with them accepted, one that was stored already.
pub fn placement_of(plan: &AnchorPlan, accept_class_d: bool) -> (r: Target)
    ensures
        r@ == placement_spec(plan@, accept_class_d),
{
    match plan.class {
        CostClass::D => {
            if accept_class_d && plan.forbids {
                Target::Replicated
            } else {
                Target::Reject
            }
        },
        CostClass::C => Target::Replicated,
        _ => {
            let n: usize = plan.anchors.len();
            let ghost av = anchor_views(plan.anchors@);
            let ghost first = |g: Seq<usize>| g[0];
            let mut owners: Vec<usize> = Vec::new();
            let mut i: usize = 0;
            while i < n
                invariant
                    n == plan.anchors@.len(),
                    av == anchor_views(plan.anchors@),
                    first == (|g: Seq<usize>| g[0]),
                    i <= n,
                    plan.class is A || plan.class is B,
                    forall|k: int| 0 <= k < i ==> (#[trigger] av[k]).len() == 1,
                    owners@ == av.take(i as int).map_values(first),
                decreases n - i,
            {
                assert(av[i as int] == plan.anchors@[i as int]@);
                if plan.anchors[i].len() != 1 {
                    assert(av[i as int].len() != 1);
                    return Target::Replicated;
                }
                owners.push(plan.anchors[i][0]);
                proof {
                    assert(av.take(i + 1) =~= av.take(i as int).push(av[i as int]));
                    assert(owners@ =~= av.take(i + 1).map_values(first));
                }
                i = i + 1;
            }
            assert(av.take(n as int) =~= av);
            let shards = sort_dedup(&owners);
            proof {
                lemma_exact(owners@);
                lemma_sorted_set(owners@, key_of::<usize>());
            }
            if shards.len() == 0 {
                Target::Reject
            } else {
                Target::Selective(shards)
            }
        },
    }
}

/// What became of a query that was added.
#[derive(Debug, Clone, PartialEq, Eq)]
pub enum AddOutcome {
    /// It was stored on these shards.
    Placed { shards: Vec<usize> },
    /// It was stored on every shard.
    Replicated,
    /// It has no feature to be found by, and was stored nowhere.
    RejectedClassD,
    /// Its text does not parse.
    RejectedParse(String),
}

impl AddOutcome {
    /// What becomes of a query, given where it goes or why it does not parse.
    pub fn of(target: Result<Target, String>) -> (r: Self)
        ensures
            match target {
                Ok(Target::Selective(shards)) => r == (AddOutcome::Placed { shards }),
                Ok(Target::Replicated) => r == AddOutcome::Replicated,
                Ok(Target::Reject) => r == AddOutcome::RejectedClassD,
                Err(e) => r == AddOutcome::RejectedParse(e),
            },
    {
        match target {
            Ok(Target::Selective(shards)) => AddOutcome::Placed { shards },
            Ok(Target::Replicated) => AddOutcome::Replicated,
            Ok(Target::Reject) => AddOutcome::RejectedClassD,
            Err(e) => AddOutcome::RejectedParse(e),
        }
    }
}

/// Why a query is refused before it is logged.
#[derive(Clone, Copy, Debug, PartialEq, Eq, Structural)]
pub enum QueryRefusal {
    /// It has more tags than a shard keeps.
    TooManyTags,
    /// One of its compiled columns is longer than a shard's store can count.
    CompiledColumnTooLarge,
}

/// Refuses a query with more tags than a shard keeps.
pub fn check_tag_limit(tags: usize, max_tags: usize) -> (r: Result<(), QueryRefusal>)
    ensures
        r == if tags > max_tags {
            Err::<(), QueryRefusal>(QueryRefusal::TooManyTags)
        } else {
            Ok(())
        },
{
    if tags > max_tags {
        Err(QueryRefusal::TooManyTags)
    } else {
        Ok(())
    }
}

/// Refuses a query one of whose compiled columns overflows the store's count.
pub fn check_column_limit(overflows: bool) -> (r: Result<(), QueryRefusal>)
    ensures
        r == if overflows {
            Err::<(), QueryRefusal>(QueryRefusal::CompiledColumnTooLarge)
        } else {
            Ok(())
        },
{
    if overflows {
        Err(QueryRefusal::CompiledColumnTooLarge)
    } else {
        Ok(())
    }
}

// ---- merging ----

/// The ids that the shards matched, one shard after the other.
pub open spec fn gathered(parts: Seq<(Vec<u64>, MatchStats)>) -> Seq<u64>
    decreases parts.len(),
{
    if parts.len() == 0 {
        Seq::empty()
    } else {
        gathered(parts.drop_last()) + parts.last().0@
    }
}

/// Merges what the probed shards matched: every id once, in ascending order.
pub fn merge_matches(parts: &Vec<(Vec<u64>, MatchStats)>) -> (r: (Vec<u64>, MatchStats))
    requires
        gathered(parts@).len() <= usize::MAX,
    ensures
        r.0@ == sorted_set(gathered(parts@), key_of::<u64>()),
        r.1.matches == r.0@.len() as u32,
{
    let n: usize = parts.len();
    let mut all: Vec<u64> = Vec::new();
    let mut stats = MatchStats::zero();
    let mut i: usize = 0;
    assert(parts@.take(0).len() == 0);
    while i < n
        invariant
            n == parts@.len(),
            i <= n,
            all@ == gathered(parts@.take(i as int)),
        decreases n - i,
    {
        proof {
            assert(parts@.take(i + 1).drop_last() =~= parts@.take(i as int));
        }
        let ghost before = all@;
        let m: usize = parts[i].0.len();
        let ghost mine = parts@[i as int].0@;
        let mut j: usize = 0;
        assert(all@ =~= before + mine.take(0));
        while j < m
            invariant
                i < parts@.len(),
                mine == parts@[i as int].0@,
                m == mine.len(),
                j <= m,
                all@ == before + mine.take(j as int),
            decreases m - j,
        {
            all.push(parts[i].0[j]);
            assert(all@ =~= before + mine.take(j + 1));
            j = j + 1;
        }
        assert(mine.take(m as int) =~= mine);
        stats.merge(parts[i].1);
        i = i + 1;
    }
    assert(parts@.take(n as int) =~= parts@);
    let out = sort_dedup(&all);
    stats.matches = out.len() as u32;
    (out, stats)
}

/// An id with its score.
#[derive(Clone, Copy, PartialEq, Eq, Debug, Structural)]
pub struct Scored {
    pub id: u64,
    pub score: i64,
}

impl Keyed for Scored {
    open spec fn key(&self) -> int {
        self.id as int
    }

    fn sort_key(&self) -> (k: u128) {
        self.id as u128
    }
}

/// Merges scored ids by id. Copies of one id carry the same score; where they do not, the score of
/// one of them is kept.
pub fn merge_scored(rows: &Vec<Scored>) -> (r: (Vec<Scored>, MatchStats))
    ensures
        strictly_ascending(r.0@, key_of::<Scored>()),
        forall|x: Scored| #[trigger] r.0@.contains(x) ==> rows@.contains(x),
        forall|x: Scored| #[trigger]
            rows@.contains(x) ==> exists|y: Scored| #[trigger] r.0@.contains(y) && y.id == x.id,
        r.1.matches == r.0@.len() as u32,
{
    broadcast use vstd::seq_lib::group_to_multiset_ensures;

    let s = merge_sort(rows);
    let n: usize = s.len();
    let mut out: Vec<Scored> = Vec::new();
    let mut i: usize = 0;
    while i < n
        invariant
            n == s@.len(),
            i <= n,
            crate::order::ascending(s@, key_of::<Scored>()),
            strictly_ascending(out@, key_of::<Scored>()),
            i > 0 ==> out@.len() > 0 && out@.last().id == s@[i - 1].id,
            i == 0 ==> out@.len() == 0,
            forall|x: Scored| #[trigger] out@.contains(x) ==> s@.contains(x),
            forall|k: int|
                0 <= k < i ==> exists|y: Scored| #[trigger]
                    out@.contains(y) && y.id == (#[trigger] s@[k]).id,
        decreases n - i,
    {
        let x = s[i];
        let ghost before = out@;
        let fresh: bool = i == 0 || s[i - 1].id != x.id;
        if fresh {
            proof {
                if i > 0 {
                    assert(key_of::<Scored>()(s@[i - 1]) <= key_of::<Scored>()(s@[i as int]));
                }
            }
            out.push(x);
            proof {
                assert(out@[out@.len() - 1] == x);
                assert(s@.contains(x));
                assert forall|y: Scored| #[trigger] out@.contains(y) implies s@.contains(y) by {
                    let q = choose|q: int| 0 <= q < out@.len() && out@[q] == y;
                    if q < before.len() {
                        assert(before[q] == y);
                        assert(before.contains(y));
                    }
                }
                assert forall|a: int, b: int| 0 <= a < b < out@.len() implies key_of::<Scored>()(
                    #[trigger] out@[a],
                ) < key_of::<Scored>()(#[trigger] out@[b]) by {
                    if b == before.len() {
                        if a < before.len() - 1 {
                            assert(key_of::<Scored>()(before[a]) < key_of::<Scored>()(
                                before[before.len() - 1],
                            ));
                        }
                    } else {
                        assert(key_of::<Scored>()(before[a]) < key_of::<Scored>()(before[b]));
                    }
                }
            }
        }
        proof {
            assert forall|k: int| 0 <= k < i + 1 implies exists|y: Scored| #[trigger]
                out@.contains(y) && y.id == (#[trigger] s@[k]).id by {
                if k < i {
                    let y = choose|y: Scored| #[trigger] before.contains(y) && y.id == s@[k].id;
                    let q = choose|q: int| 0 <= q < before.len() && before[q] == y;
                    assert(out@[q] == y);
                    assert(out@.contains(y));
                } else if fresh {
                    assert(out@.contains(x));
                } else {
                    let y = out@.last();
                    assert(out@.contains(y));
                    assert(y.id == s@[k].id);
                }
            }
        }
        i = i + 1;
    }
    proof {
        assert forall|x: Scored| #[trigger] s@.contains(x) <==> rows@.contains(x) by {
            assert(s@.contains(x) <==> s@.to_multiset().count(x) > 0);
            assert(rows@.contains(x) <==> rows@.to_multiset().count(x) > 0);
        }
        assert forall|x: Scored| #[trigger] rows@.contains(x) implies exists|y: Scored| #[trigger]
            out@.contains(y) && y.id == x.id by {
            assert(s@.contains(x));
            let k = choose|k: int| 0 <= k < s@.len() && s@[k] == x;
            let y = choose|y: Scored| #[trigger] out@.contains(y) && y.id == s@[k].id;
            assert(out@.contains(y));
        }
    }
    let mut stats = MatchStats::zero();
    stats.matches = out.len() as u32;
    (out, stats)
}

/// The first source that a shard holds; otherwise the first error; otherwise none. A shard that
/// cannot answer makes a lookup fail only if no other holds the id.
pub fn first_source(replies: Vec<Result<Option<String>, ShardError>>) -> (r: Result<
    Option<String>,
    ShardError,
>)
    ensures
        match crate::seqs::find(
            replies@,
            |x: Result<Option<String>, ShardError>| x matches Ok(Some(_)),
        ) {
            Some(x) => r == x,
            None => match crate::seqs::find(
                replies@,
                |x: Result<Option<String>, ShardError>| x is Err,
            ) {
                Some(e) => r == e,
                None => r == Ok::<Option<String>, ShardError>(None),
            },
        },
{
    let ghost all = replies@;
    let ghost held = |x: Result<Option<String>, ShardError>| x matches Ok(Some(_));
    let ghost err = |x: Result<Option<String>, ShardError>| x is Err;
    let mut first: Option<ShardError> = None;
    for x in it: replies.into_iter()
        invariant
            it.seq() == all,
            all == replies@,
            held == (|x: Result<Option<String>, ShardError>| x matches Ok(Some(_))),
            err == (|x: Result<Option<String>, ShardError>| x is Err),
            forall|k: int| 0 <= k < it.index() ==> !held(#[trigger] all[k]),
            match first {
                Some(e) => crate::seqs::find(all, err) == Some(
                    Err::<Option<String>, ShardError>(e),
                ),
                None => forall|k: int| 0 <= k < it.index() ==> !err(#[trigger] all[k]),
            },
    {
        let ghost k = it.index();
        match x {
            Ok(Some(t)) => {
                proof {
                    crate::seqs::lemma_find_at(all, held, k);
                }
                return Ok(Some(t));
            },
            Ok(None) => {},
            Err(e) => {
                if first.is_none() {
                    proof {
                        crate::seqs::lemma_find_at(all, err, k);
                    }
                    first = Some(e);
                }
            },
        }
    }
    proof {
        crate::seqs::lemma_find_none(all, held);
        if first is None {
            crate::seqs::lemma_find_none(all, err);
        }
    }
    match first {
        Some(e) => Err(e),
        None => Ok(None),
    }
}

/// The sum of a list.
pub open spec fn sum_of(v: Seq<usize>) -> nat
    decreases v.len(),
{
    if v.len() == 0 {
        0
    } else {
        sum_of(v.drop_last()) + v.last() as nat
    }
}

/// The number of stored queries over all shards, copies counted each.
pub fn total_queries(counts: &Vec<usize>) -> (r: usize)
    requires
        sum_of(counts@) <= usize::MAX,
    ensures
        r == sum_of(counts@),
{
    let n: usize = counts.len();
    let mut t: usize = 0;
    let mut i: usize = 0;
    assert(counts@.take(0).len() == 0);
    while i < n
        invariant
            n == counts@.len(),
            i <= n,
            t == sum_of(counts@.take(i as int)),
            sum_of(counts@) <= usize::MAX,
        decreases n - i,
    {
        proof {
            assert(counts@.take(i + 1).drop_last() =~= counts@.take(i as int));
            lemma_sum_prefix(counts@, i + 1);
        }
        t = t + counts[i];
        i = i + 1;
    }
    assert(counts@.take(n as int) =~= counts@);
    t
}

proof fn lemma_sum_prefix(v: Seq<usize>, n: int)
    requires
        0 <= n <= v.len(),
    ensures
        sum_of(v.take(n)) <= sum_of(v),
    decreases v.len() - n,
{
    if n < v.len() {
        assert(v.take(n + 1).drop_last() =~= v.take(n));
        lemma_sum_prefix(v, n + 1);
    } else {
        assert(v.take(n) =~= v);
    }
}

/// The entries of one class over all shards.
pub open spec fn class_sum(v: Seq<[u64; 4]>, class: int) -> nat
    decreases v.len(),
{
    if v.len() == 0 {
        0
    } else {
        class_sum(v.drop_last(), class) + v.last()[class] as nat
    }
}

/// The entries of each class over all shards.
pub fn class_totals(counts: &Vec<[u64; 4]>) -> (r: [u64; 4])
    requires
        forall|c: int| 0 <= c < 4 ==> #[trigger] class_sum(counts@, c) <= u64::MAX,
    ensures
        forall|c: int| 0 <= c < 4 ==> (#[trigger] r[c]) as nat == class_sum(counts@, c),
{
    let n: usize = counts.len();
    let mut total: [u64; 4] = [0u64, 0u64, 0u64, 0u64];
    let mut i: usize = 0;
    assert(counts@.take(0).len() == 0);
    while i < n
        invariant
            n == counts@.len(),
            i <= n,
            forall|c: int| 0 <= c < 4 ==> #[trigger] class_sum(counts@, c) <= u64::MAX,
            forall|c: int|
                0 <= c < 4 ==> (#[trigger] total[c]) as nat == class_sum(
                    counts@.take(i as int),
                    c,
                ),
        decreases n - i,
    {
        let ghost before = total;
        proof {
            assert(counts@.take(i + 1).drop_last() =~= counts@.take(i as int));
            assert forall|c: int| 0 <= c < 4 implies #[trigger] class_sum(counts@.take(i + 1), c)
                <= u64::MAX by {
                lemma_class_prefix(counts@, c, i + 1);
                assert(class_sum(counts@, c) <= u64::MAX);
            }
        }
        let mut c: usize = 0;
        while c < 4
            invariant
                c <= 4,
                i < counts@.len(),
                counts@.take(i + 1).drop_last() == counts@.take(i as int),
                forall|k: int|
                    0 <= k < 4 ==> #[trigger] class_sum(counts@.take(i + 1), k) <= u64::MAX,
                forall|k: int|
                    0 <= k < 4 ==> (#[trigger] before[k]) as nat == class_sum(
                        counts@.take(i as int),
                        k,
                    ),
                forall|k: int|
                    0 <= k < c ==> (#[trigger] total[k]) as nat == class_sum(
                        counts@.take(i + 1),
                        k,
                    ),
                forall|k: int| c <= k < 4 ==> #[trigger] total[k] == before[k],
            decreases 4 - c,
        {
            let add: u64 = counts[i][c];
            proof {
                assert(total[c as int] == before[c as int]);
                assert(class_sum(counts@.take(i + 1), c as int) <= u64::MAX);
                assert(counts@.take(i + 1).last() == counts@[i as int]);
            }
            let sum: u64 = total[c] + add;
            total[c] = sum;
            c = c + 1;
        }
        i = i + 1;
    }
    assert(counts@.take(n as int) =~= counts@);
    total
}

proof fn lemma_class_prefix(v: Seq<[u64; 4]>, class: int, n: int)
    requires
        0 <= n <= v.len(),
    ensures
        class_sum(v.take(n), class) <= class_sum(v, class),
    decreases v.len() - n,
{
    if n < v.len() {
        assert(v.take(n + 1).drop_last() =~= v.take(n));
        lemma_class_prefix(v, class, n + 1);
    } else {
        assert(v.take(n) =~= v);
    }
}

// ---- laws ----

/// A title is sent somewhere, to each position once, and the broad lane is evaluated on a position
/// that is asked.
pub proof fn law_broad_lane_is_evaluated_on_a_target(
    title: Seq<char>,
    features: Seq<TitleFeature>,
    num_shards: usize,
)
    requires
        num_shards > 0,
        anchor_owners(features).len() <= u64::MAX,
    ensures
        route_spec(title, features, num_shards).0.len() > 0,
        strictly_ascending(route_spec(title, features, num_shards).0, key_of::<usize>()),
        route_spec(title, features, num_shards).0.contains(
            route_spec(title, features, num_shards).1,
        ),
{
    let o = anchor_owners(features);
    lemma_exact(o);
    lemma_sorted_set(o, key_of::<usize>());
    let h = fnv1a64_spec(encode_utf8(title));
    let (t, s) = route_spec(title, features, num_shards);
    if sorted_set(o, key_of::<usize>()).len() == 0 {
        assert(t[0] == s);
    } else {
        let n = t.len() as u64;
        assert(n as int == t.len());
        assert((h % n) < n);
        assert(t[(h % n) as int] == s);
    }
}

/// Every position that owns a feature which can anchor a query is asked.
pub proof fn law_every_anchor_owner_is_asked(
    title: Seq<char>,
    features: Seq<TitleFeature>,
    num_shards: usize,
    f: TitleFeature,
)
    requires
        features.contains(f),
        !f.hot,
    ensures
        route_spec(title, features, num_shards).0.contains(f.owner),
{
    let p = |x: TitleFeature| !x.hot;
    let own = |x: TitleFeature| x.owner;
    crate::seqs::lemma_filter_members(features, p);
    let kept = features.filter(p);
    assert(kept.contains(f));
    let i = choose|i: int| 0 <= i < kept.len() && kept[i] == f;
    let o = anchor_owners(features);
    assert(o[i] == f.owner);
    assert(o.contains(f.owner));
    lemma_exact(o);
    lemma_sorted_set(o, key_of::<usize>());
}

/// A title that carries an anchor of a query reaches a shard that stores the query: the query is
/// not missed.
pub proof fn law_a_title_with_the_anchor_reaches_the_query(
    title: Seq<char>,
    features: Seq<TitleFeature>,
    num_shards: usize,
    plan: PlanView,
    accept_class_d: bool,
    i: int,
    f: TitleFeature,
)
    requires
        placement_spec(plan, accept_class_d) is Selective,
        0 <= i < plan.anchors.len(),
        features.contains(f),
        !f.hot,
        plan.anchors[i].len() == 1 && plan.anchors[i][0] == f.owner,
    ensures
        placement_spec(plan, accept_class_d)->Selective_0.contains(f.owner),
        route_spec(title, features, num_shards).0.contains(f.owner),
{
    law_every_anchor_owner_is_asked(title, features, num_shards, f);
    let o = plan.anchors.map_values(|g: Seq<usize>| g[0]);
    assert(o[i] == f.owner);
    assert(o.contains(f.owner));
    lemma_exact(o);
    lemma_sorted_set(o, key_of::<usize>());
}

/// Placing a stored query anew never drops it: whether or not class-D queries are accepted when it
/// was added and now, one that was stored is stored again, and where it is a class-D query it goes
/// everywhere. An empty query is never stored, so it does not come back either.
pub proof fn law_a_stored_query_survives_a_rebuild(plan: PlanView, accepted_then: bool)
    ensures
        !(placement_spec(plan, accepted_then) is Reject) ==> placement_spec(plan, true)
            == placement_spec(plan, accepted_then),
        plan.class is D && plan.forbids ==> placement_spec(plan, true) is Replicated,
        plan.class is D && !plan.forbids ==> placement_spec(plan, true) is Reject,
        !(plan.class is D) ==> placement_spec(plan, true) == placement_spec(plan, false),
{
}

/// The merged ids are exactly the ids that some shard matched.
pub proof fn law_merge_loses_and_invents_nothing(parts: Seq<(Vec<u64>, MatchStats)>, id: u64)
    ensures
        sorted_set(gathered(parts), key_of::<u64>()).contains(id) <==> exists|i: int|
            0 <= i < parts.len() && (#[trigger] parts[i]).0@.contains(id),
{
    let g = gathered(parts);
    lemma_exact(g);
    lemma_sorted_set(g, key_of::<u64>());
    lemma_gathered_members(parts, id);
}

proof fn lemma_gathered_members(parts: Seq<(Vec<u64>, MatchStats)>, id: u64)
    ensures
        gathered(parts).contains(id) <==> exists|i: int|
            0 <= i < parts.len() && (#[trigger] parts[i]).0@.contains(id),
    decreases parts.len(),
{
    if parts.len() > 0 {
        let d = parts.drop_last();
        lemma_gathered_members(d, id);
        let a = gathered(d);
        let b = parts.last().0@;
        let g = gathered(parts);
        if g.contains(id) {
            let k = choose|k: int| 0 <= k < g.len() && g[k] == id;
            if k < a.len() {
                assert(a[k] == id);
                assert(a.contains(id));
                let i = choose|i: int| 0 <= i < d.len() && (#[trigger] d[i]).0@.contains(id);
                assert(parts[i].0@.contains(id));
            } else {
                assert(b[k - a.len()] == id);
                assert(parts[parts.len() - 1].0@.contains(id));
            }
        }
        if exists|i: int| 0 <= i < parts.len() && (#[trigger] parts[i]).0@.contains(id) {
            let i = choose|i: int| 0 <= i < parts.len() && (#[trigger] parts[i]).0@.contains(id);
            if i < d.len() {
                assert(d[i].0@.contains(id));
                assert(a.contains(id));
                let k = choose|k: int| 0 <= k < a.len() && a[k] == id;
                assert(g[k] == id);
            } else {
                let k = choose|k: int| 0 <= k < b.len() && b[k] == id;
                assert(g[a.len() + k] == id);
            }
        }
    }
}

/// What is placed where. A query goes to a selection of shards only if it has anchors and each of
/// them is a single feature; the shards are then the owners of its anchors, no more and no less, in
/// ascending order. An anchor of several features, or of none, sends it everywhere, whoever owns
/// the features, and so does class C. Nowhere goes only a query without anchors, or one of class D
/// that is not accepted or is empty.
pub proof fn law_only_single_feature_anchors_select_shards(plan: PlanView, accept_class_d: bool)
    ensures
        placement_spec(plan, accept_class_d) matches TargetView::Selective(shards) ==> {
            &&& plan.class is A || plan.class is B
            &&& plan.anchors.len() > 0
            &&& forall|i: int| 0 <= i < plan.anchors.len() ==> (#[trigger] plan.anchors[i]).len() == 1
            &&& strictly_ascending(shards, key_of::<usize>())
            &&& forall|i: int|
                0 <= i < plan.anchors.len() ==> shards.contains(#[trigger] plan.anchors[i][0])
            &&& forall|s: usize| #[trigger]
                shards.contains(s) ==> exists|i: int|
                    0 <= i < plan.anchors.len() && #[trigger] plan.anchors[i][0] == s
        },
        forall|i: int|
            (plan.class is A || plan.class is B) && 0 <= i < plan.anchors.len() && (
            #[trigger] plan.anchors[i]).len() != 1 ==> placement_spec(plan, accept_class_d)
                is Replicated,
        plan.class is C ==> placement_spec(plan, accept_class_d) is Replicated,
        placement_spec(plan, accept_class_d) is Reject <==> {
            ||| plan.class is D && !(accept_class_d && plan.forbids)
            ||| (plan.class is A || plan.class is B) && plan.anchors.len() == 0
        },
{
    let o = plan.anchors.map_values(|g: Seq<usize>| g[0]);
    lemma_exact(o);
    lemma_sorted_set(o, key_of::<usize>());
    if let TargetView::Selective(shards) = placement_spec(plan, accept_class_d) {
        assert forall|i: int| 0 <= i < plan.anchors.len() implies shards.contains(
            #[trigger] plan.anchors[i][0],
        ) by {
            assert(o[i] == plan.anchors[i][0]);
            assert(o.contains(o[i]));
        }
        assert forall|s: usize| #[trigger] shards.contains(s) implies exists|i: int|
            0 <= i < plan.anchors.len() && #[trigger] plan.anchors[i][0] == s by {
            assert(o.contains(s));
            let i = choose|i: int| 0 <= i < o.len() && o[i] == s;
            assert(plan.anchors[i][0] == s);
        }
    }
}

/// A title is sent to the owners of its rare features and to no other shard; a title without any is
/// sent to one shard, which depends on its text alone. Of the shards that it is sent to, the hash
/// of its text picks the one that evaluates the broad lane.
pub proof fn law_a_title_is_sent_where_it_must_be(
    title: Seq<char>,
    features: Seq<TitleFeature>,
    num_shards: usize,
)
    requires
        num_shards > 0,
    ensures
        ({
            let (targets, broad) = route_spec(title, features, num_shards);
            let rare = exists|f: TitleFeature| #[trigger] features.contains(f) && !f.hot;
            let h = fnv1a64_spec(encode_utf8(title));
            &&& rare ==> forall|s: usize| #[trigger]
                targets.contains(s) <==> exists|f: TitleFeature| #[trigger]
                    features.contains(f) && !f.hot && f.owner == s
            &&& !rare ==> targets == seq![(h % (num_shards as u64)) as usize] && targets[0]
                < num_shards
            &&& broad == targets[(h % (targets.len() as u64)) as int]
        }),
{
    let p = |x: TitleFeature| !x.hot;
    let own = |x: TitleFeature| x.owner;
    let kept = features.filter(p);
    let o = anchor_owners(features);
    crate::seqs::lemma_filter_members(features, p);
    lemma_exact(o);
    lemma_sorted_set(o, key_of::<usize>());
    let (targets, broad) = route_spec(title, features, num_shards);
    let h = fnv1a64_spec(encode_utf8(title));
    if exists|f: TitleFeature| #[trigger] features.contains(f) && !f.hot {
        let f = choose|f: TitleFeature| #[trigger] features.contains(f) && !f.hot;
        assert(kept.contains(f));
        assert(kept.len() > 0);
        assert(o.len() == kept.len());
        assert forall|s: usize| #[trigger] targets.contains(s) <==> exists|f: TitleFeature| #[trigger]
            features.contains(f) && !f.hot && f.owner == s by {
            if targets.contains(s) {
                assert(o.contains(s));
                let i = choose|i: int| 0 <= i < o.len() && o[i] == s;
                assert(kept.contains(kept[i]));
                assert(features.contains(kept[i]) && kept[i].owner == s);
            }
            if exists|f: TitleFeature| #[trigger]
                features.contains(f) && !f.hot && f.owner == s {
                let f = choose|f: TitleFeature| #[trigger]
                    features.contains(f) && !f.hot && f.owner == s;
                law_every_anchor_owner_is_asked(title, features, num_shards, f);
            }
        }
    } else {
        if kept.len() > 0 {
            assert(kept.contains(kept[0]));
            assert(features.contains(kept[0]));
        }
        let n = num_shards as u64;
        assert(h % n < n);
        assert(targets.len() == 1);
        assert(h % 1u64 == 0);
    }
}

/// The merged ids are in ascending order, none twice.
pub proof fn law_merged_ids_ascend(parts: Seq<(Vec<u64>, MatchStats)>)
    ensures
        ({
            let ids = sorted_set(gathered(parts), key_of::<u64>());
            forall|i: int, j: int| 0 <= i < j < ids.len() ==> #[trigger] ids[i] < #[trigger] ids[j]
        }),
{
    let g = gathered(parts);
    lemma_exact(g);
    lemma_sorted_set(g, key_of::<u64>());
    let ids = sorted_set(g, key_of::<u64>());
    assert forall|i: int, j: int| 0 <= i < j < ids.len() implies #[trigger] ids[i] < #[trigger] ids[j] by {
        assert(key_of::<u64>()(ids[i]) < key_of::<u64>()(ids[j]));
    }
}

/// Every shard counts once: a total is that of the other shards and what one shard has.
pub proof fn law_every_shard_counts_once(counts: Seq<usize>, i: int)
    requires
        0 <= i < counts.len(),
    ensures
        sum_of(counts) == sum_of(counts.remove(i)) + counts[i],
        sum_of(Seq::<usize>::empty()) == 0,
    decreases counts.len(),
{
    let d = counts.drop_last();
    if i < d.len() {
        law_every_shard_counts_once(d, i);
        assert(counts.remove(i).drop_last() =~= d.remove(i));
        assert(counts.remove(i).last() == counts.last());
    } else {
        assert(counts.remove(i) =~= d);
    }
}

/// The same of the entries of a class.
pub proof fn law_every_shard_counts_once_in_its_class(counts: Seq<[u64; 4]>, class: int, i: int)
    requires
        0 <= class < 4,
        0 <= i < counts.len(),
    ensures
        class_sum(counts, class) == class_sum(counts.remove(i), class) + counts[i][class],
        class_sum(Seq::<[u64; 4]>::empty(), class) == 0,
    decreases counts.len(),
{
    let d = counts.drop_last();
    if i < d.len() {
        law_every_shard_counts_once_in_its_class(d, class, i);
        assert(counts.remove(i).drop_last() =~= d.remove(i));
        assert(counts.remove(i).last() == counts.last());
    } else {
        assert(counts.remove(i) =~= d);
    }
}

} // verus!
