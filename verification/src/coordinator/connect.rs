//! Attaching a coordinator to remote shards: what it needs, and which connection brings a node the
//! dictionary.
use crate::coordinator::config::{ClusterConfig, ShardGroup};
use crate::endpoint::has_text;
use crate::shard::{ShardError, ShardErrorView};
use crate::text::{decimal, push_decimal, texts, with_number};
use vstd::prelude::*;

verus! {

/// One shard to connect to.
pub struct Slot {
    /// The position it serves.
    pub position: usize,
    pub endpoint: String,
    /// Whether this connection brings the node the dictionary; a later one to the same node only
    /// adds a shard.
    pub adopts: bool,
}

/// A shard to connect to, as a mathematical value.
pub ghost struct SlotView {
    pub position: nat,
    pub endpoint: Seq<char>,
    pub adopts: bool,
}

impl View for Slot {
    type V = SlotView;

    open spec fn view(&self) -> SlotView {
        SlotView {
            position: self.position as nat,
            endpoint: self.endpoint@,
            adopts: self.adopts,
        }
    }
}

/// Slots as mathematical values.
pub open spec fn slot_views(s: Seq<Slot>) -> Seq<SlotView> {
    s.map_values(|x: Slot| x@)
}

/// The positions and endpoints in the order of connecting.
pub open spec fn wanted(s: Seq<SlotView>) -> Seq<(nat, Seq<char>)> {
    s.map_values(|x: SlotView| (x.position, x.endpoint))
}

/// Whether an endpoint comes among the first `n`.
pub open spec fn seen(want: Seq<(nat, Seq<char>)>, n: int, endpoint: Seq<char>) -> bool {
    exists|j: int| 0 <= j < n && (#[trigger] want[j]).1 == endpoint
}

/// The connections for positions and endpoints: the first to each node brings the dictionary.
pub open spec fn slots_for(want: Seq<(nat, Seq<char>)>) -> Seq<SlotView> {
    Seq::new(
        want.len(),
        |i: int|
            SlotView {
                position: want[i].0,
                endpoint: want[i].1,
                adopts: !seen(want, i, want[i].1),
            },
    )
}

/// One endpoint per position.
pub open spec fn one_each(endpoints: Seq<Seq<char>>) -> Seq<(nat, Seq<char>)> {
    Seq::new(endpoints.len(), |i: int| (i as nat, endpoints[i]))
}

/// The endpoints of one position: the primary, then the replicas.
pub open spec fn members(position: nat, g: ShardGroup) -> Seq<(nat, Seq<char>)> {
    seq![(position, g.primary@)] + texts(g.replicas@).map_values(|e: Seq<char>| (position, e))
}

/// The endpoints of every position, in order.
pub open spec fn all_members(groups: Seq<ShardGroup>) -> Seq<(nat, Seq<char>)>
    decreases groups.len(),
{
    if groups.len() == 0 {
        Seq::empty()
    } else {
        all_members(groups.drop_last()) + members((groups.len() - 1) as nat, groups.last())
    }
}

/// Adds the connection for one more position and endpoint.
fn add_slot(slots: &mut Vec<Slot>, adopted: &mut Vec<String>, position: usize, endpoint: &String)
    requires
        forall|t: Seq<char>| #[trigger]
            texts(old(adopted)@).contains(t) <==> seen(
                wanted(slot_views(old(slots)@)),
                old(slots)@.len() as int,
                t,
            ),
    ensures
        forall|t: Seq<char>| #[trigger]
            texts(final(adopted)@).contains(t) <==> seen(
                wanted(slot_views(final(slots)@)),
                final(slots)@.len() as int,
                t,
            ),
        slot_views(final(slots)@) == slot_views(old(slots)@).push(
            SlotView {
                position: position as nat,
                endpoint: endpoint@,
                adopts: !seen(
                    wanted(slot_views(old(slots)@)),
                    old(slots)@.len() as int,
                    endpoint@,
                ),
            },
        ),
{
    let ghost was = slot_views(slots@);
    let ghost had = texts(adopted@);
    let adopts = !has_text(adopted, endpoint);
    if adopts {
        adopted.push(endpoint.clone());
        assert(texts(adopted@) =~= had.push(endpoint@));
    }
    slots.push(Slot { position, endpoint: endpoint.clone(), adopts });
    proof {
        let now = slot_views(slots@);
        let added = SlotView { position: position as nat, endpoint: endpoint@, adopts };
        assert(now =~= was.push(added));
        let w = wanted(was);
        let n = wanted(now);
        assert(n =~= w.push((position as nat, endpoint@)));
        assert forall|t: Seq<char>| #[trigger]
            texts(adopted@).contains(t) <==> seen(n, now.len() as int, t) by {
            lemma_seen_push(w, (position as nat, endpoint@), t);
            if adopts {
                lemma_push_contains(had, endpoint@, t);
            }
            assert(had.contains(t) <==> seen(w, was.len() as int, t));
        }
    }
}

proof fn lemma_push_contains<A>(s: Seq<A>, x: A, t: A)
    ensures
        s.push(x).contains(t) <==> s.contains(t) || t == x,
{
    if s.contains(t) {
        let i = choose|i: int| 0 <= i < s.len() && s[i] == t;
        assert(s.push(x)[i] == t);
    }
    assert(s.push(x)[s.len() as int] == x);
    if s.push(x).contains(t) && t != x {
        let i = choose|i: int| 0 <= i < s.push(x).len() && s.push(x)[i] == t;
        assert(s[i] == t);
    }
}

proof fn lemma_seen_push(w: Seq<(nat, Seq<char>)>, x: (nat, Seq<char>), t: Seq<char>)
    ensures
        seen(w.push(x), w.len() as int + 1, t) <==> seen(w, w.len() as int, t) || t == x.1,
{
    let p = w.push(x);
    if seen(w, w.len() as int, t) {
        let j = choose|j: int| 0 <= j < w.len() && (#[trigger] w[j]).1 == t;
        assert(p[j].1 == t);
    }
    assert(p[w.len() as int].1 == x.1);
    if seen(p, w.len() as int + 1, t) && t != x.1 {
        let j = choose|j: int| 0 <= j < w.len() + 1 && (#[trigger] p[j]).1 == t;
        assert(w[j].1 == t);
    }
}

proof fn lemma_slots_push(w: Seq<(nat, Seq<char>)>, x: (nat, Seq<char>))
    ensures
        slots_for(w.push(x)) == slots_for(w).push(
            SlotView { position: x.0, endpoint: x.1, adopts: !seen(w, w.len() as int, x.1) },
        ),
        wanted(slots_for(w)) == w,
{
    let p = w.push(x);
    assert(wanted(slots_for(w)) =~= w);
    assert forall|i: int, t: Seq<char>| 0 <= i <= w.len() implies #[trigger] seen(p, i, t) == seen(
        w,
        i,
        t,
    ) by {
        if seen(p, i, t) {
            let j = choose|j: int| 0 <= j < i && (#[trigger] p[j]).1 == t;
            assert(w[j].1 == t);
        }
        if seen(w, i, t) {
            let j = choose|j: int| 0 <= j < i && (#[trigger] w[j]).1 == t;
            assert(p[j].1 == t);
        }
    }
    assert(slots_for(p) =~= slots_for(w).push(
        SlotView { position: x.0, endpoint: x.1, adopts: !seen(w, w.len() as int, x.1) },
    ));
}

/// The id of a coordinator that holds its shards alone must not be zero.
pub fn check_exclusive(coordinator_id: u64) -> (r: Result<(), ShardError>)
    ensures
        match r {
            Ok(_) => coordinator_id != 0,
            Err(e) => coordinator_id == 0 && e@ == ShardErrorView::Config(
                "exclusive remote coordinator id must be non-zero"@,
            ),
        },
{
    if coordinator_id == 0 {
        Err(
            ShardError::Config(
                String::from_str("exclusive remote coordinator id must be non-zero"),
            ),
        )
    } else {
        Ok(())
    }
}

/// The connections of a cluster with one remote shard per position, or why there are none.
pub fn plan_remote(config: &ClusterConfig, endpoints: &Vec<String>) -> (r: Result<
    Vec<Slot>,
    ShardError,
>)
    ensures
        match r {
            Ok(v) => {
                &&& endpoints@.len() == config.num_shards
                &&& config.replication_factor <= 1
                &&& slot_views(v@) == slots_for(one_each(texts(endpoints@)))
            },
            Err(e) => if endpoints@.len() != config.num_shards {
                e@ == ShardErrorView::Config(
                    "connect_remote needs exactly one endpoint per shard: got "@ + decimal(
                        endpoints@.len(),
                    ) + " endpoints for "@ + decimal(config.num_shards as nat) + " shards"@,
                )
            } else {
                config.replication_factor > 1 && e@ == ShardErrorView::Config(
                    "connect_remote does not support replication_factor > 1; remote per-shard replication is clustering step 4b (ADR-036)"@,
                )
            },
        },
{
    let n: usize = endpoints.len();
    if n != config.num_shards {
        let mut m = with_number(
            "connect_remote needs exactly one endpoint per shard: got ",
            n as u64,
            " endpoints for ",
        );
        push_decimal(&mut m, config.num_shards as u64);
        m.append(" shards");
        return Err(ShardError::Config(m));
    }
    if config.replication_factor > 1 {
        return Err(
            ShardError::Config(
                String::from_str(
                    "connect_remote does not support replication_factor > 1; remote per-shard replication is clustering step 4b (ADR-036)",
                ),
            ),
        );
    }
    let ghost want = one_each(texts(endpoints@));
    let mut slots: Vec<Slot> = Vec::new();
    let mut adopted: Vec<String> = Vec::new();
    let mut i: usize = 0;
    proof {
        assert(slot_views(slots@) =~= slots_for(want.take(0)));
    }
    while i < n
        invariant
            n == endpoints@.len(),
            i <= n,
            want == one_each(texts(endpoints@)),
            slot_views(slots@) == slots_for(want.take(i as int)),
            forall|t: Seq<char>| #[trigger]
                texts(adopted@).contains(t) <==> seen(
                    wanted(slot_views(slots@)),
                    slots@.len() as int,
                    t,
                ),
        decreases n - i,
    {
        let ghost w = want.take(i as int);
        proof {
            lemma_slots_push(w, want[i as int]);
            assert(want.take(i + 1) =~= w.push(want[i as int]));
            assert(slot_views(slots@).len() == slots@.len());
        }
        add_slot(&mut slots, &mut adopted, i, &endpoints[i]);
        i = i + 1;
    }
    assert(want.take(n as int) =~= want);
    Ok(slots)
}

/// The connections of a cluster with a group of remote shards per position, or why there are none.
/// The members of a position follow each other, the primary first.
pub fn plan_replicated(num_shards: usize, groups: &Vec<ShardGroup>) -> (r: Result<
    Vec<Slot>,
    ShardError,
>)
    ensures
        match r {
            Ok(v) => groups@.len() == num_shards && slot_views(v@) == slots_for(
                all_members(groups@),
            ),
            Err(e) => groups@.len() != num_shards && e@ == ShardErrorView::Config(
                "connect_replicated needs one ShardGroup per shard: got "@ + decimal(groups@.len())
                    + " for "@ + decimal(num_shards as nat) + " shards"@,
            ),
        },
{
    let n: usize = groups.len();
    if n != num_shards {
        let mut m = with_number(
            "connect_replicated needs one ShardGroup per shard: got ",
            n as u64,
            " for ",
        );
        push_decimal(&mut m, num_shards as u64);
        m.append(" shards");
        return Err(ShardError::Config(m));
    }
    let mut slots: Vec<Slot> = Vec::new();
    let mut adopted: Vec<String> = Vec::new();
    let mut i: usize = 0;
    proof {
        assert(groups@.take(0) =~= Seq::empty());
        assert(slot_views(slots@) =~= slots_for(all_members(groups@.take(0))));
    }
    while i < n
        invariant
            n == groups@.len(),
            i <= n,
            slot_views(slots@) == slots_for(all_members(groups@.take(i as int))),
            forall|t: Seq<char>| #[trigger]
                texts(adopted@).contains(t) <==> seen(
                    wanted(slot_views(slots@)),
                    slots@.len() as int,
                    t,
                ),
        decreases n - i,
    {
        let g = &groups[i];
        let ghost base = all_members(groups@.take(i as int));
        let ghost own = members(i as nat, *g);
        proof {
            lemma_slots_push(base, own[0]);
            assert(slot_views(slots@).len() == slots@.len());
            assert(own[0] == (i as nat, g.primary@));
            assert(base + own.take(1) =~= base.push(own[0]));
        }
        add_slot(&mut slots, &mut adopted, i, &g.primary);
        let m: usize = g.replicas.len();
        let mut k: usize = 0;
        while k < m
            invariant
                m == g.replicas@.len(),
                k <= m,
                own == members(i as nat, *g),
                slot_views(slots@) == slots_for(base + own.take(k + 1)),
                forall|t: Seq<char>| #[trigger]
                    texts(adopted@).contains(t) <==> seen(
                        wanted(slot_views(slots@)),
                        slots@.len() as int,
                        t,
                    ),
            decreases m - k,
        {
            let ghost w = base + own.take(k + 1);
            proof {
                assert(own[k + 1] == (i as nat, g.replicas@[k as int]@));
                lemma_slots_push(w, own[k + 1]);
                assert(base + own.take(k + 2) =~= w.push(own[k + 1]));
                assert(slot_views(slots@).len() == slots@.len());
            }
            add_slot(&mut slots, &mut adopted, i, &g.replicas[k]);
            k = k + 1;
        }
        proof {
            assert(own.take(m + 1) =~= own);
            assert(groups@.take(i + 1).drop_last() =~= groups@.take(i as int));
            assert(groups@.take(i + 1).last() == *g);
        }
        i = i + 1;
    }
    assert(groups@.take(n as int) =~= groups@);
    Ok(slots)
}

/// Every node is brought the dictionary once: by the first connection to it, and by no other.
pub proof fn law_each_node_adopts_once(want: Seq<(nat, Seq<char>)>, i: int, j: int)
    requires
        0 <= i < want.len(),
        0 <= j < want.len(),
        want[i].1 == want[j].1,
    ensures
        slots_for(want)[i].adopts && slots_for(want)[j].adopts ==> i == j,
        exists|k: int|
            0 <= k <= i && want[k].1 == want[i].1 && (#[trigger] slots_for(want)[k]).adopts,
    decreases i,
{
    if i < j {
        assert(seen(want, j, want[j].1));
    } else if j < i {
        assert(seen(want, i, want[i].1));
    }
    if seen(want, i, want[i].1) {
        let k = choose|k: int| 0 <= k < i && (#[trigger] want[k]).1 == want[i].1;
        law_each_node_adopts_once(want, k, k);
        let f = choose|f: int|
            0 <= f <= k && want[f].1 == want[k].1 && (#[trigger] slots_for(want)[f]).adopts;
        assert(slots_for(want)[f].adopts);
    } else {
        assert(slots_for(want)[i].adopts);
    }
}

/// Every member of every group is connected at its own position, and nothing else is: the plan has
/// an entry for an endpoint at a position exactly where that position's group names it.
pub proof fn law_every_member_is_connected_at_its_position(
    groups: Seq<ShardGroup>,
    position: nat,
    endpoint: Seq<char>,
)
    ensures
        all_members(groups).contains((position, endpoint)) <==> position < groups.len() && (
        groups[position as int].primary@ == endpoint || exists|k: int|
            0 <= k < groups[position as int].replicas@.len() && (
            #[trigger] groups[position as int].replicas@[k])@ == endpoint),
    decreases groups.len(),
{
    if groups.len() > 0 {
        let d = groups.drop_last();
        let n = (groups.len() - 1) as nat;
        law_every_member_is_connected_at_its_position(d, position, endpoint);
        let b = all_members(d);
        let m = members(n, groups.last());
        let all = all_members(groups);
        let x = (position, endpoint);
        let reps = groups.last().replicas@;
        if position < n {
            assert(d[position as int] == groups[position as int]);
        }
        if all.contains(x) {
            let i = choose|i: int| 0 <= i < all.len() && all[i] == x;
            if i < b.len() {
                assert(b[i] == x);
                assert(b.contains(x));
            } else {
                let k = i - b.len();
                assert(m[k] == x);
                if k > 0 {
                    assert(reps[k - 1]@ == endpoint);
                }
            }
        }
        if b.contains(x) {
            let i = choose|i: int| 0 <= i < b.len() && b[i] == x;
            assert(all[i] == x);
        }
        if position == n {
            if groups.last().primary@ == endpoint {
                assert(m[0] == x);
                assert(all[b.len() as int] == x);
            } else if exists|k: int| 0 <= k < reps.len() && (#[trigger] reps[k])@ == endpoint {
                let k = choose|k: int| 0 <= k < reps.len() && (#[trigger] reps[k])@ == endpoint;
                assert(m[k + 1] == x);
                assert(all[b.len() + k + 1] == x);
            }
        }
    }
}

/// The members of a position follow each other, the primary first, and positions are in order.
pub proof fn law_the_primary_is_connected_first(groups: Seq<ShardGroup>, i: int, j: int)
    requires
        0 <= i < j < all_members(groups).len(),
    ensures
        all_members(groups)[i].0 <= all_members(groups)[j].0,
        i == 0 || all_members(groups)[i - 1].0 < all_members(groups)[i].0 ==> all_members(
            groups,
        )[i].1 == groups[all_members(groups)[i].0 as int].primary@,
        all_members(groups)[j].0 < groups.len(),
    decreases groups.len(),
{
    let d = groups.drop_last();
    let b = all_members(d);
    let all = all_members(groups);
    let n = (groups.len() - 1) as nat;
    lemma_member_positions(d);
    assert forall|k: int| 0 <= k < b.len() implies #[trigger] all[k] == b[k] by {}
    if j < b.len() {
        law_the_primary_is_connected_first(d, i, j);
        assert(groups[b[i].0 as int] == d[b[i].0 as int]);
    } else {
        assert(all[j].0 == n);
        if i < b.len() {
            assert(b[i].0 < n);
            if i + 1 < b.len() {
                law_the_primary_is_connected_first(d, i, i + 1);
            } else {
                lemma_last_member(d);
            }
            assert(groups[b[i].0 as int] == d[b[i].0 as int]);
        } else if i > b.len() {
            assert(all[i - 1].0 == n);
        }
    }
}

proof fn lemma_member_positions(groups: Seq<ShardGroup>)
    ensures
        forall|i: int|
            0 <= i < all_members(groups).len() ==> (#[trigger] all_members(groups)[i]).0
                < groups.len(),
    decreases groups.len(),
{
    if groups.len() > 0 {
        lemma_member_positions(groups.drop_last());
        let b = all_members(groups.drop_last());
        assert forall|i: int| 0 <= i < all_members(groups).len() implies (#[trigger] all_members(
            groups,
        )[i]).0 < groups.len() by {
            if i < b.len() {
                assert(all_members(groups)[i] == b[i]);
            }
        }
    }
}

/// Where the last member starts a position, it is that position's primary.
proof fn lemma_last_member(groups: Seq<ShardGroup>)
    requires
        all_members(groups).len() > 0,
    ensures
        ({
            let all = all_members(groups);
            let i = all.len() - 1;
            i == 0 || all[i - 1].0 < all[i].0 ==> all[i].1 == groups[all[i].0 as int].primary@
        }),
    decreases groups.len(),
{
    let all = all_members(groups);
    let b = all_members(groups.drop_last());
    let m = members((groups.len() - 1) as nat, groups.last());
    let i = all.len() - 1;
    assert(m.len() == groups.last().replicas@.len() + 1);
    if m.len() > 1 {
        assert(all[i - 1] == m[m.len() - 2]);
        assert(all[i] == m[m.len() - 1]);
    } else {
        assert(all[i] == m[0]);
    }
}

/// A connection is to what was asked for, in the order asked, and one per position where each has
/// one endpoint.
pub proof fn law_connections_are_what_was_asked_for(want: Seq<(nat, Seq<char>)>, i: int)
    requires
        0 <= i < want.len(),
    ensures
        slots_for(want).len() == want.len(),
        slots_for(want)[i].position == want[i].0,
        slots_for(want)[i].endpoint == want[i].1,
        slots_for(want)[i].adopts <==> forall|j: int|
            0 <= j < i ==> (#[trigger] want[j]).1 != want[i].1,
{
}

/// One endpoint per position: the first for the first, and so on.
pub proof fn law_each_endpoint_serves_its_own_position(endpoints: Seq<Seq<char>>, i: int)
    requires
        0 <= i < endpoints.len(),
    ensures
        one_each(endpoints).len() == endpoints.len(),
        one_each(endpoints)[i] == (i as nat, endpoints[i]),
{
}

} // verus!
