//! Which nodes hold each shard position.
//!
//! Nodes are ranked for each position by a hash of the pair, and the best ones are taken
//! (rendezvous hashing): every manager computes the same map, and a membership change moves only
//! the positions that it has to.
use crate::codec::{fnv1a64, fnv1a64_spec, le_bytes, push_le32, push_le64};
use crate::control::{assignment_views, AssignmentView, NodeId, ShardAssignment};
use crate::order::{
    injective_on, insertion_sort, key_of, lemma_ascending_unique, lemma_sorted_insert_at,
    lemma_stable_sort, lemma_stable_sort_map, stable_sort, Keyed,
};
use crate::seqs::{find, lemma_filter_map, lemma_filter_step, lemma_find_at, lemma_find_none};
use vstd::prelude::*;

verus! {

/// The weight of placing `position` on `node`; the highest wins.
pub open spec fn hrw_weight_spec(position: u32, node: NodeId) -> u64 {
    fnv1a64_spec(le_bytes(position as nat, 4) + le_bytes(node.0 as nat, 8))
}

/// The weight of placing `position` on `node`.
pub fn hrw_weight(position: u32, node: NodeId) -> (r: u64)
    ensures
        r == hrw_weight_spec(position, node),
{
    let mut b: Vec<u8> = Vec::new();
    push_le32(&mut b, position as u64);
    push_le64(&mut b, node.0);
    assert(b@ =~= le_bytes(position as nat, 4) + le_bytes(node.0 as nat, 8));
    fnv1a64(b.as_slice())
}

/// The rank of a node with this weight: smaller is better. Higher weights come first, and among
/// equal weights lower ids.
pub open spec fn rank(weight: u64, node: NodeId) -> int {
    (u64::MAX - weight) * 0x1_0000_0000_0000_0000 + node.0
}

/// The rank of a node for a position.
pub open spec fn rank_key(position: u32) -> spec_fn(NodeId) -> int {
    |n: NodeId| rank(hrw_weight_spec(position, n), n)
}

/// The nodes from best to worst for a position.
pub open spec fn ranked(position: u32, nodes: Seq<NodeId>) -> Seq<NodeId> {
    stable_sort(nodes, rank_key(position))
}

/// The number of copies: at least one, and no more than there are nodes.
pub open spec fn copies(rf: nat, nodes: nat) -> nat {
    if rf < 1 || nodes <= 1 {
        1
    } else if rf > nodes {
        nodes
    } else {
        rf
    }
}

/// The nodes that hold a position, the primary first.
pub open spec fn group(position: u32, nodes: Seq<NodeId>, rf: nat) -> Seq<NodeId> {
    ranked(position, nodes).take(copies(rf, nodes.len()) as int)
}

/// The assignment of one position.
pub open spec fn planned(position: u32, nodes: Seq<NodeId>, rf: nat) -> AssignmentView {
    let g = group(position, nodes, rf);
    AssignmentView { position, primary: g[0], replicas: g.skip(1) }
}

/// The assignments of all positions, in order.
pub open spec fn plan(nodes: Seq<NodeId>, num_shards: u32, rf: nat) -> Seq<AssignmentView> {
    Seq::new(num_shards as nat, |p: int| planned(p as u32, nodes, rf))
}

/// A node with its weight.
#[derive(Clone, Copy)]
struct Ranked {
    weight: u64,
    node: NodeId,
}

impl Keyed for Ranked {
    closed spec fn key(&self) -> int {
        rank(self.weight, self.node)
    }

    fn sort_key(&self) -> (k: u128) {
        let high: u128 = (u64::MAX - self.weight) as u128;
        assert(high * 0x1_0000_0000_0000_0000 + self.node.0 <= u128::MAX) by (nonlinear_arith)
            requires
                high <= u64::MAX,
                self.node.0 <= u64::MAX,
        ;
        high * 0x1_0000_0000_0000_0000 + self.node.0 as u128
    }
}

fn rank_nodes(position: u32, nodes: &Vec<NodeId>) -> (r: Vec<NodeId>)
    ensures
        r@ == ranked(position, nodes@),
{
    let n: usize = nodes.len();
    let mut v: Vec<Ranked> = Vec::new();
    let mut i: usize = 0;
    while i < n
        invariant
            n == nodes@.len(),
            i <= n,
            v@.len() == i,
            forall|k: int|
                0 <= k < i ==> (#[trigger] v@[k]).node == nodes@[k] && v@[k].weight
                    == hrw_weight_spec(position, nodes@[k]),
        decreases n - i,
    {
        v.push(Ranked { weight: hrw_weight(position, nodes[i]), node: nodes[i] });
        i = i + 1;
    }
    let ghost weigh = |x: NodeId| Ranked { weight: hrw_weight_spec(position, x), node: x };
    assert(v@ =~= nodes@.map_values(weigh));
    insertion_sort(&mut v);
    proof {
        assert forall|x: NodeId| #[trigger] key_of::<Ranked>()(weigh(x)) == rank_key(position)(x) by {}
        lemma_stable_sort_map(nodes@, rank_key(position), weigh, key_of::<Ranked>());
        lemma_stable_sort(nodes@, rank_key(position));
    }
    let mut out: Vec<NodeId> = Vec::new();
    let mut j: usize = 0;
    while j < n
        invariant
            n == nodes@.len(),
            v@ == ranked(position, nodes@).map_values(weigh),
            weigh == (|x: NodeId| Ranked { weight: hrw_weight_spec(position, x), node: x }),
            v@.len() == n,
            j <= n,
            out@ == ranked(position, nodes@).take(j as int),
        decreases n - j,
    {
        out.push(v[j].node);
        j = j + 1;
        assert(out@ =~= ranked(position, nodes@).take(j as int));
    }
    assert(out@ =~= ranked(position, nodes@));
    out
}

/// Plans every shard position over `nodes` at replication factor `rf`.
pub fn plan_assignments(nodes: &Vec<NodeId>, num_shards: u32, rf: usize) -> (r: Vec<
    ShardAssignment,
>)
    requires
        nodes@.len() > 0,
    ensures
        assignment_views(r@) == plan(nodes@, num_shards, rf as nat),
{
    let n: usize = nodes.len();
    let take: usize = if rf < 1 || n <= 1 {
        1
    } else if rf > n {
        n
    } else {
        rf
    };
    let mut out: Vec<ShardAssignment> = Vec::new();
    let mut position: u32 = 0;
    assert(assignment_views(out@) =~= plan(nodes@, 0, rf as nat));
    while position < num_shards
        invariant
            position <= num_shards,
            nodes@.len() > 0,
            n == nodes@.len(),
            take == copies(rf as nat, n as nat),
            assignment_views(out@) == plan(nodes@, position, rf as nat),
        decreases num_shards - position,
    {
        let all = rank_nodes(position, nodes);
        proof {
            lemma_stable_sort(nodes@, rank_key(position));
        }
        let mut replicas: Vec<NodeId> = Vec::new();
        let mut i: usize = 1;
        assert(replicas@ =~= all@.take(1).skip(1));
        while i < take
            invariant
                1 <= i <= take <= all@.len(),
                replicas@ == all@.take(i as int).skip(1),
            decreases take - i,
        {
            replicas.push(all[i]);
            i = i + 1;
            assert(replicas@ =~= all@.take(i as int).skip(1));
        }
        let ghost before = out@;
        out.push(ShardAssignment { position, primary: all[0], replicas });
        proof {
            let a = planned(position, nodes@, rf as nat);
            assert(out@.last()@ =~= a);
            assert(assignment_views(out@) =~= assignment_views(before).push(a));
            assert(plan(nodes@, (position + 1) as u32, rf as nat) =~= plan(
                nodes@,
                position,
                rf as nat,
            ).push(a));
        }
        position = position + 1;
    }
    out
}

/// Is for this position.
pub open spec fn at_position(position: u32) -> spec_fn(AssignmentView) -> bool {
    |a: AssignmentView| a.position == position
}

/// The first entry for a position.
pub open spec fn entry(s: Seq<AssignmentView>, position: u32) -> Option<AssignmentView> {
    find(s, at_position(position))
}

/// Is not what `current` has for its position.
pub open spec fn changed_from(current: Seq<AssignmentView>) -> spec_fn(AssignmentView) -> bool {
    |d: AssignmentView| entry(current, d.position) != Some(d)
}

/// The index of the first entry for a position.
pub fn find_position(s: &Vec<ShardAssignment>, position: u32) -> (r: Option<usize>)
    ensures
        match r {
            Some(i) => i < s@.len() && s@[i as int].position == position && entry(
                assignment_views(s@),
                position,
            ) == Some(s@[i as int]@),
            None => entry(assignment_views(s@), position) is None,
        },
{
    let n: usize = s.len();
    let ghost v = assignment_views(s@);
    let mut i: usize = 0;
    while i < n
        invariant
            n == s@.len(),
            v == assignment_views(s@),
            i <= n,
            forall|k: int| 0 <= k < i ==> !at_position(position)(#[trigger] v[k]),
        decreases n - i,
    {
        assert(v[i as int] == s@[i as int]@);
        if s[i].position == position {
            proof {
                lemma_find_at(v, at_position(position), i as int);
            }
            return Some(i);
        }
        i = i + 1;
    }
    proof {
        lemma_find_none(v, at_position(position));
    }
    None
}

/// The part of `desired` that differs from `current`, compared by position.
pub fn changed_assignments(current: &Vec<ShardAssignment>, desired: Vec<ShardAssignment>) -> (r:
    Vec<ShardAssignment>)
    ensures
        assignment_views(r@) == assignment_views(desired@).filter(
            changed_from(assignment_views(current@)),
        ),
{
    let ghost all = desired@;
    let ghost view = |a: ShardAssignment| a@;
    let ghost keep_view = changed_from(assignment_views(current@));
    let ghost keep = |a: ShardAssignment| keep_view(a@);
    let mut r: Vec<ShardAssignment> = Vec::new();
    proof {
        reveal(Seq::filter);
        assert(r@ =~= all.take(0).filter(keep));
    }
    for d in it: desired.into_iter()
        invariant
            it.seq() == all,
            keep_view == changed_from(assignment_views(current@)),
            keep == (|a: ShardAssignment| keep_view(a@)),
            r@ == all.take(it.index()).filter(keep),
    {
        proof {
            lemma_filter_step(all, keep, it.index());
        }
        let same: bool = match find_position(current, d.position) {
            Some(i) => current[i].same(&d),
            None => false,
        };
        if !same {
            r.push(d);
        }
    }
    proof {
        assert(all.take(all.len() as int) =~= all);
        lemma_filter_map(all, keep, view, keep_view);
    }
    r
}

// ---- laws ----

/// Different nodes have different ranks.
proof fn lemma_rank_injective(position: u32, nodes: Seq<NodeId>)
    ensures
        injective_on(nodes, rank_key(position)),
{
    assert forall|a: NodeId, b: NodeId| #[trigger]
        nodes.contains(a) && #[trigger] nodes.contains(b) && rank_key(position)(a) == rank_key(
            position,
        )(b) implies a == b by {
        let wa = hrw_weight_spec(position, a);
        let wb = hrw_weight_spec(position, b);
        assert(a.0 == b.0) by (nonlinear_arith)
            requires
                (u64::MAX - wa) * 0x1_0000_0000_0000_0000 + a.0 == (u64::MAX - wb)
                    * 0x1_0000_0000_0000_0000 + b.0,
                0 <= a.0 <= u64::MAX,
                0 <= b.0 <= u64::MAX,
        ;
    }
}

/// There is one assignment for each position, in order.
pub proof fn law_plan_covers_every_position(nodes: Seq<NodeId>, num_shards: u32, rf: nat)
    ensures
        plan(nodes, num_shards, rf).len() == num_shards,
        forall|i: int|
            0 <= i < num_shards ==> (#[trigger] plan(nodes, num_shards, rf)[i]).position == i,
{
}

/// A group has as many members as asked for, but at least one and at most one per node; all are
/// nodes of the cluster, and none is a member twice.
pub proof fn law_groups_are_distinct_nodes(position: u32, nodes: Seq<NodeId>, rf: nat)
    requires
        nodes.len() > 0,
        nodes.no_duplicates(),
    ensures
        group(position, nodes, rf).len() == copies(rf, nodes.len()),
        group(position, nodes, rf).no_duplicates(),
        forall|n: NodeId| #[trigger] group(position, nodes, rf).contains(n) ==> nodes.contains(n),
        planned(position, nodes, rf).replicas.len() == copies(rf, nodes.len()) - 1,
        !planned(position, nodes, rf).replicas.contains(planned(position, nodes, rf).primary),
{
    let all = ranked(position, nodes);
    lemma_stable_sort(nodes, rank_key(position));
    nodes.lemma_multiset_has_no_duplicates();
    all.lemma_multiset_has_no_duplicates_conv();
    let g = group(position, nodes, rf);
    assert forall|n: NodeId| #[trigger] g.contains(n) implies nodes.contains(n) by {
        let i = choose|i: int| 0 <= i < g.len() && g[i] == n;
        assert(all[i] == n);
        assert(all.contains(n));
    }
    let r = g.skip(1);
    assert(!r.contains(g[0])) by {
        if r.contains(g[0]) {
            let i = choose|i: int| 0 <= i < r.len() && r[i] == g[0];
            assert(g[i + 1] == g[0]);
        }
    }
}

/// The plan depends on which nodes there are, not on the order in which they are listed.
pub proof fn law_plan_ignores_node_order(
    a: Seq<NodeId>,
    b: Seq<NodeId>,
    num_shards: u32,
    rf: nat,
)
    requires
        a.to_multiset() == b.to_multiset(),
    ensures
        plan(a, num_shards, rf) == plan(b, num_shards, rf),
{
    broadcast use vstd::seq_lib::group_to_multiset_ensures;

    assert(a.len() == a.to_multiset().len());
    assert(b.len() == b.to_multiset().len());
    assert forall|p: u32| #[trigger] ranked(p, a) == ranked(p, b) by {
        lemma_stable_sort(a, rank_key(p));
        lemma_stable_sort(b, rank_key(p));
        lemma_rank_injective(p, ranked(p, a));
        lemma_ascending_unique(ranked(p, a), ranked(p, b), rank_key(p));
    }
    assert forall|p: u32| #[trigger] planned(p, a, rf) == planned(p, b, rf) by {
        assert(ranked(p, a) == ranked(p, b));
    }
    assert(plan(a, num_shards, rf) =~= plan(b, num_shards, rf));
}

/// The ranking with one more node is the old ranking with that node placed somewhere in it.
proof fn lemma_ranked_push(position: u32, nodes: Seq<NodeId>, n: NodeId) -> (j: int)
    ensures
        0 <= j <= nodes.len(),
        ranked(position, nodes).len() == nodes.len(),
        ranked(position, nodes.push(n)) == ranked(position, nodes).insert(j, n),
{
    let key = rank_key(position);
    let old_ranked = ranked(position, nodes);
    lemma_stable_sort(nodes, key);
    assert(nodes.push(n).drop_last() =~= nodes);
    let j = lemma_insert_index(old_ranked, n, key, old_ranked.len() as int);
    lemma_sorted_insert_at(old_ranked, n, key, j);
    j
}

proof fn lemma_insert_index<A>(s: Seq<A>, x: A, key: spec_fn(A) -> int, from: int) -> (j: int)
    requires
        0 <= from <= s.len(),
        forall|i: int| from <= i < s.len() ==> key(#[trigger] s[i]) > key(x),
    ensures
        0 <= j <= s.len(),
        forall|i: int| j <= i < s.len() ==> key(#[trigger] s[i]) > key(x),
        j > 0 ==> key(s[j - 1]) <= key(x),
    decreases from,
{
    if from == 0 || key(s[from - 1]) <= key(x) {
        from
    } else {
        lemma_insert_index(s, x, key, from - 1)
    }
}

/// A node that joins takes over only what it wins: at a replication factor that the old cluster
/// could meet, a position's group either stays as it is or gains the new node, keeps the order of
/// the others, and loses its last member.
pub proof fn law_joining_moves_only_what_it_wins(
    position: u32,
    nodes: Seq<NodeId>,
    n: NodeId,
    rf: nat,
)
    requires
        1 <= rf <= nodes.len(),
    ensures
        ({
            let before = group(position, nodes, rf);
            let after = group(position, nodes.push(n), rf);
            ||| after == before
            ||| exists|j: int| 0 <= j < rf && after == #[trigger] before.drop_last().insert(j, n)
        }),
{
    let j = lemma_ranked_push(position, nodes, n);
    let old_ranked = ranked(position, nodes);
    let new_ranked = ranked(position, nodes.push(n));
    assert(copies(rf, nodes.len()) == rf);
    assert(copies(rf, nodes.push(n).len()) == rf);
    let before = group(position, nodes, rf);
    let after = group(position, nodes.push(n), rf);
    if j >= rf {
        assert(after =~= before);
    } else {
        assert(after =~= before.drop_last().insert(j, n));
    }
}

/// A primary moves only to the node that joined.
pub proof fn law_joining_moves_primaries_only_to_the_new_node(
    position: u32,
    nodes: Seq<NodeId>,
    n: NodeId,
    rf: nat,
)
    requires
        nodes.len() > 0,
    ensures
        planned(position, nodes.push(n), rf).primary == planned(position, nodes, rf).primary
            || planned(position, nodes.push(n), rf).primary == n,
{
    let j = lemma_ranked_push(position, nodes, n);
}

/// A node that leaves hands over only its own places: at a replication factor that the smaller
/// cluster can meet, a group that it was not in stays as it is, and one that it was in keeps its
/// other members.
pub proof fn law_leaving_moves_only_its_own_places(
    position: u32,
    nodes: Seq<NodeId>,
    n: NodeId,
    rf: nat,
)
    requires
        1 <= rf <= nodes.len(),
        !nodes.contains(n),
    ensures
        ({
            let before = group(position, nodes.push(n), rf);
            let after = group(position, nodes, rf);
            &&& !before.contains(n) ==> after == before
            &&& forall|m: NodeId| #[trigger] before.contains(m) && m != n ==> after.contains(m)
        }),
{
    let j = lemma_ranked_push(position, nodes, n);
    let old_ranked = ranked(position, nodes);
    let new_ranked = ranked(position, nodes.push(n));
    assert(copies(rf, nodes.len()) == rf);
    assert(copies(rf, nodes.push(n).len()) == rf);
    let before = group(position, nodes.push(n), rf);
    let after = group(position, nodes, rf);
    if j >= rf {
        assert(after =~= before);
    } else {
        assert(before[j] == n);
        assert forall|m: NodeId| #[trigger] before.contains(m) && m != n implies after.contains(
            m,
        ) by {
            let i = choose|i: int| 0 <= i < before.len() && before[i] == m;
            if i < j {
                assert(after[i] == m);
            } else {
                assert(i > j);
                assert(after[i - 1] == m);
            }
        }
    }
}

/// Once the changed assignments are in place, nothing is left to change: comparing a plan with
/// itself gives an empty difference.
pub proof fn law_a_committed_plan_has_no_changes(nodes: Seq<NodeId>, num_shards: u32, rf: nat)
    ensures
        plan(nodes, num_shards, rf).filter(changed_from(plan(nodes, num_shards, rf))).len() == 0,
{
    let p = plan(nodes, num_shards, rf);
    let q = changed_from(p);
    assert forall|i: int| 0 <= i < p.len() implies !q(#[trigger] p[i]) by {
        assert forall|k: int| 0 <= k < i implies !at_position(p[i].position)(#[trigger] p[k]) by {
            assert(p[k].position == k);
            assert(p[i].position == i);
        }
        lemma_find_at(p, at_position(p[i].position), i);
    }
    crate::seqs::lemma_filter_members(p, q);
    let f = p.filter(q);
    if f.len() > 0 {
        assert(f.contains(f[0]));
        assert(p.contains(f[0]) && q(f[0]));
        let i = choose|i: int| 0 <= i < p.len() && p[i] == f[0];
        assert(!q(p[i]));
    }
}

/// The nodes that an assignment names, the primary first.
pub open spec fn holders(a: AssignmentView) -> Seq<NodeId> {
    seq![a.primary] + a.replicas
}

/// `m` is a better place for a position than `o`: it weighs more, or as much and has the lower id.
pub open spec fn beats(position: u32, m: NodeId, o: NodeId) -> bool {
    ||| hrw_weight_spec(position, m) > hrw_weight_spec(position, o)
    ||| hrw_weight_spec(position, m) == hrw_weight_spec(position, o) && m.0 < o.0
}

proof fn lemma_rank_beats(position: u32, m: NodeId, o: NodeId)
    ensures
        rank_key(position)(m) < rank_key(position)(o) <==> beats(position, m, o),
{
    let wm = hrw_weight_spec(position, m);
    let wo = hrw_weight_spec(position, o);
    assert((u64::MAX - wm) * 0x1_0000_0000_0000_0000 + m.0 < (u64::MAX - wo)
        * 0x1_0000_0000_0000_0000 + o.0 <==> (wm > wo || wm == wo && m.0 < o.0))
        by (nonlinear_arith)
        requires
            0 <= m.0 <= u64::MAX,
            0 <= o.0 <= u64::MAX,
            0 <= wm <= u64::MAX,
            0 <= wo <= u64::MAX,
    ;
}

/// The best nodes hold a position, and the best of them is the primary: each holder beats those
/// behind it, and every node of the cluster that is no holder. There are as many as asked for, but
/// at least one and at most one per node.
pub proof fn law_the_best_nodes_hold_a_position(position: u32, nodes: Seq<NodeId>, rf: nat)
    requires
        nodes.len() > 0,
        nodes.no_duplicates(),
    ensures
        planned(position, nodes, rf).position == position,
        ({
            let h = holders(planned(position, nodes, rf));
            &&& h.len() == (if rf == 0 {
                1
            } else if rf <= nodes.len() {
                rf
            } else {
                nodes.len()
            })
            &&& h.no_duplicates()
            &&& forall|m: NodeId| #[trigger] h.contains(m) ==> nodes.contains(m)
            &&& forall|i: int, j: int|
                0 <= i < j < h.len() ==> beats(position, #[trigger] h[i], #[trigger] h[j])
            &&& forall|m: NodeId, o: NodeId|
                #![trigger h.contains(m), nodes.contains(o)]
                h.contains(m) && nodes.contains(o) && !h.contains(o) ==> beats(position, m, o)
        }),
{
    let key = rank_key(position);
    let all = ranked(position, nodes);
    let g = group(position, nodes, rf);
    let h = holders(planned(position, nodes, rf));
    law_groups_are_distinct_nodes(position, nodes, rf);
    lemma_stable_sort(nodes, key);
    assert(h =~= g);
    nodes.lemma_multiset_has_no_duplicates();
    all.lemma_multiset_has_no_duplicates_conv();
    lemma_rank_injective(position, all);
    assert forall|i: int, j: int| 0 <= i < j < all.len() implies beats(
        position,
        #[trigger] all[i],
        #[trigger] all[j],
    ) by {
        assert(key(all[i]) <= key(all[j]));
        assert(all.contains(all[i]) && all.contains(all[j]));
        assert(all[i] != all[j]);
        lemma_rank_beats(position, all[i], all[j]);
    }
    assert forall|i: int, j: int| 0 <= i < j < h.len() implies beats(
        position,
        #[trigger] h[i],
        #[trigger] h[j],
    ) by {
        assert(h[i] == all[i] && h[j] == all[j]);
    }
    assert forall|m: NodeId, o: NodeId|
        #![trigger h.contains(m), nodes.contains(o)]
        h.contains(m) && nodes.contains(o) && !h.contains(o) implies beats(position, m, o) by {
        let i = choose|i: int| 0 <= i < h.len() && h[i] == m;
        assert(all.contains(o));
        let j = choose|j: int| 0 <= j < all.len() && all[j] == o;
        if j < h.len() {
            assert(h[j] == o);
        }
        assert(h[i] == all[i]);
    }
}

/// A node that joins displaces the last holder of a position, and only where it beats that one;
/// every other position keeps its assignment.
pub proof fn law_joining_displaces_only_the_last_holder(
    position: u32,
    nodes: Seq<NodeId>,
    n: NodeId,
    rf: nat,
)
    requires
        1 <= rf <= nodes.len(),
        nodes.no_duplicates(),
        !nodes.contains(n),
    ensures
        ({
            let before = holders(planned(position, nodes, rf));
            let after = holders(planned(position, nodes.push(n), rf));
            &&& after.contains(n) <==> beats(position, n, before.last())
            &&& !after.contains(n) ==> planned(position, nodes.push(n), rf) == planned(
                position,
                nodes,
                rf,
            )
            &&& forall|m: NodeId| #[trigger]
                after.contains(m) ==> m == n || before.contains(m)
            &&& forall|i: int|
                0 <= i < before.len() - 1 ==> after.contains(#[trigger] before[i])
        }),
{
    let grown = nodes.push(n);
    let before = holders(planned(position, nodes, rf));
    let after = holders(planned(position, grown, rf));
    assert(grown.no_duplicates()) by {
        assert forall|i: int, j: int| 0 <= i < grown.len() && 0 <= j < grown.len() && i != j implies grown[i]
            != grown[j] by {
            if i == nodes.len() {
                assert(nodes.contains(nodes[j]));
            } else if j == nodes.len() {
                assert(nodes.contains(nodes[i]));
            }
        }
    }
    law_the_best_nodes_hold_a_position(position, nodes, rf);
    law_the_best_nodes_hold_a_position(position, grown, rf);
    law_joining_moves_only_what_it_wins(position, nodes, n, rf);
    lemma_stable_sort(nodes, rank_key(position));
    lemma_stable_sort(grown, rank_key(position));
    assert(before =~= group(position, nodes, rf));
    assert(after =~= group(position, grown, rf));
    assert(grown[nodes.len() as int] == n);
    assert(grown.contains(n));
    assert(before.contains(before.last()));
    assert forall|m: NodeId| nodes.contains(m) implies #[trigger] grown.contains(m) by {
        let k = choose|k: int| 0 <= k < nodes.len() && nodes[k] == m;
        assert(grown[k] == m);
    }
    if after == before {
        assert(!after.contains(n));
        assert(beats(position, before.last(), n));
    } else {
        let j = choose|j: int|
            0 <= j < rf && after == #[trigger] before.drop_last().insert(j, n);
        let d = before.drop_last();
        assert(after[j] == n);
        assert forall|i: int| 0 <= i < before.len() - 1 implies after.contains(
            #[trigger] before[i],
        ) by {
            if i < j {
                assert(after[i] == d[i]);
            } else {
                assert(after[i + 1] == d[i]);
            }
        }
        assert forall|m: NodeId| #[trigger] after.contains(m) implies m == n || before.contains(
            m,
        ) by {
            let i = choose|i: int| 0 <= i < after.len() && after[i] == m;
            if i < j {
                assert(before[i] == m);
            } else if i > j {
                assert(before[i - 1] == m);
            }
        }
        if after.contains(before.last()) {
            let i = choose|i: int| 0 <= i < after.len() && after[i] == before.last();
            assert(nodes.contains(before.last()));
            if i < j {
                assert(before[i] == before[before.len() - 1]);
            } else {
                assert(i > j);
                assert(before[i - 1] == before[before.len() - 1]);
            }
        }
        assert(grown.contains(before.last()));
        assert(after.contains(n));
        assert(beats(position, n, before.last()));
    }
}

/// A node that leaves hands over only its own places: a position that it did not hold keeps its
/// assignment, the other holders stay, and where it was the primary its first replica, which has
/// the data, takes over.
pub proof fn law_leaving_promotes_the_first_replica(
    position: u32,
    nodes: Seq<NodeId>,
    n: NodeId,
    rf: nat,
)
    requires
        1 <= rf <= nodes.len(),
        !nodes.contains(n),
    ensures
        ({
            let before = holders(planned(position, nodes.push(n), rf));
            let after = holders(planned(position, nodes, rf));
            &&& !before.contains(n) ==> planned(position, nodes, rf) == planned(
                position,
                nodes.push(n),
                rf,
            )
            &&& forall|m: NodeId| #[trigger] before.contains(m) && m != n ==> after.contains(m)
            &&& before[0] != n ==> after[0] == before[0]
            &&& before[0] == n && rf >= 2 ==> after[0] == before[1]
        }),
{
    let j = lemma_ranked_push(position, nodes, n);
    let grown = nodes.push(n);
    law_leaving_moves_only_its_own_places(position, nodes, n, rf);
    let before = holders(planned(position, grown, rf));
    let after = holders(planned(position, nodes, rf));
    lemma_stable_sort(nodes, rank_key(position));
    lemma_stable_sort(grown, rank_key(position));
    assert(after =~= group(position, nodes, rf));
    assert(before =~= group(position, grown, rf));
    if j > 0 {
        assert(after[0] == before[0]);
        assert(ranked(position, nodes).contains(after[0]));
    } else if rf >= 2 {
        assert(before[1] == after[0]);
    }
}

/// What a map has for a position is its first assignment of that position, and nothing exactly
/// where there is none.
pub proof fn law_an_entry_is_the_first_of_its_position(
    s: Seq<AssignmentView>,
    position: u32,
    i: int,
)
    ensures
        entry(s, position) is None <==> forall|k: int|
            0 <= k < s.len() ==> (#[trigger] s[k]).position != position,
        0 <= i < s.len() && s[i].position == position && (forall|k: int|
            0 <= k < i ==> (#[trigger] s[k]).position != position) ==> entry(s, position) == Some(
            s[i],
        ),
{
    let p = at_position(position);
    crate::seqs::lemma_find(s, p);
    if entry(s, position) is Some {
        let x = entry(s, position)->0;
        let k = choose|k: int|
            0 <= k < s.len() && #[trigger] s[k] == x && p(x) && forall|j: int|
                0 <= j < k ==> !p(#[trigger] s[j]);
        assert(s[k].position == position);
    } else {
        assert forall|k: int| 0 <= k < s.len() implies (#[trigger] s[k]).position != position by {
            assert(!p(s[k]));
        }
    }
    if 0 <= i < s.len() && s[i].position == position && (forall|k: int|
        0 <= k < i ==> (#[trigger] s[k]).position != position) {
        assert forall|j: int| 0 <= j < i implies !p(#[trigger] s[j]) by {
            assert(s[j].position != position);
        }
        crate::seqs::lemma_find_at(s, p, i);
    }
}

/// The weight of a pair is the hash of twelve bytes: the position in the first four, the node in
/// the other eight.
pub proof fn law_the_weight_is_a_hash_of_the_pair(position: u32, node: NodeId, b: Seq<u8>)
    requires
        b.len() == 12,
        crate::codec::le_value(b.take(4)) == position,
        crate::codec::le_value(b.skip(4)) == node.0,
    ensures
        hrw_weight_spec(position, node) == fnv1a64_spec(b),
{
    crate::codec::lemma_le_bytes_of_value(b.take(4));
    crate::codec::lemma_le_bytes_of_value(b.skip(4));
    assert(b =~= b.take(4) + b.skip(4));
}

/// There is at least one copy, there are no more than nodes, and otherwise as many as asked for.
pub proof fn law_as_many_copies_as_asked_for(rf: nat, nodes: nat)
    requires
        nodes > 0,
    ensures
        1 <= copies(rf, nodes) <= nodes,
        1 <= rf <= nodes ==> copies(rf, nodes) == rf,
        rf > nodes ==> copies(rf, nodes) == nodes,
        rf == 0 ==> copies(rf, nodes) == 1,
{
}

} // verus!
