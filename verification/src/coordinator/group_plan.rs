//! Which positions have to move: where the committed groups are not the planned ones.
use crate::allocator::{entry, find_position, plan, plan_assignments, planned};
use crate::control::{
    assigned, assignment_views, node_views, position_key, AssignmentView, ClusterState, NodeId,
    NodeRole, NodeView, ShardAssignment, StateView,
};
use crate::control_laws::replayed;
use crate::coordinator::control_plane::{lemma_assignments_committed, proposals};
use crate::order::distinct_keys;
use crate::seqs::{lemma_filter_members, lemma_filter_step};
use vstd::prelude::*;

verus! {

/// The same placement: the same primary and the same set of replicas. The order of replicas is the
/// order in which they are tried, not placement.
pub open spec fn same_group(a: AssignmentView, b: AssignmentView) -> bool {
    &&& a.primary == b.primary
    &&& forall|n: NodeId| #[trigger] a.replicas.contains(n) <==> b.replicas.contains(n)
}

/// Whether a member that stays provably holds exactly what the fenced source holds: both gave a
/// fingerprint of their contents, and they are equal. Where either did not, it is not provable, and
/// the member is copied anew.
pub fn retained_member_is_complete<E>(
    source: Option<(u64, u64, u64)>,
    member: Result<(u64, u64, u64), E>,
) -> (r: bool)
    ensures
        r <==> source is Some && member is Ok && source->0 == member->Ok_0,
{
    match (source, member) {
        (Some(s), Ok(m)) => s.0 == m.0 && s.1 == m.1 && s.2 == m.2,
        _ => false,
    }
}

/// Whether `id` is in the list.
pub fn has_id(v: &Vec<NodeId>, id: NodeId) -> (r: bool)
    ensures
        r == v@.contains(id),
{
    let n: usize = v.len();
    let mut i: usize = 0;
    while i < n
        invariant
            n == v@.len(),
            i <= n,
            forall|k: int| 0 <= k < i ==> v@[k] != id,
        decreases n - i,
    {
        if v[i].0 == id.0 {
            assert(v@[i as int] == id);
            return true;
        }
        i = i + 1;
    }
    false
}

fn includes(a: &Vec<NodeId>, b: &Vec<NodeId>) -> (r: bool)
    ensures
        r == (forall|n: NodeId| #[trigger] b@.contains(n) ==> a@.contains(n)),
{
    let n: usize = b.len();
    let mut i: usize = 0;
    while i < n
        invariant
            n == b@.len(),
            i <= n,
            forall|k: int| 0 <= k < i ==> a@.contains(#[trigger] b@[k]),
        decreases n - i,
    {
        if !has_id(a, b[i]) {
            assert(b@.contains(b@[i as int]));
            return false;
        }
        i = i + 1;
    }
    true
}

/// Whether two replica lists hold the same nodes.
pub fn replica_set_eq(a: &Vec<NodeId>, b: &Vec<NodeId>) -> (r: bool)
    ensures
        r == (forall|n: NodeId| #[trigger] a@.contains(n) <==> b@.contains(n)),
{
    includes(a, b) && includes(b, a)
}

/// Whether two assignments are the same placement.
pub fn groups_equal(a: &ShardAssignment, b: &ShardAssignment) -> (r: bool)
    ensures
        r == same_group(a@, b@),
{
    let r: bool = a.primary.0 == b.primary.0 && replica_set_eq(&a.replicas, &b.replicas);
    proof {
        let x = a@.replicas;
        let y = b@.replicas;
        assert(x == a.replicas@ && y == b.replicas@);
        assert((forall|n: NodeId| #[trigger] x.contains(n) <==> y.contains(n)) == (forall|n: NodeId|
            #[trigger] a.replicas@.contains(n) <==> b.replicas@.contains(n)));
    }
    r
}

/// Can hold data: a data node with an address.
pub open spec fn placeable() -> spec_fn(NodeView) -> bool {
    |n: NodeView| n.role == NodeRole::Data && n.addr is Some
}

/// The nodes that can hold data, in the order of the document.
pub open spec fn data_nodes(s: StateView) -> Seq<NodeId> {
    s.nodes.filter(placeable()).map_values(|n: NodeView| n.id)
}

/// The ids of the nodes that can hold data.
pub fn data_node_ids(state: &ClusterState) -> (r: Vec<NodeId>)
    ensures
        r@ == data_nodes(state@),
{
    let n: usize = state.nodes.len();
    let ghost all = state@.nodes;
    let ghost id = |x: NodeView| x.id;
    let mut r: Vec<NodeId> = Vec::new();
    let mut i: usize = 0;
    proof {
        reveal(Seq::filter);
        assert(r@ =~= all.take(0).filter(placeable()).map_values(id));
    }
    while i < n
        invariant
            n == state.nodes@.len(),
            all == node_views(state.nodes@),
            id == (|x: NodeView| x.id),
            i <= n,
            r@ == all.take(i as int).filter(placeable()).map_values(id),
        decreases n - i,
    {
        let ghost x = all[i as int];
        let ghost kept = all.take(i as int).filter(placeable());
        proof {
            lemma_filter_step(all, placeable(), i as int);
            assert(x == state.nodes@[i as int]@);
        }
        let data: bool = match state.nodes[i].role {
            NodeRole::Data => true,
            NodeRole::Manager => false,
        };
        if data && state.nodes[i].addr.is_some() {
            r.push(state.nodes[i].id);
            proof {
                assert(kept.push(x).map_values(id) =~= kept.map_values(id).push(x.id));
            }
        }
        i = i + 1;
    }
    assert(all.take(n as int) =~= all);
    r
}

/// Is not the committed placement of its position.
pub open spec fn diverges(s: StateView) -> spec_fn(AssignmentView) -> bool {
    |d: AssignmentView|
        match entry(s.assignments, d.position) {
            Some(c) => !same_group(c, d),
            None => true,
        }
}

/// The planned assignments whose committed placement is another, in position order.
pub open spec fn group_targets(s: StateView, rf: nat) -> Seq<AssignmentView> {
    if data_nodes(s).len() == 0 {
        Seq::empty()
    } else {
        plan(data_nodes(s), s.num_shards, rf).filter(diverges(s))
    }
}

/// The assignments of a list of targets.
pub open spec fn target_views(t: Seq<(u32, ShardAssignment)>) -> Seq<AssignmentView> {
    t.map_values(|x: (u32, ShardAssignment)| x.1@)
}

/// Each target is listed under its own position.
pub open spec fn keyed_by_position(t: Seq<(u32, ShardAssignment)>) -> bool {
    forall|i: int| 0 <= i < t.len() ==> (#[trigger] t[i]).0 == t[i].1.position
}

/// The positions whose committed group is not the planned one, each with its planned group.
pub fn rebalance_group_targets(state: &ClusterState, rf: usize) -> (r: Vec<(u32, ShardAssignment)>)
    ensures
        target_views(r@) == group_targets(state@, rf as nat),
        keyed_by_position(r@),
{
    let nodes = data_node_ids(state);
    let mut r: Vec<(u32, ShardAssignment)> = Vec::new();
    if nodes.len() == 0 {
        assert(target_views(r@) =~= Seq::empty());
        return r;
    }
    let desired = plan_assignments(&nodes, state.num_shards, rf);
    let ghost all = desired@;
    let ghost dv = assignment_views(all);
    let ghost keep = diverges(state@);
    proof {
        reveal(Seq::filter);
        assert(target_views(r@) =~= dv.take(0).filter(keep));
    }
    for d in it: desired.into_iter()
        invariant
            it.seq() == all,
            dv == assignment_views(all),
            keep == diverges(state@),
            keyed_by_position(r@),
            target_views(r@) == dv.take(it.index()).filter(keep),
    {
        proof {
            lemma_filter_step(dv, keep, it.index());
            assert(dv[it.index()] == d@);
        }
        let settled: bool = match find_position(&state.assignments, d.position) {
            Some(i) => groups_equal(&state.assignments[i], &d),
            None => false,
        };
        if !settled {
            let ghost before = r@;
            let ghost x = d@;
            r.push((d.position, d));
            proof {
                assert(target_views(r@) =~= target_views(before).push(x));
            }
        }
    }
    assert(dv.take(all.len() as int) =~= dv);
    r
}

// ---- laws ----

/// Nothing has to move where every position already has its planned group, in whatever order its
/// replicas are listed.
pub proof fn law_converged_map_has_no_targets(s: StateView, rf: nat)
    requires
        forall|p: u32|
            p < s.num_shards ==> ((#[trigger] entry(s.assignments, p)) matches Some(c) && same_group(
                c,
                planned(p, data_nodes(s), rf),
            )),
    ensures
        group_targets(s, rf).len() == 0,
{
    if data_nodes(s).len() > 0 {
        let p = plan(data_nodes(s), s.num_shards, rf);
        let q = diverges(s);
        lemma_filter_members(p, q);
        let t = p.filter(q);
        if t.len() > 0 {
            assert(t.contains(t[0]));
            assert(p.contains(t[0]));
            let i = choose|i: int| 0 <= i < p.len() && p[i] == t[0];
            assert(p[i] == planned(i as u32, data_nodes(s), rf));
            assert(entry(s.assignments, i as u32) is Some);
        }
    }
}

/// The targets are exactly the positions that diverge, each with its whole planned group, in
/// ascending order and none twice.
pub proof fn law_targets_are_the_diverging_positions(s: StateView, rf: nat, a: AssignmentView)
    requires
        data_nodes(s).len() > 0,
    ensures
        group_targets(s, rf).contains(a) <==> (a.position < s.num_shards && a == planned(
            a.position,
            data_nodes(s),
            rf,
        ) && match entry(s.assignments, a.position) {
            Some(c) => !same_group(c, a),
            None => true,
        }),
        crate::order::strictly_ascending(group_targets(s, rf), crate::control::position_key()),
{
    let p = plan(data_nodes(s), s.num_shards, rf);
    let q = diverges(s);
    lemma_filter_members(p, q);
    assert(crate::order::strictly_ascending(p, crate::control::position_key())) by {
        assert forall|i: int, j: int| 0 <= i < j < p.len() implies crate::control::position_key()(
            #[trigger] p[i],
        ) < crate::control::position_key()(#[trigger] p[j]) by {
            assert(p[i].position == i);
            assert(p[j].position == j);
        }
    }
    crate::seqs::lemma_filter_strict(p, q, crate::control::position_key());
    if a.position < s.num_shards && a == planned(a.position, data_nodes(s), rf) {
        assert(p[a.position as int] == a);
        assert(p.contains(a));
    }
    if p.contains(a) {
        let i = choose|i: int| 0 <= i < p.len() && p[i] == a;
        assert(p[i] == planned(i as u32, data_nodes(s), rf));
    }
}

/// What is committed carries out the targets: there is one entry for each target and no other, with
/// the target's primary and replicas. The entries, and the replicas of each, may come in any order.
pub open spec fn carries_out(commits: Seq<AssignmentView>, targets: Seq<AssignmentView>) -> bool {
    &&& distinct_keys(commits, position_key())
    &&& forall|i: int| 0 <= i < targets.len() ==> carried(commits, #[trigger] targets[i])
    &&& forall|i: int|
        0 <= i < commits.len() ==> assigned(targets, (#[trigger] commits[i]).position)
}

/// Some entry has the position of `a`, its primary and its replicas.
pub open spec fn carried(commits: Seq<AssignmentView>, a: AssignmentView) -> bool {
    exists|i: int|
        0 <= i < commits.len() && (#[trigger] commits[i]).position == a.position && same_group(
            commits[i],
            a,
        )
}

/// Once every target is committed, in any order and with its replicas in any order, nothing is left
/// to move, whatever the order and form of the map that the targets were planned from, as long as
/// it has no position twice.
pub proof fn law_committing_every_target_leaves_none(
    s: StateView,
    rf: nat,
    commits: Seq<AssignmentView>,
)
    requires
        distinct_keys(s.assignments, position_key()),
        carries_out(commits, group_targets(s, rf)),
    ensures
        group_targets(replayed(s, proposals(commits)), rf).len() == 0,
{
    let ts = group_targets(s, rf);
    let r = replayed(s, proposals(commits));
    if data_nodes(s).len() == 0 {
        assert(ts.len() == 0);
        if commits.len() > 0 {
            assert(assigned(ts, commits[0].position));
        }
        assert(proposals(commits).len() == 0);
    } else {
        lemma_assignments_committed(s, commits);
        assert forall|p: u32| p < s.num_shards implies ((#[trigger] entry(r.assignments, p)) matches Some(
            c,
        ) && same_group(c, planned(p, data_nodes(s), rf))) by {
            let a = planned(p, data_nodes(s), rf);
            law_targets_are_the_diverging_positions(s, rf, a);
            if ts.contains(a) {
                let k = choose|k: int| 0 <= k < ts.len() && ts[k] == a;
                assert(carried(commits, ts[k]));
                let i = choose|i: int|
                    0 <= i < commits.len() && (#[trigger] commits[i]).position == a.position
                        && same_group(commits[i], a);
                assert(entry(r.assignments, commits[i].position) == Some(commits[i]));
            } else {
                assert forall|i: int| 0 <= i < commits.len() implies (
                #[trigger] commits[i]).position != p by {
                    assert(assigned(ts, commits[i].position));
                    let k = choose|k: int|
                        0 <= k < ts.len() && #[trigger] ts[k].position == commits[i].position;
                    assert(ts.contains(ts[k]));
                    law_targets_are_the_diverging_positions(s, rf, ts[k]);
                }
            }
        }
        law_converged_map_has_no_targets(r, rf);
    }
}

/// Committing the targets as they were planned leaves none.
pub proof fn law_committing_the_plan_leaves_none(s: StateView, rf: nat)
    requires
        distinct_keys(s.assignments, position_key()),
    ensures
        group_targets(replayed(s, proposals(group_targets(s, rf))), rf).len() == 0,
{
    let ts = group_targets(s, rf);
    assert(distinct_keys(ts, position_key())) by {
        if data_nodes(s).len() > 0 {
            law_targets_are_the_diverging_positions(s, rf, planned(0, data_nodes(s), rf));
        }
    }
    assert forall|i: int| 0 <= i < ts.len() implies carried(ts, #[trigger] ts[i]) by {
        law_same_group_is_an_equivalence(ts[i], ts[i], ts[i]);
    }
    assert forall|i: int| 0 <= i < ts.len() implies assigned(ts, (#[trigger] ts[i]).position) by {
        assert(ts[i].position == ts[i].position);
    }
    law_committing_every_target_leaves_none(s, rf, ts);
}

/// Only data nodes with an address are ever planned: a manager, or a node without an address, is
/// the primary or a replica of no target.
pub proof fn law_only_data_nodes_are_targets(s: StateView, rf: nat, a: AssignmentView, id: NodeId)
    requires
        group_targets(s, rf).contains(a),
        a.primary == id || a.replicas.contains(id),
    ensures
        exists|i: int|
            0 <= i < s.nodes.len() && (#[trigger] s.nodes[i]).id == id && placeable()(s.nodes[i]),
{
    let nodes = data_nodes(s);
    law_targets_are_the_diverging_positions(s, rf, a);
    let g = crate::allocator::group(a.position, nodes, rf);
    let all = crate::allocator::ranked(a.position, nodes);
    crate::order::lemma_stable_sort(nodes, crate::allocator::rank_key(a.position));
    assert(all.contains(id)) by {
        if a.primary == id {
            assert(g[0] == all[0]);
            assert(all[0] == id);
        } else {
            let k = choose|k: int| 0 <= k < a.replicas.len() && a.replicas[k] == id;
            assert(g[k + 1] == id);
            assert(all[k + 1] == id);
        }
    }
    assert(nodes.contains(id));
    let k = choose|k: int| 0 <= k < nodes.len() && nodes[k] == id;
    let f = s.nodes.filter(placeable());
    assert(f[k].id == id);
    lemma_filter_members(s.nodes, placeable());
    assert(f.contains(f[k]));
    assert(s.nodes.contains(f[k]));
    let i = choose|i: int| 0 <= i < s.nodes.len() && s.nodes[i] == f[k];
    assert(s.nodes[i].id == id && placeable()(s.nodes[i]));
}

/// Being the same placement is an equivalence.
pub proof fn law_same_group_is_an_equivalence(a: AssignmentView, b: AssignmentView, c:
    AssignmentView)
    ensures
        same_group(a, a),
        same_group(a, b) ==> same_group(b, a),
        same_group(a, b) && same_group(b, c) ==> same_group(a, c),
{
    if same_group(a, b) {
        assert forall|n: NodeId| #[trigger] b.replicas.contains(n) <==> a.replicas.contains(n) by {
            assert(a.replicas.contains(n) <==> b.replicas.contains(n));
        }
        if same_group(b, c) {
            assert forall|n: NodeId| #[trigger] a.replicas.contains(n) <==> c.replicas.contains(
                n,
            ) by {
                assert(b.replicas.contains(n) <==> c.replicas.contains(n));
            }
        }
    }
}

/// A node can hold data exactly where it is a member with the data role and an address.
pub proof fn law_who_can_hold_data(s: StateView, id: NodeId)
    ensures
        data_nodes(s).contains(id) <==> exists|i: int|
            0 <= i < s.nodes.len() && (#[trigger] s.nodes[i]).id == id && s.nodes[i].role
                == NodeRole::Data && s.nodes[i].addr is Some,
{
    let f = s.nodes.filter(placeable());
    let m = data_nodes(s);
    lemma_filter_members(s.nodes, placeable());
    if m.contains(id) {
        let k = choose|k: int| 0 <= k < m.len() && m[k] == id;
        assert(f.contains(f[k]));
        let i = choose|i: int| 0 <= i < s.nodes.len() && s.nodes[i] == f[k];
        assert(s.nodes[i].id == id);
    }
    if exists|i: int|
        0 <= i < s.nodes.len() && (#[trigger] s.nodes[i]).id == id && s.nodes[i].role
            == NodeRole::Data && s.nodes[i].addr is Some {
        let i = choose|i: int|
            0 <= i < s.nodes.len() && (#[trigger] s.nodes[i]).id == id && s.nodes[i].role
                == NodeRole::Data && s.nodes[i].addr is Some;
        assert(s.nodes.contains(s.nodes[i]) && placeable()(s.nodes[i]));
        assert(f.contains(s.nodes[i]));
        let k = choose|k: int| 0 <= k < f.len() && f[k] == s.nodes[i];
        assert(m[k] == id);
    }
}

/// Two assignments are the same placement exactly where they have the same primary and each node is
/// a replica of both or of neither; the order of replicas does not count.
pub proof fn law_what_the_same_placement_is(a: AssignmentView, b: AssignmentView)
    ensures
        same_group(a, b) <==> a.primary == b.primary && a.replicas.to_set() == b.replicas.to_set(),
{
    if same_group(a, b) {
        assert(a.replicas.to_set() =~= b.replicas.to_set());
    }
    if a.replicas.to_set() == b.replicas.to_set() {
        assert forall|n: NodeId| #[trigger] a.replicas.contains(n) <==> b.replicas.contains(n) by {
            assert(a.replicas.to_set().contains(n) <==> a.replicas.contains(n));
            assert(b.replicas.to_set().contains(n) <==> b.replicas.contains(n));
        }
    }
}

} // verus!
