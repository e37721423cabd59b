//! Laws of the cluster-state document.
use crate::control::{
    applicable, applied, assigned, committed, default_assignment, node_key, position_key, revoted,
    saturating_next, single_node_view, voter_set, with_defaults, AssignmentView, ChangeView, NodeId,
    NodeRole, NodeView, StateView,
};
use crate::order::{
    distinct_keys, key_of, lemma_ascending_strict, lemma_exact, lemma_put, lemma_put_commutes,
    lemma_put_idempotent, lemma_put_without_commutes, lemma_sorted_set, lemma_stable_sort,
    lemma_strictly_ascending_unique, lemma_without, lemma_without_commutes, lemma_without_put,
    stable_sort, strictly_ascending, without,
};
use crate::seqs::{lemma_filter_distinct, lemma_filter_members};
use vstd::prelude::*;

verus! {

/// The document is in its canonical form: members, voters and assignments are sorted, none twice.
pub open spec fn canonical(s: StateView) -> bool {
    &&& strictly_ascending(s.nodes, node_key())
    &&& strictly_ascending(s.voters, key_of::<NodeId>())
    &&& strictly_ascending(s.assignments, position_key())
}

/// No member and no position occurs twice in the document, whatever their order.
pub open spec fn unrepeated(s: StateView) -> bool {
    &&& distinct_keys(s.nodes, node_key())
    &&& distinct_keys(s.assignments, position_key())
}

/// There is exactly one assignment for each position, in order.
pub open spec fn complete(s: StateView) -> bool {
    &&& s.assignments.len() == s.num_shards
    &&& forall|i: int| 0 <= i < s.assignments.len() ==> #[trigger] s.assignments[i].position == i
}

/// The document of a single node is canonical, and its one node owns every position alone.
pub proof fn law_single_node_owns_every_position(num_shards: u32, vnodes: u32, fingerprint: u64)
    ensures
        ({
            let s = single_node_view(num_shards, vnodes, fingerprint);
            &&& canonical(s)
            &&& complete(s)
            &&& s.epoch == 0
            &&& forall|i: int|
                0 <= i < s.assignments.len() ==> (#[trigger] s.assignments[i]).primary == NodeId(0)
                    && s.assignments[i].replicas.len() == 0
        }),
{
}

proof fn lemma_with_defaults(s: Seq<AssignmentView>, n: u32, k: nat)
    requires
        distinct_keys(s, position_key()),
        forall|i: int| 0 <= i < s.len() ==> (#[trigger] s[i]).position < n,
        k <= n,
    ensures
        with_defaults(s, k).no_duplicates(),
        forall|i: int, j: int|
            0 <= i < with_defaults(s, k).len() && 0 <= j < with_defaults(s, k).len() && i != j
                ==> (#[trigger] with_defaults(s, k)[i]).position != (#[trigger] with_defaults(
                s,
                k,
            )[j]).position,
        forall|i: int|
            0 <= i < with_defaults(s, k).len() ==> (#[trigger] with_defaults(s, k)[i]).position < n,
        forall|p: u32| p < k ==> #[trigger] assigned(with_defaults(s, k), p),
        forall|i: int| 0 <= i < s.len() ==> with_defaults(s, k).len() > i && with_defaults(s, k)[i]
            == #[trigger] s[i],
        forall|i: int|
            s.len() <= i < with_defaults(s, k).len() ==> (#[trigger] with_defaults(s, k)[i])
                == default_assignment(with_defaults(s, k)[i].position) && !assigned(
                s,
                with_defaults(s, k)[i].position,
            ),
        with_defaults(s, k).len() >= s.len(),
    decreases k,
{
    if k == 0 {
        assert forall|i: int, j: int|
            0 <= i < s.len() && 0 <= j < s.len() && i != j implies (#[trigger] s[i]).position != (
        #[trigger] s[j]).position by {
            if i < j {
                assert(position_key()(s[i]) != position_key()(s[j]));
            } else {
                assert(position_key()(s[j]) != position_key()(s[i]));
            }
        }
    } else {
        let t = with_defaults(s, (k - 1) as nat);
        lemma_with_defaults(s, n, (k - 1) as nat);
        let p0 = (k - 1) as u32;
        let r = with_defaults(s, k);
        if assigned(t, p0) {
            assert(r == t);
            assert forall|p: u32| p < k implies #[trigger] assigned(r, p) by {
                if p < k - 1 {
                    assert(assigned(t, p));
                }
            }
        } else {
            assert(r == t.push(default_assignment(p0)));
            assert forall|p: u32| p < k implies #[trigger] assigned(r, p) by {
                if p < k - 1 {
                    assert(assigned(t, p));
                    let i = choose|i: int| 0 <= i < t.len() && #[trigger] t[i].position == p;
                    assert(r[i].position == p);
                } else {
                    assert(r[t.len() as int].position == p);
                }
            }
            assert(!assigned(s, p0)) by {
                if assigned(s, p0) {
                    let i = choose|i: int| 0 <= i < s.len() && #[trigger] s[i].position == p0;
                    assert(t[i] == s[i]);
                    assert(t[i].position == p0);
                }
            }
            assert forall|i: int, j: int|
                0 <= i < r.len() && 0 <= j < r.len() && i != j implies (#[trigger] r[i]).position
                != (#[trigger] r[j]).position by {
                if i == t.len() {
                    assert(t[j].position != p0);
                } else if j == t.len() {
                    assert(t[i].position != p0);
                }
            }
        }
    }
}

/// Changing the shard count of a document that has no position twice leaves exactly one entry for
/// each position, in order, whatever the order was; positions that stay keep their placement and
/// new ones get the default. A canonical document stays canonical.
pub proof fn law_set_shard_count_is_complete(s: StateView, n: u32)
    requires
        distinct_keys(s.assignments, position_key()),
    ensures
        canonical(s) ==> canonical(applied(s, ChangeView::SetShardCount(n))),
        strictly_ascending(
            applied(s, ChangeView::SetShardCount(n)).assignments,
            position_key(),
        ),
        complete(applied(s, ChangeView::SetShardCount(n))),
        applied(s, ChangeView::SetShardCount(n)).num_shards == n,
        forall|a: AssignmentView|
            s.assignments.contains(a) && a.position < n ==> #[trigger] applied(
                s,
                ChangeView::SetShardCount(n),
            ).assignments.contains(a),
        forall|a: AssignmentView| #[trigger]
            applied(s, ChangeView::SetShardCount(n)).assignments.contains(a) ==> s.assignments.contains(
                a,
            ) || (a == default_assignment(a.position) && !assigned(s.assignments, a.position)),
{
    broadcast use vstd::seq_lib::group_to_multiset_ensures;

    let key = position_key();
    let kept = s.assignments.filter(|a: AssignmentView| a.position < n);
    lemma_filter_members(s.assignments, |a: AssignmentView| a.position < n);
    lemma_filter_distinct(s.assignments, |a: AssignmentView| a.position < n, key);
    assert forall|i: int| 0 <= i < kept.len() implies (#[trigger] kept[i]).position < n by {
        assert(kept.contains(kept[i]));
    }
    let all = with_defaults(kept, n as nat);
    lemma_with_defaults(kept, n, n as nat);
    lemma_stable_sort(all, key);
    let r = stable_sort(all, key);
    assert forall|i: int, j: int| 0 <= i < j < r.len() implies key(#[trigger] r[i]) != key(
        #[trigger] r[j],
    ) by {
        all.lemma_multiset_has_no_duplicates();
        r.lemma_multiset_has_no_duplicates_conv();
        assert(r[i] != r[j]);
        assert(r.contains(r[i]) && r.contains(r[j]));
        assert(all.contains(r[i]) && all.contains(r[j]));
        let a = choose|a: int| 0 <= a < all.len() && all[a] == r[i];
        let b = choose|b: int| 0 <= b < all.len() && all[b] == r[j];
        assert(a != b);
        assert(all[a].position != all[b].position);
    }
    lemma_ascending_strict(r, key);
    assert forall|i: int| 0 <= i < r.len() implies (#[trigger] r[i]).position < n by {
        assert(r.contains(r[i]));
        assert(all.contains(r[i]));
        let a = choose|a: int| 0 <= a < all.len() && all[a] == r[i];
        assert(all[a].position < n);
    }
    assert forall|p: u32| p < n implies #[trigger] assigned(r, p) by {
        assert(assigned(all, p));
        let a = choose|a: int| 0 <= a < all.len() && #[trigger] all[a].position == p;
        assert(all.contains(all[a]));
        assert(r.contains(all[a]));
        let i = choose|i: int| 0 <= i < r.len() && r[i] == all[a];
        assert(r[i].position == p);
    }
    lemma_dense(r, n);
    assert forall|a: AssignmentView| s.assignments.contains(a) && a.position
        < n implies #[trigger] r.contains(a) by {
        assert(kept.contains(a));
        let i = choose|i: int| 0 <= i < kept.len() && kept[i] == a;
        assert(all[i] == a);
        assert(all.contains(a));
    }
    assert forall|a: AssignmentView| #[trigger] r.contains(a) implies s.assignments.contains(a) || (a
        == default_assignment(a.position) && !assigned(s.assignments, a.position)) by {
        assert(all.contains(a));
        let i = choose|i: int| 0 <= i < all.len() && all[i] == a;
        if i < kept.len() {
            assert(kept[i] == a);
            assert(kept.contains(a));
        } else {
            assert(all[i] == default_assignment(all[i].position));
            if assigned(s.assignments, a.position) {
                let j = choose|j: int|
                    0 <= j < s.assignments.len() && #[trigger] s.assignments[j].position
                        == a.position;
                assert(s.assignments.contains(s.assignments[j]));
                assert(all[i].position < n);
                assert(kept.contains(s.assignments[j]));
                let q = choose|q: int| 0 <= q < kept.len() && kept[q] == s.assignments[j];
                assert(kept[q].position == a.position);
                assert(assigned(kept, a.position));
            }
        }
    }
}

/// Strictly ascending positions that cover everything below `n` are `0, 1, ..`.
proof fn lemma_dense(r: Seq<AssignmentView>, n: u32)
    requires
        strictly_ascending(r, position_key()),
        forall|i: int| 0 <= i < r.len() ==> (#[trigger] r[i]).position < n,
        forall|p: u32| p < n ==> #[trigger] assigned(r, p),
    ensures
        r.len() == n,
        forall|i: int| 0 <= i < r.len() ==> #[trigger] r[i].position == i,
{
    lemma_at_least(r, r.len() as int);
    lemma_prefix(r, n, n as int);
}

/// In strictly ascending order, the entry at `i` has a position of at least `i`.
proof fn lemma_at_least(r: Seq<AssignmentView>, k: int)
    requires
        strictly_ascending(r, position_key()),
        0 <= k <= r.len(),
    ensures
        forall|i: int| 0 <= i < k ==> #[trigger] r[i].position >= i,
    decreases k,
{
    if k > 0 {
        lemma_at_least(r, k - 1);
        if k > 1 {
            assert(position_key()(r[k - 2]) < position_key()(r[k - 1]));
        }
    }
}

/// The first `k` entries are those of the first `k` positions.
proof fn lemma_prefix(r: Seq<AssignmentView>, n: u32, k: int)
    requires
        strictly_ascending(r, position_key()),
        forall|i: int| 0 <= i < r.len() ==> #[trigger] r[i].position >= i,
        forall|i: int| 0 <= i < r.len() ==> (#[trigger] r[i]).position < n,
        forall|p: u32| p < n ==> #[trigger] assigned(r, p),
        0 <= k <= n,
    ensures
        k <= r.len(),
        forall|i: int| 0 <= i < k ==> #[trigger] r[i].position == i,
        k == n ==> r.len() == n,
    decreases k,
{
    if k > 0 {
        lemma_prefix(r, n, k - 1);
        let p = (k - 1) as u32;
        assert(assigned(r, p));
        let i = choose|i: int| 0 <= i < r.len() && #[trigger] r[i].position == p;
        assert(r[i].position >= i);
        if i < k - 1 {
            assert(r[i].position == i);
        }
        assert(i == k - 1);
    }
    if k == n && r.len() > n {
        assert(r[n as int].position >= n);
    }
}

/// Every change keeps the document canonical.
pub proof fn law_changes_keep_the_document_canonical(s: StateView, c: ChangeView)
    requires
        canonical(s),
    ensures
        canonical(applied(s, c)),
        canonical(committed(s, c)),
{
    match c {
        ChangeView::AddNode(n) => {
            lemma_put(s.nodes, node_key(), n);
        },
        ChangeView::RemoveNode(id) => {
            lemma_without(s.nodes, node_key(), id.0 as int);
        },
        ChangeView::AssignShard(a) => {
            lemma_put(s.assignments, position_key(), a);
        },
        ChangeView::BumpModelVersion(_) => {},
        ChangeView::SetShardCount(n) => {
            law_set_shard_count_is_complete(s, n);
        },
    }
}

/// A change of the voters keeps the document canonical and keeps exactly the voters it was given,
/// in whatever order and however often they were listed.
pub proof fn law_voters_are_a_sorted_set(s: StateView, voters: Seq<NodeId>)
    requires
        canonical(s),
    ensures
        canonical(revoted(s, voters)),
        forall|id: NodeId| #[trigger] revoted(s, voters).voters.contains(id) <==> voters.contains(id),
        revoted(s, voters).nodes == s.nodes,
        revoted(s, voters).assignments == s.assignments,
        revoted(s, voters).epoch == (s.epoch + 1) as u64,
{
    lemma_exact(voters);
    lemma_sorted_set(voters, key_of::<NodeId>());
}

/// Two lists with the same voters give the same document.
pub proof fn law_voter_order_does_not_matter(s: StateView, a: Seq<NodeId>, b: Seq<NodeId>)
    requires
        forall|id: NodeId| #[trigger] a.contains(id) <==> b.contains(id),
    ensures
        revoted(s, a) == revoted(s, b),
{
    lemma_exact(a);
    lemma_exact(b);
    lemma_sorted_set(a, key_of::<NodeId>());
    lemma_sorted_set(b, key_of::<NodeId>());
    assert forall|id: NodeId| #[trigger] voter_set(a).contains(id) <==> voter_set(b).contains(
        id,
    ) by {
        assert(a.contains(id) <==> b.contains(id));
    }
    lemma_strictly_ascending_unique(voter_set(a), voter_set(b), key_of::<NodeId>());
}

/// Registering a member twice is registering it once.
pub proof fn law_add_node_is_idempotent(s: StateView, n: NodeView)
    requires
        canonical(s),
    ensures
        applied(applied(s, ChangeView::AddNode(n)), ChangeView::AddNode(n)) == applied(
            s,
            ChangeView::AddNode(n),
        ),
{
    lemma_put_idempotent(s.nodes, node_key(), n);
}

/// A registered member is in the document, and every member with another id stays.
pub proof fn law_add_node_registers_it(s: StateView, n: NodeView, m: NodeView)
    requires
        canonical(s),
    ensures
        applied(s, ChangeView::AddNode(n)).nodes.contains(m) <==> (m == n || (s.nodes.contains(m)
            && m.id != n.id)),
{
    lemma_put(s.nodes, node_key(), n);
}

/// Taking a member out removes it and no other; doing it again changes nothing.
pub proof fn law_remove_node_is_idempotent(s: StateView, id: NodeId, m: NodeView)
    requires
        canonical(s),
    ensures
        applied(s, ChangeView::RemoveNode(id)).nodes.contains(m) <==> (s.nodes.contains(m) && m.id
            != id),
        applied(applied(s, ChangeView::RemoveNode(id)), ChangeView::RemoveNode(id)) == applied(
            s,
            ChangeView::RemoveNode(id),
        ),
{
    let key = node_key();
    let k = id.0 as int;
    lemma_without(s.nodes, key, k);
    let r = without(s.nodes, key, k);
    lemma_without(r, key, k);
    let q = without(r, key, k);
    assert forall|x: NodeView| #[trigger] q.contains(x) <==> r.contains(x) by {
        assert(r.contains(x) <==> (s.nodes.contains(x) && key(x) != k));
    }
    lemma_strictly_ascending_unique(q, r, key);
    assert(key(m) != k <==> m.id != id);
}

/// Taking a member out undoes its registration.
pub proof fn law_remove_undoes_add(s: StateView, n: NodeView)
    requires
        canonical(s),
    ensures
        applied(applied(s, ChangeView::AddNode(n)), ChangeView::RemoveNode(n.id)) == applied(
            s,
            ChangeView::RemoveNode(n.id),
        ),
{
    lemma_without_put(s.nodes, node_key(), n);
}

/// Members with different ids can be registered in either order.
pub proof fn law_add_nodes_commute(s: StateView, a: NodeView, b: NodeView)
    requires
        unrepeated(s),
        a.id != b.id,
    ensures
        applied(applied(s, ChangeView::AddNode(a)), ChangeView::AddNode(b)) == applied(
            applied(s, ChangeView::AddNode(b)),
            ChangeView::AddNode(a),
        ),
{
    lemma_put_commutes(s.nodes, node_key(), a, b);
}

/// One member can be registered and another taken out in either order.
pub proof fn law_add_and_remove_commute(s: StateView, n: NodeView, id: NodeId)
    requires
        unrepeated(s),
        n.id != id,
    ensures
        applied(applied(s, ChangeView::AddNode(n)), ChangeView::RemoveNode(id)) == applied(
            applied(s, ChangeView::RemoveNode(id)),
            ChangeView::AddNode(n),
        ),
{
    lemma_put_without_commutes(s.nodes, node_key(), n, id.0 as int);
}

/// Members can be taken out in either order.
pub proof fn law_removals_commute(s: StateView, a: NodeId, b: NodeId)
    ensures
        applied(applied(s, ChangeView::RemoveNode(a)), ChangeView::RemoveNode(b)) == applied(
            applied(s, ChangeView::RemoveNode(b)),
            ChangeView::RemoveNode(a),
        ),
{
    lemma_without_commutes(s.nodes, node_key(), a.0 as int, b.0 as int);
}

/// Taking a member out and placing a position do not touch each other.
pub proof fn law_removal_and_placement_commute(s: StateView, id: NodeId, a: AssignmentView)
    ensures
        applied(applied(s, ChangeView::RemoveNode(id)), ChangeView::AssignShard(a)) == applied(
            applied(s, ChangeView::AssignShard(a)),
            ChangeView::RemoveNode(id),
        ),
{
}

/// A canonical document repeats nothing.
pub proof fn law_canonical_documents_repeat_nothing(s: StateView)
    requires
        canonical(s),
    ensures
        unrepeated(s),
{
}

/// Different positions can be placed in either order.
pub proof fn law_assignments_commute(s: StateView, a: AssignmentView, b: AssignmentView)
    requires
        unrepeated(s),
        a.position != b.position,
    ensures
        applied(applied(s, ChangeView::AssignShard(a)), ChangeView::AssignShard(b)) == applied(
            applied(s, ChangeView::AssignShard(b)),
            ChangeView::AssignShard(a),
        ),
{
    lemma_put_commutes(s.assignments, position_key(), a, b);
}

/// A placed position has exactly the new entry, and every other position keeps its own.
pub proof fn law_assign_replaces_one_position(s: StateView, a: AssignmentView, b: AssignmentView)
    requires
        canonical(s),
    ensures
        applied(s, ChangeView::AssignShard(a)).assignments.contains(b) <==> (b == a || (
        s.assignments.contains(b) && b.position != a.position)),
        applied(applied(s, ChangeView::AssignShard(a)), ChangeView::AssignShard(a)) == applied(
            s,
            ChangeView::AssignShard(a),
        ),
{
    lemma_put(s.assignments, position_key(), a);
    lemma_put_idempotent(s.assignments, position_key(), a);
}

/// Placing a position and registering a member do not touch each other.
pub proof fn law_membership_and_placement_commute(s: StateView, n: NodeView, a: AssignmentView)
    ensures
        applied(applied(s, ChangeView::AddNode(n)), ChangeView::AssignShard(a)) == applied(
            applied(s, ChangeView::AssignShard(a)),
            ChangeView::AddNode(n),
        ),
{
}

/// The placement identity moves only when the model or the ring is rebuilt.
pub proof fn law_generation_moves_only_on_rebuild(s: StateView, c: ChangeView)
    ensures
        applied(s, c).placement_generation == match c {
            ChangeView::BumpModelVersion(_) => saturating_next(s.placement_generation),
            ChangeView::SetShardCount(_) => saturating_next(s.placement_generation),
            _ => s.placement_generation,
        },
        applied(s, c).epoch == s.epoch,
        applied(s, c).voters == s.voters,
        applied(s, c).vnodes == s.vnodes,
{
}

/// A change of the model advances its version by one and takes its fingerprint; no other change
/// moves either.
pub proof fn law_the_model_advances_by_one(s: StateView, c: ChangeView)
    requires
        applicable(s, c),
    ensures
        c matches ChangeView::BumpModelVersion(f) ==> applied(s, c).model_version
            == s.model_version + 1 && applied(s, c).dict_fingerprint == f,
        !(c is BumpModelVersion) ==> applied(s, c).model_version == s.model_version && applied(
            s,
            c,
        ).dict_fingerprint == s.dict_fingerprint,
{
}

/// A rebuild of the model or of the ring gives a placement identity that was not there before, as
/// long as there are any left; the last one stays.
pub proof fn law_a_rebuild_changes_the_placement_identity(s: StateView, c: ChangeView)
    requires
        c is BumpModelVersion || c is SetShardCount,
    ensures
        s.placement_generation < u64::MAX ==> applied(s, c).placement_generation
            == s.placement_generation + 1,
        s.placement_generation == u64::MAX ==> applied(s, c).placement_generation == u64::MAX,
{
}

/// A change touches what it is about and nothing else: members change only when one comes or goes,
/// the map only when a position is placed or the count changes, the count only by a change of it,
/// and the voters, the epoch and the ring's grain by none.
pub proof fn law_a_change_touches_only_its_part(s: StateView, c: ChangeView)
    ensures
        ({
            let r = applied(s, c);
            &&& !(c is AddNode || c is RemoveNode) ==> r.nodes == s.nodes
            &&& !(c is AssignShard || c is SetShardCount) ==> r.assignments == s.assignments
            &&& c matches ChangeView::SetShardCount(n) ==> r.num_shards == n
            &&& !(c is SetShardCount) ==> r.num_shards == s.num_shards
            &&& !(c is BumpModelVersion || c is SetShardCount) ==> r.placement_generation
                == s.placement_generation
            &&& r.voters == s.voters && r.epoch == s.epoch && r.vnodes == s.vnodes
        }),
{
}

/// A commit is the change and one more epoch.
pub proof fn law_a_commit_counts_once(s: StateView, c: ChangeView)
    requires
        s.epoch < u64::MAX,
    ensures
        committed(s, c).epoch == s.epoch + 1,
        committed(s, c) == (StateView { epoch: committed(s, c).epoch, ..applied(s, c) }),
{
}

/// The document that a cluster starts with: one manager, which votes alone, and what it was given.
pub proof fn law_a_cluster_starts_with_one_manager(num_shards: u32, vnodes: u32, fingerprint: u64)
    ensures
        ({
            let s = single_node_view(num_shards, vnodes, fingerprint);
            &&& s.nodes.len() == 1 && s.nodes[0].id == NodeId(0) && s.nodes[0].role
                == NodeRole::Manager && s.nodes[0].addr is None
            &&& s.voters == seq![s.nodes[0].id]
            &&& s.num_shards == num_shards && s.vnodes == vnodes && s.dict_fingerprint
                == fingerprint
            &&& s.model_version == 0 && s.epoch == 0
            &&& s.placement_generation == 1
        }),
{
}

/// The document after committing `changes` in order.
pub open spec fn replayed(s: StateView, changes: Seq<ChangeView>) -> StateView
    decreases changes.len(),
{
    if changes.len() == 0 {
        s
    } else {
        committed(replayed(s, changes.drop_last()), changes.last())
    }
}

/// Replaying a log of changes gives a canonical document whose epoch counts them.
pub proof fn law_replay_counts_and_stays_canonical(s: StateView, changes: Seq<ChangeView>)
    requires
        canonical(s),
        s.epoch + changes.len() <= u64::MAX,
    ensures
        canonical(replayed(s, changes)),
        replayed(s, changes).epoch == s.epoch + changes.len(),
    decreases changes.len(),
{
    if changes.len() > 0 {
        law_replay_counts_and_stays_canonical(s, changes.drop_last());
        law_changes_keep_the_document_canonical(
            replayed(s, changes.drop_last()),
            changes.last(),
        );
        law_generation_moves_only_on_rebuild(replayed(s, changes.drop_last()), changes.last());
    }
}

/// Replaying a log in two parts is replaying it whole.
pub proof fn law_replay_splits(s: StateView, a: Seq<ChangeView>, b: Seq<ChangeView>)
    ensures
        replayed(s, a + b) == replayed(replayed(s, a), b),
    decreases b.len(),
{
    if b.len() == 0 {
        assert(a + b =~= a);
    } else {
        law_replay_splits(s, a, b.drop_last());
        assert((a + b).drop_last() =~= a + b.drop_last());
        assert((a + b).last() == b.last());
    }
}

} // verus!
