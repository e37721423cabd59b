//! The coordinator's operations on the control plane: who owns a position, who is a member, and
//! the placement that follows from the members.
use crate::allocator::{
    at_position, changed_assignments, changed_from, entry, find_position, plan, plan_assignments,
};
use crate::control::{
    assignment_views, committed, position_key, AssignmentView, ChangeView, ClusterState,
    ClusterStateChange, ControlPlane, NodeDescriptor, NodeId, NodeView, ShardAssignment, StateView,
};
use crate::control_laws::{canonical, replayed};
use crate::order::{distinct_keys, lemma_put, put};
use crate::seqs::{lemma_filter_distinct, lemma_filter_members, lemma_find};
use crate::shard::{ShardError, ShardErrorView};
use crate::text::{decimal, with_number};
use vstd::prelude::*;

verus! {

/// The committed document.
pub fn control_state<C: ControlPlane>(control: &C) -> (r: Result<ClusterState, ShardError>)
    ensures
        match r {
            Ok(s) => s@ == control.state(),
            Err(e) => e@ is ControlPlane,
        },
{
    match control.cluster_state() {
        Ok(s) => Ok(s.duplicate()),
        Err(e) => Err(e.into_shard_error()),
    }
}

/// The assignment of a position, where the document has one.
pub open spec fn owner(s: StateView, position: usize) -> Option<AssignmentView> {
    if position <= u32::MAX {
        entry(s.assignments, position as u32)
    } else {
        None
    }
}

/// The assignment of a position. A position that nobody owns is an error: to skip it would be to
/// miss its matches.
pub fn assignment_for(state: &ClusterState, position: usize) -> (r: Result<
    ShardAssignment,
    ShardError,
>)
    ensures
        match r {
            Ok(a) => owner(state@, position) == Some(a@),
            Err(e) => owner(state@, position) is None && e@ == ShardErrorView::ControlPlane(
                "no assignment for shard position "@ + decimal(position as nat),
            ),
        },
{
    if position <= u32::MAX as usize {
        match find_position(&state.assignments, position as u32) {
            Some(i) => {
                return Ok(state.assignments[i].duplicate());
            },
            None => {},
        }
    }
    let m = with_number("no assignment for shard position ", position as u64, "");
    assert(m@ =~= "no assignment for shard position "@ + decimal(position as nat)) by {
        reveal_strlit("");
    }
    Err(ShardError::ControlPlane(m))
}

/// Proposes one change.
fn propose<C: ControlPlane>(control: &mut C, change: ClusterStateChange) -> (r: Result<
    (),
    ShardError,
>)
    requires
        old(control).state().epoch < u64::MAX,
        !(change@ is BumpModelVersion),
    ensures
        match r {
            Ok(_) => final(control).state() == committed(old(control).state(), change@),
            Err(e) => final(control).state() == old(control).state() && e@ is ControlPlane,
        },
{
    match control.propose(change) {
        Ok(_) => Ok(()),
        Err(e) => Err(e.into_shard_error()),
    }
}

/// Commits the assignment of one position. No data is moved.
pub fn reassign_shard<C: ControlPlane>(control: &mut C, assignment: ShardAssignment) -> (r: Result<
    (),
    ShardError,
>)
    requires
        old(control).state().epoch < u64::MAX,
    ensures
        match r {
            Ok(_) => final(control).state() == committed(
                old(control).state(),
                ChangeView::AssignShard(assignment@),
            ),
            Err(e) => final(control).state() == old(control).state() && e@ is ControlPlane,
        },
{
    propose(control, ClusterStateChange::AssignShard(assignment))
}

/// Makes a node a member, or replaces the member with its id.
pub fn register_node<C: ControlPlane>(control: &mut C, node: NodeDescriptor) -> (r: Result<
    (),
    ShardError,
>)
    requires
        old(control).state().epoch < u64::MAX,
    ensures
        match r {
            Ok(_) => final(control).state() == committed(
                old(control).state(),
                ChangeView::AddNode(node@),
            ),
            Err(e) => final(control).state() == old(control).state() && e@ is ControlPlane,
        },
{
    propose(control, ClusterStateChange::AddNode(node))
}

/// Removes a member. Its positions stay where they are until the next rebalance.
pub fn deregister_node<C: ControlPlane>(control: &mut C, id: NodeId) -> (r: Result<(), ShardError>)
    requires
        old(control).state().epoch < u64::MAX,
    ensures
        match r {
            Ok(_) => final(control).state() == committed(
                old(control).state(),
                ChangeView::RemoveNode(id),
            ),
            Err(e) => final(control).state() == old(control).state() && e@ is ControlPlane,
        },
{
    propose(control, ClusterStateChange::RemoveNode(id))
}

/// The ids of the members.
pub open spec fn node_ids(nodes: Seq<NodeView>) -> Seq<NodeId> {
    nodes.map_values(|n: NodeView| n.id)
}

/// The assignments that a rebalance commits, in the order of their position.
pub open spec fn rebalance_changes(s: StateView, rf: nat) -> Seq<AssignmentView> {
    plan(node_ids(s.nodes), s.num_shards, rf).filter(changed_from(s.assignments))
}

/// The proposals for a run of assignments.
pub open spec fn proposals(s: Seq<AssignmentView>) -> Seq<ChangeView> {
    s.map_values(|a: AssignmentView| ChangeView::AssignShard(a))
}

/// The assignments that a rebalance commits. A cluster without members has no placement.
pub fn plan_rebalance(state: &ClusterState, rf: usize) -> (r: Result<
    Vec<ShardAssignment>,
    ShardError,
>)
    ensures
        match r {
            Ok(v) => state@.nodes.len() > 0 && assignment_views(v@) == rebalance_changes(
                state@,
                rf as nat,
            ),
            Err(e) => state@.nodes.len() == 0 && e@ == ShardErrorView::ControlPlane(
                "rebalance: the cluster has no nodes to place shards on"@,
            ),
        },
{
    let nodes = member_ids(state);
    if nodes.len() == 0 {
        return Err(
            ShardError::ControlPlane(
                String::from_str("rebalance: the cluster has no nodes to place shards on"),
            ),
        );
    }
    let desired = plan_assignments(&nodes, state.num_shards, rf);
    Ok(changed_assignments(&state.assignments, desired))
}

/// Commits the placement that follows from the members, and only where it differs. The number of
/// positions that changed is returned. Where a proposal is refused, those before it stand and none
/// after it is made.
pub fn rebalance<C: ControlPlane>(control: &mut C, rf: usize) -> (r: Result<usize, ShardError>)
    requires
        old(control).state().epoch + old(control).state().num_shards <= u64::MAX,
    ensures
        match r {
            Ok(n) => {
                let changes = rebalance_changes(old(control).state(), rf as nat);
                &&& old(control).state().nodes.len() > 0
                &&& n == changes.len()
                &&& final(control).state() == replayed(old(control).state(), proposals(changes))
            },
            Err(e) => {
                let changes = rebalance_changes(old(control).state(), rf as nat);
                &&& e@ is ControlPlane
                &&& exists|k: int|
                    0 <= k <= changes.len() && final(control).state() == #[trigger] replayed(
                        old(control).state(),
                        proposals(changes.take(k)),
                    )
            },
        },
        old(control).state().nodes.len() == 0 ==> r is Err && final(control).state() == old(
            control,
        ).state(),
{
    let ghost start = control.state();
    let ghost changes = rebalance_changes(start, rf as nat);
    proof {
        assert(proposals(changes.take(0)) =~= Seq::empty());
        assert(replayed(start, proposals(changes.take(0))) == start);
    }
    let state = match control.cluster_state() {
        Ok(s) => s,
        Err(e) => return Err(e.into_shard_error()),
    };
    let changed = match plan_rebalance(&state, rf) {
        Ok(changed) => changed,
        Err(e) => return Err(e),
    };
    let count: usize = changed.len();
    let ghost all = changed@;
    proof {
        plan(node_ids(start.nodes), start.num_shards, rf as nat).lemma_filter_len(
            changed_from(start.assignments),
        );
        assert(assignment_views(all) == changes);
        assert(changes.len() <= start.num_shards);
    }
    for a in it: changed.into_iter()
        invariant
            it.seq() == all,
            assignment_views(all) == changes,
            start == old(control).state(),
            changes == rebalance_changes(start, rf as nat),
            changes.len() <= start.num_shards,
            start.epoch + start.num_shards <= u64::MAX,
            start.nodes.len() > 0,
            control.state() == replayed(start, proposals(changes.take(it.index()))),
            control.state().epoch == start.epoch + it.index(),
    {
        let ghost i = it.index();
        let ghost av = a@;
        proof {
            assert(av == changes[i]);
            let next = proposals(changes.take(i + 1));
            assert(next.drop_last() =~= proposals(changes.take(i)));
            assert(next.last() == ChangeView::AssignShard(av));
        }
        match propose(control, ClusterStateChange::AssignShard(a)) {
            Ok(_) => {},
            Err(e) => {
                assert(0 <= i <= changes.len());
                return Err(e);
            },
        }
    }
    assert(changes.take(changes.len() as int) =~= changes);
    Ok(count)
}

/// The ids of the members.
fn member_ids(state: &ClusterState) -> (r: Vec<NodeId>)
    ensures
        r@ == node_ids(state@.nodes),
{
    let mut r: Vec<NodeId> = Vec::new();
    let n: usize = state.nodes.len();
    let mut i: usize = 0;
    while i < n
        invariant
            n == state.nodes@.len(),
            i <= n,
            r@ =~= node_ids(state@.nodes).take(i as int),
        decreases n - i,
    {
        r.push(state.nodes[i].id);
        i = i + 1;
    }
    assert(node_ids(state@.nodes).take(n as int) =~= node_ids(state@.nodes));
    r
}

/// Whether a replica can be added at a position: the cluster must be durable and have it.
pub fn check_add_replica(durable: bool, position: usize, shards: usize) -> (r: Result<
    (),
    ShardError,
>)
    ensures
        match r {
            Ok(_) => durable && position < shards,
            Err(e) => if !durable {
                e@ == ShardErrorView::Config(
                    "add_replica requires a durable cluster (no on-disk segments to copy)"@,
                )
            } else {
                position >= shards && e@ == ShardErrorView::Config(
                    "add_replica: shard position "@ + decimal(position as nat) + " out of range"@,
                )
            },
        },
{
    if !durable {
        return Err(
            ShardError::Config(
                String::from_str(
                    "add_replica requires a durable cluster (no on-disk segments to copy)",
                ),
            ),
        );
    }
    if position >= shards {
        return Err(
            ShardError::Config(
                with_number("add_replica: shard position ", position as u64, " out of range"),
            ),
        );
    }
    Ok(())
}

/// Events on their way to an observer: kept until there is one, and handed on from then.
pub struct EventGate<E> {
    attached: bool,
    pending: Vec<E>,
}

impl<E> EventGate<E> {
    /// Whether there is an observer.
    pub closed spec fn is_attached(self) -> bool {
        self.attached
    }

    /// The events that were not handed on yet.
    pub closed spec fn pending(self) -> Seq<E> {
        self.pending@
    }

    /// A gate without an observer.
    pub fn new() -> (r: Self)
        ensures
            !r.is_attached(),
            r.pending() == Seq::<E>::empty(),
    {
        let r = EventGate { attached: false, pending: Vec::new() };
        assert(r.pending() =~= Seq::<E>::empty());
        r
    }

    /// Takes an event: hands it on where there is an observer, else keeps it.
    pub fn emit(&mut self, event: E) -> (r: Option<E>)
        ensures
            final(self).is_attached() == old(self).is_attached(),
            if old(self).is_attached() {
                r == Some(event) && final(self).pending() == old(self).pending()
            } else {
                r is None && final(self).pending() == old(self).pending().push(event)
            },
    {
        if self.attached {
            Some(event)
        } else {
            self.pending.push(event);
            None
        }
    }

    /// Attaches an observer and gives it the events kept so far, in order.
    pub fn attach(&mut self) -> (r: Vec<E>)
        ensures
            final(self).is_attached(),
            r@ == old(self).pending(),
            final(self).pending() == Seq::<E>::empty(),
    {
        let mut r: Vec<E> = Vec::new();
        std::mem::swap(&mut r, &mut self.pending);
        self.attached = true;
        assert(self.pending() =~= Seq::<E>::empty());
        r
    }
}

/// What the map has for a position after an assignment was put in.
proof fn lemma_entry_put(m: Seq<AssignmentView>, a: AssignmentView, p: u32)
    requires
        distinct_keys(m, position_key()),
    ensures
        distinct_keys(put(m, position_key(), a), position_key()),
        entry(put(m, position_key(), a), p) == if p == a.position {
            Some(a)
        } else {
            entry(m, p)
        },
{
    let key = position_key();
    lemma_put(m, key, a);
    let after = put(m, key, a);
    lemma_find(m, at_position(p));
    lemma_find(after, at_position(p));
    let want = if p == a.position {
        Some(a)
    } else {
        entry(m, p)
    };
    match want {
        Some(x) => {
            assert(after.contains(x)) by {
                if p != a.position {
                    assert(m.contains(x));
                }
            }
            let i = choose|i: int| 0 <= i < after.len() && after[i] == x;
            assert(at_position(p)(after[i]));
            let y = entry(after, p)->0;
            let j = choose|j: int| 0 <= j < after.len() && #[trigger] after[j] == y;
            if i < j {
                assert(key(after[i]) < key(after[j]));
            } else if j < i {
                assert(key(after[j]) < key(after[i]));
            }
        },
        None => {
            if let Some(y) = entry(after, p) {
                assert(after.contains(y));
                assert(m.contains(y));
                let j = choose|j: int| 0 <= j < m.len() && m[j] == y;
                assert(!at_position(p)(m[j]));
            }
        },
    }
}

/// What a run of assignments of different positions comes to: each is in force, and every other
/// position keeps what it had.
pub proof fn lemma_assignments_committed(s: StateView, ts: Seq<AssignmentView>)
    requires
        distinct_keys(s.assignments, position_key()),
        distinct_keys(ts, position_key()),
    ensures
        ({
            let r = replayed(s, proposals(ts));
            &&& distinct_keys(r.assignments, position_key())
            &&& r.nodes == s.nodes
            &&& r.num_shards == s.num_shards
            &&& forall|i: int|
                0 <= i < ts.len() ==> entry(r.assignments, (#[trigger] ts[i]).position) == Some(
                    ts[i],
                )
            &&& forall|p: u32|
                (forall|i: int| 0 <= i < ts.len() ==> (#[trigger] ts[i]).position != p) ==> (
                #[trigger] entry(r.assignments, p)) == entry(s.assignments, p)
        }),
    decreases ts.len(),
{
    if ts.len() > 0 {
        let d = ts.drop_last();
        let a = ts.last();
        let n = ts.len() - 1;
        assert(distinct_keys(d, position_key())) by {
            assert forall|i: int, j: int| 0 <= i < j < d.len() implies position_key()(
                #[trigger] d[i],
            ) != position_key()(#[trigger] d[j]) by {
                assert(position_key()(ts[i]) != position_key()(ts[j]));
            }
        }
        lemma_assignments_committed(s, d);
        assert(proposals(ts).drop_last() =~= proposals(d));
        assert(proposals(ts).last() == ChangeView::AssignShard(a));
        let before = replayed(s, proposals(d));
        let r = replayed(s, proposals(ts));
        lemma_entry_put(before.assignments, a, a.position);
        assert forall|i: int| 0 <= i < ts.len() implies entry(
            r.assignments,
            (#[trigger] ts[i]).position,
        ) == Some(ts[i]) by {
            if i < n {
                assert(d[i] == ts[i]);
                assert(position_key()(ts[i]) != position_key()(ts[n]));
                lemma_entry_put(before.assignments, a, ts[i].position);
            }
        }
        assert forall|p: u32|
            (forall|i: int| 0 <= i < ts.len() ==> (#[trigger] ts[i]).position != p) implies (
        #[trigger] entry(r.assignments, p)) == entry(s.assignments, p) by {
            assert(ts[n].position != p);
            assert forall|i: int| 0 <= i < d.len() implies (#[trigger] d[i]).position != p by {
                assert(ts[i].position != p);
            }
            lemma_entry_put(before.assignments, a, p);
        }
    }
}

/// The planned assignments are one per position.
proof fn lemma_plan_positions(nodes: Seq<NodeId>, num_shards: u32, rf: nat)
    ensures
        forall|i: int|
            0 <= i < plan(nodes, num_shards, rf).len() ==> (#[trigger] plan(
                nodes,
                num_shards,
                rf,
            )[i]).position == i,
{
}

/// Assignments change neither the members nor the number of shards, and keep a canonical document
/// canonical.
proof fn lemma_assigning_keeps(s: StateView, ts: Seq<AssignmentView>)
    ensures
        replayed(s, proposals(ts)).nodes == s.nodes,
        replayed(s, proposals(ts)).num_shards == s.num_shards,
        canonical(s) ==> canonical(replayed(s, proposals(ts))),
    decreases ts.len(),
{
    if ts.len() > 0 {
        let p = proposals(ts);
        lemma_assigning_keeps(s, ts.drop_last());
        assert(p.drop_last() =~= proposals(ts.drop_last()));
        assert(p.last() == ChangeView::AssignShard(ts.last()));
        if canonical(s) {
            lemma_put(replayed(s, p.drop_last()).assignments, position_key(), ts.last());
        }
    }
}

/// A rebalance settles: a second one finds nothing to change, whatever the order of the document,
/// as long as it has no position twice.
pub proof fn law_rebalance_settles(s: StateView, rf: nat)
    requires
        distinct_keys(s.assignments, position_key()),
    ensures
        rebalance_changes(replayed(s, proposals(rebalance_changes(s, rf))), rf) == Seq::<
            AssignmentView,
        >::empty(),
{
    let changes = rebalance_changes(s, rf);
    let desired = plan(node_ids(s.nodes), s.num_shards, rf);
    let after = replayed(s, proposals(changes));
    let key = position_key();
    lemma_plan_positions(node_ids(s.nodes), s.num_shards, rf);
    assert(distinct_keys(desired, key)) by {
        assert forall|i: int, j: int| 0 <= i < j < desired.len() implies key(#[trigger] desired[i])
            != key(#[trigger] desired[j]) by {
            assert(desired[i].position == i && desired[j].position == j);
        }
    }
    lemma_filter_distinct(desired, changed_from(s.assignments), key);
    lemma_assignments_committed(s, changes);
    lemma_filter_members(desired, changed_from(s.assignments));
    let left = rebalance_changes(after, rf);
    lemma_filter_members(desired, changed_from(after.assignments));
    if left.len() > 0 {
        let d = left[0];
        assert(left.contains(d));
        assert(desired.contains(d));
        if changed_from(s.assignments)(d) {
            assert(changes.contains(d));
            let i = choose|i: int| 0 <= i < changes.len() && changes[i] == d;
            assert(entry(after.assignments, changes[i].position) == Some(changes[i]));
        } else {
            let m = choose|m: int| 0 <= m < desired.len() && desired[m] == d;
            assert forall|i: int| 0 <= i < changes.len() implies (#[trigger] changes[i]).position
                != d.position by {
                assert(changes.contains(changes[i]));
                let k = choose|k: int| 0 <= k < desired.len() && desired[k] == changes[i];
                assert(desired[k].position == k && desired[m].position == m);
            }
            assert(entry(after.assignments, d.position) == entry(s.assignments, d.position));
        }
        assert(!changed_from(after.assignments)(d));
    }
    assert(left =~= Seq::empty());
}

/// Members do not change in a rebalance, and a canonical document stays canonical.
pub proof fn law_rebalance_keeps_the_members(s: StateView, rf: nat)
    ensures
        replayed(s, proposals(rebalance_changes(s, rf))).nodes == s.nodes,
        replayed(s, proposals(rebalance_changes(s, rf))).num_shards == s.num_shards,
        canonical(s) ==> canonical(replayed(s, proposals(rebalance_changes(s, rf)))),
{
    lemma_assigning_keeps(s, rebalance_changes(s, rf));
}

/// A position is owned exactly where the map has it, by its first assignment there.
pub proof fn law_an_owner_is_in_the_map(s: StateView, position: usize)
    ensures
        owner(s, position) matches Some(a) ==> a.position == position && s.assignments.contains(a),
        owner(s, position) is None <==> forall|k: int|
            0 <= k < s.assignments.len() ==> (#[trigger] s.assignments[k]).position != position,
{
    if position <= u32::MAX {
        let p = at_position(position as u32);
        crate::seqs::lemma_find(s.assignments, p);
        if owner(s, position) is None {
            assert forall|k: int| 0 <= k < s.assignments.len() implies (
            #[trigger] s.assignments[k]).position != position by {
                assert(!p(s.assignments[k]));
            }
        } else {
            let a = owner(s, position)->0;
            let k = choose|k: int|
                0 <= k < s.assignments.len() && #[trigger] s.assignments[k] == a && p(a);
            assert(s.assignments[k].position == position);
        }
    }
}

/// A rebalance commits exactly the planned assignments that are not what the map has for their
/// position; afterwards every position has its planned assignment, and none beyond the shard count
/// was touched.
pub proof fn law_a_rebalance_places_every_position(s: StateView, rf: nat, p: u32)
    requires
        distinct_keys(s.assignments, position_key()),
    ensures
        p < s.num_shards ==> entry(
            replayed(s, proposals(rebalance_changes(s, rf))).assignments,
            p,
        ) == Some(crate::allocator::planned(p, node_ids(s.nodes), rf)),
        p >= s.num_shards ==> entry(
            replayed(s, proposals(rebalance_changes(s, rf))).assignments,
            p,
        ) == entry(s.assignments, p),
        p < s.num_shards ==> (rebalance_changes(s, rf).contains(
            crate::allocator::planned(p, node_ids(s.nodes), rf),
        ) <==> entry(s.assignments, p) != Some(
            crate::allocator::planned(p, node_ids(s.nodes), rf),
        )),
{
    let changes = rebalance_changes(s, rf);
    let desired = plan(node_ids(s.nodes), s.num_shards, rf);
    let after = replayed(s, proposals(changes));
    let key = position_key();
    lemma_plan_positions(node_ids(s.nodes), s.num_shards, rf);
    assert(distinct_keys(desired, key)) by {
        assert forall|i: int, j: int| 0 <= i < j < desired.len() implies key(#[trigger] desired[i])
            != key(#[trigger] desired[j]) by {
            assert(desired[i].position == i && desired[j].position == j);
        }
    }
    lemma_filter_distinct(desired, changed_from(s.assignments), key);
    lemma_assignments_committed(s, changes);
    lemma_filter_members(desired, changed_from(s.assignments));
    if p < s.num_shards {
        let d = desired[p as int];
        assert(d == crate::allocator::planned(p, node_ids(s.nodes), rf));
        assert(d.position == p);
        assert(desired.contains(d));
        if changed_from(s.assignments)(d) {
            assert(changes.contains(d));
            let i = choose|i: int| 0 <= i < changes.len() && changes[i] == d;
            assert(entry(after.assignments, changes[i].position) == Some(changes[i]));
        } else {
            assert forall|i: int| 0 <= i < changes.len() implies (#[trigger] changes[i]).position
                != p by {
                assert(changes.contains(changes[i]));
                let k = choose|k: int| 0 <= k < desired.len() && desired[k] == changes[i];
                assert(desired[k].position == k);
            }
            assert(entry(after.assignments, p) == entry(s.assignments, p));
        }
    } else {
        assert forall|i: int| 0 <= i < changes.len() implies (#[trigger] changes[i]).position
            != p by {
            assert(changes.contains(changes[i]));
            let k = choose|k: int| 0 <= k < desired.len() && desired[k] == changes[i];
            assert(desired[k].position == k);
        }
        assert(entry(after.assignments, p) == entry(s.assignments, p));
    }
}

} // verus!
