//! The cluster-state document and the control plane that commits changes to it.
//!
//! A change is applied by [`apply`]; what it does to the document is [`applied`]. The in-memory
//! control plane commits every proposal at once and counts the commits in the document's epoch.
use crate::order::{
    insertion_sort, key_differs, key_of, lemma_stable_sort_map, put, stable_sort, without, Keyed,
};
use crate::ownership::{PlacementGeneration, INITIAL_GENERATION};
use crate::seqs::{lemma_filter_map, lemma_filter_step};
use crate::shard::{ShardError, ShardErrorView};
use crate::text::{copy_opt, decimal, opt_text, push_decimal, quote, quoted};
use std::sync::Arc;
use vstd::prelude::*;

verus! {

/// The identity of a node.
#[derive(Clone, Copy, PartialEq, Eq, PartialOrd, Ord, Hash, Debug, Structural)]
pub struct NodeId(pub u64);

/// What a node may be.
#[derive(Clone, Copy, PartialEq, Eq, Debug, Structural)]
pub enum NodeRole {
    /// It holds shard data.
    Data,
    /// It may lead and vote.
    Manager,
}

/// A member of the cluster: identity, address and role.
#[derive(Clone, PartialEq, Eq, Debug)]
pub struct NodeDescriptor {
    pub id: NodeId,
    pub addr: Option<String>,
    pub role: NodeRole,
}

/// A member, as a mathematical value.
pub ghost struct NodeView {
    pub id: NodeId,
    pub addr: Option<Seq<char>>,
    pub role: NodeRole,
}

impl View for NodeDescriptor {
    type V = NodeView;

    open spec fn view(&self) -> NodeView {
        NodeView { id: self.id, addr: opt_text(self.addr), role: self.role }
    }
}

/// Where one shard position lives.
#[derive(Clone, PartialEq, Eq, Debug)]
pub struct ShardAssignment {
    pub position: u32,
    pub primary: NodeId,
    pub replicas: Vec<NodeId>,
}

/// An assignment, as a mathematical value.
#[verifier::ext_equal]
pub ghost struct AssignmentView {
    pub position: u32,
    pub primary: NodeId,
    pub replicas: Seq<NodeId>,
}

impl View for ShardAssignment {
    type V = AssignmentView;

    open spec fn view(&self) -> AssignmentView {
        AssignmentView {
            position: self.position,
            primary: self.primary,
            replicas: self.replicas@,
        }
    }
}

/// The number of changes committed so far.
#[derive(Clone, Copy, PartialEq, Eq, PartialOrd, Ord, Debug, Default, Structural)]
pub struct StateVersion(pub u64);

/// The document that the control plane holds consensus over.
#[derive(Clone, PartialEq, Eq, Debug)]
pub struct ClusterState {
    /// Advanced by every commit.
    pub epoch: u64,
    /// The members, sorted by id.
    pub nodes: Vec<NodeDescriptor>,
    /// The voters, sorted, none twice.
    pub voters: Vec<NodeId>,
    /// One entry per shard position, sorted by position.
    pub assignments: Vec<ShardAssignment>,
    pub num_shards: u32,
    pub vnodes: u32,
    pub dict_fingerprint: u64,
    pub model_version: u64,
    /// Advanced by a rebuild of the model or the ring.
    pub placement_generation: u64,
}

/// The document, as a mathematical value.
#[verifier::ext_equal]
pub ghost struct StateView {
    pub epoch: u64,
    pub nodes: Seq<NodeView>,
    pub voters: Seq<NodeId>,
    pub assignments: Seq<AssignmentView>,
    pub num_shards: u32,
    pub vnodes: u32,
    pub dict_fingerprint: u64,
    pub model_version: u64,
    pub placement_generation: u64,
}

/// The members as mathematical values.
pub open spec fn node_views(s: Seq<NodeDescriptor>) -> Seq<NodeView> {
    s.map_values(|n: NodeDescriptor| n@)
}

/// The assignments as mathematical values.
pub open spec fn assignment_views(s: Seq<ShardAssignment>) -> Seq<AssignmentView> {
    s.map_values(|a: ShardAssignment| a@)
}

impl View for ClusterState {
    type V = StateView;

    open spec fn view(&self) -> StateView {
        StateView {
            epoch: self.epoch,
            nodes: node_views(self.nodes@),
            voters: self.voters@,
            assignments: assignment_views(self.assignments@),
            num_shards: self.num_shards,
            vnodes: self.vnodes,
            dict_fingerprint: self.dict_fingerprint,
            model_version: self.model_version,
            placement_generation: self.placement_generation,
        }
    }
}

/// One change that the control plane commits as a whole.
#[derive(Clone, PartialEq, Eq, Debug)]
pub enum ClusterStateChange {
    /// Registers a member, or replaces the one with the same id.
    AddNode(NodeDescriptor),
    /// Takes a member out.
    RemoveNode(NodeId),
    /// Places a shard position, in place of its old entry.
    AssignShard(ShardAssignment),
    /// Advances the feature model.
    BumpModelVersion { dict_fingerprint: u64 },
    /// Changes the number of shard positions.
    SetShardCount { num_shards: u32 },
}

/// A change, as a mathematical value.
pub ghost enum ChangeView {
    AddNode(NodeView),
    RemoveNode(NodeId),
    AssignShard(AssignmentView),
    BumpModelVersion(u64),
    SetShardCount(u32),
}

impl View for ClusterStateChange {
    type V = ChangeView;

    open spec fn view(&self) -> ChangeView {
        match self {
            ClusterStateChange::AddNode(n) => ChangeView::AddNode(n@),
            ClusterStateChange::RemoveNode(id) => ChangeView::RemoveNode(*id),
            ClusterStateChange::AssignShard(a) => ChangeView::AssignShard(a@),
            ClusterStateChange::BumpModelVersion { dict_fingerprint } =>
                ChangeView::BumpModelVersion(*dict_fingerprint),
            ClusterStateChange::SetShardCount { num_shards } => ChangeView::SetShardCount(
                *num_shards,
            ),
        }
    }
}

// ---- what a change does ----

/// The sort key of members.
pub open spec fn node_key() -> spec_fn(NodeView) -> int {
    |n: NodeView| n.id.0 as int
}

/// The sort key of assignments.
pub open spec fn position_key() -> spec_fn(AssignmentView) -> int {
    |a: AssignmentView| a.position as int
}

/// The members without the one that has this id.
pub open spec fn without_node(nodes: Seq<NodeView>, id: NodeId) -> Seq<NodeView> {
    without(nodes, node_key(), id.0 as int)
}

/// The assignments without the one for this position.
pub open spec fn without_position(s: Seq<AssignmentView>, position: u32) -> Seq<AssignmentView> {
    without(s, position_key(), position as int)
}

/// Whether some assignment is for `position`.
pub open spec fn assigned(s: Seq<AssignmentView>, position: u32) -> bool {
    exists|i: int| 0 <= i < s.len() && #[trigger] s[i].position == position
}

/// The assignment of a position that nobody placed: on node zero, without replicas.
pub open spec fn default_assignment(position: u32) -> AssignmentView {
    AssignmentView { position, primary: NodeId(0), replicas: Seq::empty() }
}

/// `s` with a default for each of the first `n` positions that has no entry.
pub open spec fn with_defaults(s: Seq<AssignmentView>, n: nat) -> Seq<AssignmentView>
    decreases n,
{
    if n == 0 {
        s
    } else {
        let t = with_defaults(s, (n - 1) as nat);
        if assigned(t, (n - 1) as u32) {
            t
        } else {
            t.push(default_assignment((n - 1) as u32))
        }
    }
}

/// One more, but not beyond the largest `u64`.
pub open spec fn saturating_next(n: u64) -> u64 {
    if n == u64::MAX {
        n
    } else {
        (n + 1) as u64
    }
}

/// The document after a change, apart from the epoch.
pub open spec fn applied(s: StateView, c: ChangeView) -> StateView {
    match c {
        ChangeView::AddNode(n) => StateView {
            nodes: put(s.nodes, node_key(), n),
            ..s
        },
        ChangeView::RemoveNode(id) => StateView { nodes: without_node(s.nodes, id), ..s },
        ChangeView::AssignShard(a) => StateView {
            assignments: put(s.assignments, position_key(), a),
            ..s
        },
        ChangeView::BumpModelVersion(fingerprint) => StateView {
            dict_fingerprint: fingerprint,
            model_version: (s.model_version + 1) as u64,
            placement_generation: saturating_next(s.placement_generation),
            ..s
        },
        ChangeView::SetShardCount(n) => StateView {
            num_shards: n,
            placement_generation: saturating_next(s.placement_generation),
            assignments: stable_sort(
                with_defaults(s.assignments.filter(|a: AssignmentView| a.position < n), n as nat),
                position_key(),
            ),
            ..s
        },
    }
}

/// The model version has room for one more.
pub open spec fn applicable(s: StateView, c: ChangeView) -> bool {
    c is BumpModelVersion ==> s.model_version < u64::MAX
}

impl Keyed for NodeDescriptor {
    open spec fn key(&self) -> int {
        self.id.0 as int
    }

    fn sort_key(&self) -> (k: u128) {
        self.id.0 as u128
    }
}

impl Keyed for ShardAssignment {
    open spec fn key(&self) -> int {
        self.position as int
    }

    fn sort_key(&self) -> (k: u128) {
        self.position as u128
    }
}

impl Keyed for NodeId {
    open spec fn key(&self) -> int {
        self.0 as int
    }

    fn sort_key(&self) -> (k: u128) {
        self.0 as u128
    }
}

impl NodeDescriptor {
    /// A copy.
    pub fn duplicate(&self) -> (r: Self)
        ensures
            r@ == self@,
    {
        NodeDescriptor { id: self.id, addr: copy_opt(&self.addr), role: self.role }
    }
}

/// Whether two lists of nodes are equal.
pub fn same_ids(a: &Vec<NodeId>, b: &Vec<NodeId>) -> (r: bool)
    ensures
        r == (a@ == b@),
{
    if a.len() != b.len() {
        return false;
    }
    let n: usize = a.len();
    let mut i: usize = 0;
    while i < n
        invariant
            n == a@.len(),
            n == b@.len(),
            i <= n,
            forall|k: int| 0 <= k < i ==> a@[k] == b@[k],
        decreases n - i,
    {
        if a[i].0 != b[i].0 {
            assert(a@[i as int] != b@[i as int]);
            return false;
        }
        i = i + 1;
    }
    assert(a@ =~= b@);
    true
}

impl ShardAssignment {
    /// A copy.
    pub fn duplicate(&self) -> (r: Self)
        ensures
            r@ == self@,
    {
        let r = ShardAssignment {
            position: self.position,
            primary: self.primary,
            replicas: self.replicas.clone(),
        };
        assert(r.replicas@ =~= self.replicas@);
        r
    }

    /// Whether two assignments are equal, replica order and all.
    pub fn same(&self, other: &Self) -> (r: bool)
        ensures
            r == (self@ == other@),
    {
        self.position == other.position && self.primary.0 == other.primary.0 && same_ids(
            &self.replicas,
            &other.replicas,
        )
    }
}

/// A copy of a list of members.
pub fn copy_nodes(v: &Vec<NodeDescriptor>) -> (r: Vec<NodeDescriptor>)
    ensures
        node_views(r@) == node_views(v@),
{
    let mut r: Vec<NodeDescriptor> = Vec::new();
    let n: usize = v.len();
    let mut i: usize = 0;
    while i < n
        invariant
            n == v@.len(),
            i <= n,
            r@.len() == i,
            forall|k: int| 0 <= k < i ==> (#[trigger] r@[k])@ == v@[k]@,
        decreases n - i,
    {
        r.push(v[i].duplicate());
        i = i + 1;
    }
    assert(node_views(r@) =~= node_views(v@));
    r
}

/// A copy of a list of assignments.
pub fn copy_assignments(v: &Vec<ShardAssignment>) -> (r: Vec<ShardAssignment>)
    ensures
        assignment_views(r@) == assignment_views(v@),
{
    let mut r: Vec<ShardAssignment> = Vec::new();
    let n: usize = v.len();
    let mut i: usize = 0;
    while i < n
        invariant
            n == v@.len(),
            i <= n,
            r@.len() == i,
            forall|k: int| 0 <= k < i ==> (#[trigger] r@[k])@ == v@[k]@,
        decreases n - i,
    {
        r.push(v[i].duplicate());
        i = i + 1;
    }
    assert(assignment_views(r@) =~= assignment_views(v@));
    r
}

impl ClusterState {
    /// A copy of the document.
    pub fn duplicate(&self) -> (r: Self)
        ensures
            r@ == self@,
    {
        let voters = self.voters.clone();
        assert(voters@ =~= self.voters@);
        ClusterState {
            epoch: self.epoch,
            nodes: copy_nodes(&self.nodes),
            voters,
            assignments: copy_assignments(&self.assignments),
            num_shards: self.num_shards,
            vnodes: self.vnodes,
            dict_fingerprint: self.dict_fingerprint,
            model_version: self.model_version,
            placement_generation: self.placement_generation,
        }
    }
}

/// The members that do not have this id.
fn drop_node(nodes: Vec<NodeDescriptor>, id: NodeId) -> (r: Vec<NodeDescriptor>)
    ensures
        node_views(r@) == without_node(node_views(nodes@), id),
{
    let ghost all = nodes@;
    let ghost view = |n: NodeDescriptor| n@;
    let ghost keep = |n: NodeDescriptor| n.id != id;
    let ghost keep_view = key_differs(node_key(), id.0 as int);
    let mut r: Vec<NodeDescriptor> = Vec::new();
    proof {
        reveal(Seq::filter);
        assert(r@ =~= all.take(0).filter(keep));
    }
    for n in it: nodes.into_iter()
        invariant
            it.seq() == all,
            keep == (|n: NodeDescriptor| n.id != id),
            r@ == all.take(it.index()).filter(keep),
    {
        proof {
            lemma_filter_step(all, keep, it.index());
        }
        if n.id.0 != id.0 {
            r.push(n);
        }
    }
    proof {
        assert(all.take(all.len() as int) =~= all);
        lemma_filter_map(all, keep, view, keep_view);
    }
    r
}

/// The assignments that are for another position.
fn drop_position(s: Vec<ShardAssignment>, position: u32) -> (r: Vec<ShardAssignment>)
    ensures
        assignment_views(r@) == without_position(assignment_views(s@), position),
{
    let ghost all = s@;
    let ghost view = |a: ShardAssignment| a@;
    let ghost keep = |a: ShardAssignment| a.position != position;
    let ghost keep_view = key_differs(position_key(), position as int);
    let mut r: Vec<ShardAssignment> = Vec::new();
    proof {
        reveal(Seq::filter);
        assert(r@ =~= all.take(0).filter(keep));
    }
    for a in it: s.into_iter()
        invariant
            it.seq() == all,
            keep == (|a: ShardAssignment| a.position != position),
            r@ == all.take(it.index()).filter(keep),
    {
        proof {
            lemma_filter_step(all, keep, it.index());
        }
        if a.position != position {
            r.push(a);
        }
    }
    proof {
        assert(all.take(all.len() as int) =~= all);
        lemma_filter_map(all, keep, view, keep_view);
    }
    r
}

/// The assignments for positions below `n`.
fn drop_from(s: Vec<ShardAssignment>, n: u32) -> (r: Vec<ShardAssignment>)
    ensures
        assignment_views(r@) == assignment_views(s@).filter(|a: AssignmentView| a.position < n),
{
    let ghost all = s@;
    let ghost view = |a: ShardAssignment| a@;
    let ghost keep = |a: ShardAssignment| a.position < n;
    let ghost keep_view = |a: AssignmentView| a.position < n;
    let mut r: Vec<ShardAssignment> = Vec::new();
    proof {
        reveal(Seq::filter);
        assert(r@ =~= all.take(0).filter(keep));
    }
    for a in it: s.into_iter()
        invariant
            it.seq() == all,
            keep == (|a: ShardAssignment| a.position < n),
            r@ == all.take(it.index()).filter(keep),
    {
        proof {
            lemma_filter_step(all, keep, it.index());
        }
        if a.position < n {
            r.push(a);
        }
    }
    proof {
        assert(all.take(all.len() as int) =~= all);
        lemma_filter_map(all, keep, view, keep_view);
    }
    r
}

/// Whether some assignment is for `position`.
fn is_assigned(s: &Vec<ShardAssignment>, position: u32) -> (r: bool)
    ensures
        r == assigned(assignment_views(s@), position),
{
    let n: usize = s.len();
    let mut i: usize = 0;
    while i < n
        invariant
            n == s@.len(),
            i <= n,
            forall|k: int| 0 <= k < i ==> (#[trigger] s@[k]).position != position,
        decreases n - i,
    {
        if s[i].position == position {
            assert(assignment_views(s@)[i as int].position == position);
            return true;
        }
        i = i + 1;
    }
    assert forall|k: int| 0 <= k < assignment_views(s@).len() implies #[trigger] assignment_views(
        s@,
    )[k].position != position by {
        assert(s@[k].position != position);
    }
    false
}

/// Sorts the assignments by position.
fn sort_assignments(s: &mut Vec<ShardAssignment>)
    ensures
        assignment_views(final(s)@) == stable_sort(assignment_views(old(s)@), position_key()),
{
    let ghost before = s@;
    insertion_sort(s);
    proof {
        lemma_stable_sort_map(
            before,
            key_of::<ShardAssignment>(),
            |a: ShardAssignment| a@,
            position_key(),
        );
    }
}

/// Applies one change to the document, all but the epoch.
pub fn apply(state: &mut ClusterState, change: ClusterStateChange)
    requires
        applicable(old(state)@, change@),
    ensures
        final(state)@ == applied(old(state)@, change@),
{
    match change {
        ClusterStateChange::AddNode(node) => {
            let id = node.id;
            let ghost nv = node@;
            let mut nodes: Vec<NodeDescriptor> = Vec::new();
            std::mem::swap(&mut nodes, &mut state.nodes);
            let mut nodes = drop_node(nodes, id);
            let ghost kept = nodes@;
            nodes.push(node);
            let ghost grown = nodes@;
            assert(node_views(grown) =~= node_views(kept).push(nv));
            insertion_sort(&mut nodes);
            proof {
                lemma_stable_sort_map(
                    grown,
                    key_of::<NodeDescriptor>(),
                    |n: NodeDescriptor| n@,
                    node_key(),
                );
            }
            state.nodes = nodes;
        },
        ClusterStateChange::RemoveNode(id) => {
            let mut nodes: Vec<NodeDescriptor> = Vec::new();
            std::mem::swap(&mut nodes, &mut state.nodes);
            state.nodes = drop_node(nodes, id);
        },
        ClusterStateChange::AssignShard(a) => {
            let position: u32 = a.position;
            let ghost av = a@;
            let mut s: Vec<ShardAssignment> = Vec::new();
            std::mem::swap(&mut s, &mut state.assignments);
            let mut s = drop_position(s, position);
            let ghost kept = s@;
            s.push(a);
            assert(assignment_views(s@) =~= assignment_views(kept).push(av));
            sort_assignments(&mut s);
            state.assignments = s;
        },
        ClusterStateChange::BumpModelVersion { dict_fingerprint } => {
            state.dict_fingerprint = dict_fingerprint;
            state.model_version = state.model_version + 1;
            state.placement_generation = state.placement_generation.saturating_add(1);
        },
        ClusterStateChange::SetShardCount { num_shards } => {
            state.num_shards = num_shards;
            state.placement_generation = state.placement_generation.saturating_add(1);
            let mut s: Vec<ShardAssignment> = Vec::new();
            std::mem::swap(&mut s, &mut state.assignments);
            let mut s = drop_from(s, num_shards);
            let ghost kept = assignment_views(s@);
            let mut position: u32 = 0;
            while position < num_shards
                invariant
                    position <= num_shards,
                    assignment_views(s@) == with_defaults(kept, position as nat),
                decreases num_shards - position,
            {
                if !is_assigned(&s, position) {
                    let ghost before = s@;
                    s.push(ShardAssignment { position, primary: NodeId(0), replicas: Vec::new() });
                    assert(assignment_views(s@) =~= assignment_views(before).push(
                        default_assignment(position),
                    ));
                }
                position = position + 1;
            }
            sort_assignments(&mut s);
            state.assignments = s;
        },
    }
}

/// The first `n` positions, each with its default assignment.
pub open spec fn default_assignments(n: nat) -> Seq<AssignmentView> {
    Seq::new(n, |i: int| default_assignment(i as u32))
}

/// The document of a cluster with one node, which votes alone and owns every position.
pub open spec fn single_node_view(num_shards: u32, vnodes: u32, dict_fingerprint: u64) -> StateView {
    StateView {
        epoch: 0,
        nodes: seq![NodeView { id: NodeId(0), addr: None, role: NodeRole::Manager }],
        voters: seq![NodeId(0)],
        assignments: default_assignments(num_shards as nat),
        num_shards,
        vnodes,
        dict_fingerprint,
        model_version: 0,
        placement_generation: INITIAL_GENERATION,
    }
}

/// The document of a cluster with one node.
pub fn single_node_state(num_shards: u32, vnodes: u32, dict_fingerprint: u64) -> (r: ClusterState)
    ensures
        r@ == single_node_view(num_shards, vnodes, dict_fingerprint),
{
    let mut assignments: Vec<ShardAssignment> = Vec::new();
    let mut position: u32 = 0;
    assert(assignment_views(assignments@) =~= default_assignments(0));
    while position < num_shards
        invariant
            position <= num_shards,
            assignment_views(assignments@) == default_assignments(position as nat),
        decreases num_shards - position,
    {
        let ghost before = assignments@;
        assignments.push(ShardAssignment { position, primary: NodeId(0), replicas: Vec::new() });
        position = position + 1;
        proof {
            let last = default_assignment((position - 1) as u32);
            assert(assignments@.last()@ =~= last);
            assert(assignment_views(assignments@) =~= assignment_views(before).push(last));
            assert(assignment_views(assignments@) =~= default_assignments(position as nat));
        }
    }
    let mut nodes: Vec<NodeDescriptor> = Vec::new();
    nodes.push(NodeDescriptor { id: NodeId(0), addr: None, role: NodeRole::Manager });
    let mut voters: Vec<NodeId> = Vec::new();
    voters.push(NodeId(0));
    let r = ClusterState {
        epoch: 0,
        nodes,
        voters,
        assignments,
        num_shards,
        vnodes,
        dict_fingerprint,
        model_version: 0,
        placement_generation: PlacementGeneration::initial().0,
    };
    assert(r@ =~= single_node_view(num_shards, vnodes, dict_fingerprint));
    r
}

impl crate::order::Exact for NodeId {
    proof fn key_is_exact(a: Self, b: Self) {
    }
}

// ---- control errors ----

/// Why the control plane did not commit.
#[derive(Clone, Debug, PartialEq, Eq)]
pub enum ControlError {
    /// Another node leads.
    ForwardToLeader { leader: Option<NodeId>, addr: Option<String> },
    /// This node does not lead, and who does is not known.
    NotLeader,
    /// No quorum took the proposal.
    NoQuorum,
    /// Storage, transport or another part failed.
    Backend(String),
}

/// A control error, as a mathematical value.
pub ghost enum ControlErrorView {
    ForwardToLeader { leader: Option<NodeId>, addr: Option<Seq<char>> },
    NotLeader,
    NoQuorum,
    Backend(Seq<char>),
}

impl View for ControlError {
    type V = ControlErrorView;

    open spec fn view(&self) -> ControlErrorView {
        match self {
            ControlError::ForwardToLeader { leader, addr } => ControlErrorView::ForwardToLeader {
                leader: *leader,
                addr: opt_text(*addr),
            },
            ControlError::NotLeader => ControlErrorView::NotLeader,
            ControlError::NoQuorum => ControlErrorView::NoQuorum,
            ControlError::Backend(m) => ControlErrorView::Backend(m@),
        }
    }
}

/// The debug form of an optional node id.
pub open spec fn leader_text(leader: Option<NodeId>) -> Seq<char> {
    match leader {
        Some(id) => "Some(NodeId("@ + decimal(id.0 as nat) + "))"@,
        None => "None"@,
    }
}

/// The debug form of an optional text.
pub open spec fn addr_text(addr: Option<Seq<char>>) -> Seq<char> {
    match addr {
        Some(a) => "Some("@ + quoted(a) + ")"@,
        None => "None"@,
    }
}

/// The message of a control error.
pub open spec fn control_error_text(e: ControlErrorView) -> Seq<char> {
    match e {
        ControlErrorView::ForwardToLeader { leader, addr } =>
            "not the control-plane leader; forward to "@ + leader_text(leader) + " at "@
            + addr_text(addr),
        ControlErrorView::NotLeader =>
            "this node is not the control-plane leader (leader unknown)"@,
        ControlErrorView::NoQuorum => "control-plane proposal could not reach a quorum"@,
        ControlErrorView::Backend(m) => "control-plane backend error: "@ + m,
    }
}

impl ControlError {
    /// The message.
    pub fn message(&self) -> (r: String)
        ensures
            r@ == control_error_text(self@),
    {
        match self {
            ControlError::ForwardToLeader { leader, addr } => {
                let mut m = String::from_str("not the control-plane leader; forward to ");
                match leader {
                    Some(id) => {
                        m.append("Some(NodeId(");
                        push_decimal(&mut m, id.0);
                        m.append("))");
                    },
                    None => {
                        m.append("None");
                    },
                }
                m.append(" at ");
                match addr {
                    Some(a) => {
                        m.append("Some(");
                        m.append(quote(a.as_str()).as_str());
                        m.append(")");
                    },
                    None => {
                        m.append("None");
                    },
                }
                assert(m@ =~= control_error_text(self@));
                m
            },
            ControlError::NotLeader => String::from_str(
                "this node is not the control-plane leader (leader unknown)",
            ),
            ControlError::NoQuorum => String::from_str(
                "control-plane proposal could not reach a quorum",
            ),
            ControlError::Backend(detail) => {
                let mut m = String::from_str("control-plane backend error: ");
                m.append(detail.as_str());
                m
            },
        }
    }

    /// The shard error that carries this error's message.
    pub fn into_shard_error(self) -> (r: ShardError)
        ensures
            r@ == ShardErrorView::ControlPlane(control_error_text(self@)),
    {
        ShardError::ControlPlane(self.message())
    }
}

// ---- the control plane ----

/// The document after a committed change: the change applied and the epoch advanced.
pub open spec fn committed(s: StateView, c: ChangeView) -> StateView {
    StateView { epoch: (s.epoch + 1) as u64, ..applied(s, c) }
}

/// The voters as they are kept: sorted, none twice.
pub open spec fn voter_set(voters: Seq<NodeId>) -> Seq<NodeId> {
    crate::order::sorted_set(voters, key_of::<NodeId>())
}

/// The document after a change of the voters.
pub open spec fn revoted(s: StateView, voters: Seq<NodeId>) -> StateView {
    StateView { epoch: (s.epoch + 1) as u64, voters: voter_set(voters), ..s }
}

/// Reading and changing the cluster-state document. A refused proposal changes nothing.
pub trait ControlPlane {
    /// The committed document.
    spec fn state(&self) -> StateView;

    /// The committed document.
    fn cluster_state(&self) -> (r: Result<Arc<ClusterState>, ControlError>)
        ensures
            r matches Ok(s) ==> s@ == self.state(),
    ;

    /// The committed version.
    fn version(&self) -> (r: Result<StateVersion, ControlError>)
        ensures
            r matches Ok(v) ==> v.0 == self.state().epoch,
    ;

    /// Proposes one change that is not about voters.
    fn propose(&mut self, change: ClusterStateChange) -> (r: Result<StateVersion, ControlError>)
        requires
            old(self).state().epoch < u64::MAX,
            applicable(old(self).state(), change@),
        ensures
            match r {
                Ok(v) => final(self).state() == committed(old(self).state(), change@) && v.0
                    == final(self).state().epoch,
                Err(_) => final(self).state() == old(self).state(),
            },
    ;

    /// Changes the voters.
    fn change_membership(&mut self, voters: Vec<NodeId>) -> (r: Result<StateVersion, ControlError>)
        requires
            old(self).state().epoch < u64::MAX,
        ensures
            match r {
                Ok(v) => final(self).state() == revoted(old(self).state(), voters@) && v.0
                    == final(self).state().epoch,
                Err(_) => final(self).state() == old(self).state(),
            },
    ;

    /// The leader, where it is known.
    fn leader(&self) -> (r: Result<Option<NodeId>, ControlError>);

    /// Makes later proposals fail.
    fn break_proposals_for_test(&mut self)
        ensures
            final(self).state() == old(self).state(),
    ;
}

/// A control plane of one node: every proposal is committed at once.
pub struct InMemoryControlPlane {
    state: Arc<ClusterState>,
    broken: bool,
}

impl InMemoryControlPlane {
    /// The committed document.
    pub closed spec fn document(self) -> StateView {
        self.state@
    }

    /// Whether proposals fail.
    pub closed spec fn is_broken(self) -> bool {
        self.broken
    }

    /// A control plane that starts from `initial`.
    pub fn new(initial: ClusterState) -> (r: Self)
        ensures
            r.document() == initial@,
            !r.is_broken(),
    {
        InMemoryControlPlane { state: Arc::new(initial), broken: false }
    }

    /// A control plane whose one node owns every position.
    pub fn single_node(num_shards: u32, vnodes: u32, dict_fingerprint: u64) -> (r: Self)
        ensures
            r.document() == single_node_view(num_shards, vnodes, dict_fingerprint),
            !r.is_broken(),
    {
        InMemoryControlPlane::new(single_node_state(num_shards, vnodes, dict_fingerprint))
    }

    /// The same, at a given placement generation.
    pub fn single_node_with_generation(
        num_shards: u32,
        vnodes: u32,
        dict_fingerprint: u64,
        generation: PlacementGeneration,
    ) -> (r: Self)
        ensures
            r.document() == (StateView {
                placement_generation: generation.0,
                ..single_node_view(num_shards, vnodes, dict_fingerprint)
            }),
            !r.is_broken(),
    {
        let mut state = single_node_state(num_shards, vnodes, dict_fingerprint);
        state.placement_generation = generation.0;
        InMemoryControlPlane::new(state)
    }

    fn commit(&mut self, next: ClusterState) -> (r: StateVersion)
        ensures
            final(self).document() == next@,
            final(self).is_broken() == old(self).is_broken(),
            r.0 == next@.epoch,
    {
        let version = StateVersion(next.epoch);
        self.state = Arc::new(next);
        version
    }

    fn refusal(&self) -> (r: ControlError)
        ensures
            r@ == ControlErrorView::Backend("proposals broken (test fault injection)"@),
    {
        ControlError::Backend(String::from_str("proposals broken (test fault injection)"))
    }
}

impl ControlPlane for InMemoryControlPlane {
    open spec fn state(&self) -> StateView {
        self.document()
    }

    fn cluster_state(&self) -> (r: Result<Arc<ClusterState>, ControlError>)
        ensures
            r is Ok,
    {
        Ok(Arc::clone(&self.state))
    }

    fn version(&self) -> (r: Result<StateVersion, ControlError>)
        ensures
            r is Ok,
    {
        Ok(StateVersion(self.state.epoch))
    }

    fn propose(&mut self, change: ClusterStateChange) -> (r: Result<StateVersion, ControlError>)
        ensures
            old(self).is_broken() ==> (r matches Err(e) && e@ == ControlErrorView::Backend(
                "proposals broken (test fault injection)"@,
            )),
            r is Ok <==> !old(self).is_broken(),
            final(self).is_broken() == old(self).is_broken(),
    {
        if self.broken {
            return Err(self.refusal());
        }
        let mut next = self.state.duplicate();
        apply(&mut next, change);
        next.epoch = next.epoch + 1;
        Ok(self.commit(next))
    }

    fn change_membership(&mut self, voters: Vec<NodeId>) -> (r: Result<StateVersion, ControlError>)
        ensures
            old(self).is_broken() ==> (r matches Err(e) && e@ == ControlErrorView::Backend(
                "proposals broken (test fault injection)"@,
            )),
            r is Ok <==> !old(self).is_broken(),
            final(self).is_broken() == old(self).is_broken(),
    {
        if self.broken {
            return Err(self.refusal());
        }
        let mut next = self.state.duplicate();
        next.voters = crate::order::sort_dedup(&voters);
        next.epoch = next.epoch + 1;
        Ok(self.commit(next))
    }

    /// The first voter.
    fn leader(&self) -> (r: Result<Option<NodeId>, ControlError>)
        ensures
            r == Ok::<Option<NodeId>, ControlError>(
                if self.document().voters.len() == 0 {
                    None
                } else {
                    Some(self.document().voters[0])
                },
            ),
    {
        if self.state.voters.len() == 0 {
            Ok(None)
        } else {
            Ok(Some(self.state.voters[0]))
        }
    }

    fn break_proposals_for_test(&mut self)
        ensures
            final(self).is_broken(),
    {
        self.broken = true;
    }
}

} // verus!
