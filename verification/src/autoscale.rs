//! When to rebalance, to move a shard, to split one, or to add a node.
//!
//! The policy is a function of a snapshot and a configuration. Whether a node's load exceeds its
//! share is a question of real numbers: [`load_summary`] gives the integers it is asked of, and the
//! caller hands the answer to [`evaluate`].
use crate::control::{
    assignment_views, node_views, AssignmentView, NodeDescriptor, NodeId, NodeView,
    ShardAssignment,
};
use crate::order::{
    key_of, lemma_exact, lemma_sorted_set, sort_dedup, sorted_set, strictly_ascending,
};
use crate::text::{decimal, joined, push_decimal, texts, with_number};
use vstd::prelude::*;

verus! {

/// The knobs of the policy, apart from the load ratio.
#[derive(Clone, Copy, Debug, PartialEq, Eq, Structural)]
pub struct AutoscaleConfig {
    /// Whether the policy does anything.
    pub enabled: bool,
    /// The replication factor to rebalance with.
    pub target_replication_factor: usize,
    /// The corpus above which a shard should be split; zero is never.
    pub split_corpus_threshold: usize,
}

impl Default for AutoscaleConfig {
    /// Off.
    fn default() -> (r: Self)
        ensures
            r == (AutoscaleConfig {
                enabled: false,
                target_replication_factor: 1,
                split_corpus_threshold: 0,
            }),
    {
        AutoscaleConfig {
            enabled: false,
            target_replication_factor: 1,
            split_corpus_threshold: 0,
        }
    }
}

impl AutoscaleConfig {
    /// What is wrong with the configuration; `negative_skew` says that the load ratio is below
    /// zero.
    pub fn validate(&self, negative_skew: bool) -> (r: Vec<String>)
        ensures
            texts(r@) == (if self.target_replication_factor == 0 {
                seq!["target_replication_factor must be >= 1"@]
            } else {
                Seq::empty()
            }) + (if negative_skew {
                seq!["max_node_load_skew must be >= 0"@]
            } else {
                Seq::empty()
            }),
    {
        let mut r: Vec<String> = Vec::new();
        if self.target_replication_factor == 0 {
            r.push(String::from_str("target_replication_factor must be >= 1"));
        }
        if negative_skew {
            r.push(String::from_str("max_node_load_skew must be >= 0"));
        }
        assert(texts(r@) =~= (if self.target_replication_factor == 0 {
            seq!["target_replication_factor must be >= 1"@]
        } else {
            Seq::empty()
        }) + (if negative_skew {
            seq!["max_node_load_skew must be >= 0"@]
        } else {
            Seq::empty()
        }));
        r
    }
}

/// What the policy looks at.
#[derive(Clone, Debug, PartialEq, Eq)]
pub struct LoadSnapshot {
    pub nodes: Vec<NodeDescriptor>,
    pub assignments: Vec<ShardAssignment>,
    /// How many queries each position holds.
    pub shard_corpus: Vec<usize>,
    pub num_shards: u32,
    pub replication_factor: usize,
    /// How many of them are on every position.
    pub replicated_corpus: usize,
}

/// A snapshot, as a mathematical value.
#[verifier::ext_equal]
pub ghost struct SnapshotView {
    pub nodes: Seq<NodeView>,
    pub assignments: Seq<AssignmentView>,
    pub shard_corpus: Seq<usize>,
    pub num_shards: u32,
    pub replication_factor: usize,
    pub replicated_corpus: usize,
}

impl View for LoadSnapshot {
    type V = SnapshotView;

    open spec fn view(&self) -> SnapshotView {
        SnapshotView {
            nodes: node_views(self.nodes@),
            assignments: assignment_views(self.assignments@),
            shard_corpus: self.shard_corpus@,
            num_shards: self.num_shards,
            replication_factor: self.replication_factor,
            replicated_corpus: self.replicated_corpus,
        }
    }
}

/// One thing that the policy recommends.
#[derive(Clone, Debug, PartialEq, Eq)]
pub enum ScalingAction {
    /// Place every position anew.
    Rebalance { rf: usize },
    /// Move a position to another node.
    Handoff { position: u32, from: NodeId, to: NodeId },
    /// Split a shard.
    RecommendSplit { position: u32, corpus: usize },
    /// Add a node.
    RecommendScaleOut { reason: String },
}

/// An action, as a mathematical value.
pub ghost enum ActionView {
    Rebalance { rf: usize },
    Handoff { position: u32, from: NodeId, to: NodeId },
    RecommendSplit { position: u32, corpus: usize },
    RecommendScaleOut { reason: Seq<char> },
}

impl View for ScalingAction {
    type V = ActionView;

    open spec fn view(&self) -> ActionView {
        match self {
            ScalingAction::Rebalance { rf } => ActionView::Rebalance { rf: *rf },
            ScalingAction::Handoff { position, from, to } => ActionView::Handoff {
                position: *position,
                from: *from,
                to: *to,
            },
            ScalingAction::RecommendSplit { position, corpus } => ActionView::RecommendSplit {
                position: *position,
                corpus: *corpus,
            },
            ScalingAction::RecommendScaleOut { reason } => ActionView::RecommendScaleOut {
                reason: reason@,
            },
        }
    }
}

impl ScalingAction {
    /// Whether the action is carried out, or only shown.
    pub fn is_executable(&self) -> (r: bool)
        ensures
            r == (self@ is Rebalance),
    {
        match self {
            ScalingAction::Rebalance { .. } => true,
            _ => false,
        }
    }
}

/// What the policy recommends, and why.
#[derive(Clone, Debug, PartialEq, Eq)]
pub struct AutoscaleDecision {
    pub actions: Vec<ScalingAction>,
    pub rationale: Vec<String>,
}

/// A decision, as a mathematical value.
#[verifier::ext_equal]
pub ghost struct DecisionView {
    pub actions: Seq<ActionView>,
    pub rationale: Seq<Seq<char>>,
}

impl View for AutoscaleDecision {
    type V = DecisionView;

    open spec fn view(&self) -> DecisionView {
        DecisionView {
            actions: self.actions@.map_values(|a: ScalingAction| a@),
            rationale: texts(self.rationale@),
        }
    }
}

/// No recommendation.
pub open spec fn no_decision() -> DecisionView {
    DecisionView { actions: Seq::empty(), rationale: Seq::empty() }
}

/// One more recommendation.
pub open spec fn decided(d: DecisionView, a: ActionView, why: Seq<char>) -> DecisionView {
    DecisionView { actions: d.actions.push(a), rationale: d.rationale.push(why) }
}

impl Default for AutoscaleDecision {
    fn default() -> (r: Self)
        ensures
            r@ == no_decision(),
    {
        let r = AutoscaleDecision { actions: Vec::new(), rationale: Vec::new() };
        assert(r@ =~= no_decision());
        r
    }
}

impl AutoscaleDecision {
    fn add(&mut self, a: ScalingAction, why: String)
        ensures
            final(self)@ == decided(old(self)@, a@, why@),
    {
        let ghost before = self@;
        let ghost av = a@;
        let ghost wv = why@;
        self.actions.push(a);
        self.rationale.push(why);
        assert(self@ =~= decided(before, av, wv));
    }
}

// ---- membership ----

/// The ids of the registered nodes.
pub open spec fn member_ids(s: SnapshotView) -> Seq<u64> {
    s.nodes.map_values(|n: NodeView| n.id.0)
}

/// The ids of the nodes that an assignment names, primary first.
pub open spec fn ids_of(a: AssignmentView) -> Seq<u64> {
    seq![a.primary.0] + a.replicas.map_values(|n: NodeId| n.0)
}

/// The ids of the nodes that the assignments name.
pub open spec fn assigned_ids(s: Seq<AssignmentView>) -> Seq<u64>
    decreases s.len(),
{
    if s.len() == 0 {
        Seq::empty()
    } else {
        assigned_ids(s.drop_last()) + ids_of(s.last())
    }
}

/// The ids, each once, in ascending order.
pub open spec fn id_set(ids: Seq<u64>) -> Seq<u64> {
    sorted_set(ids, key_of::<u64>())
}

/// The text of a set of ids.
pub open spec fn set_text(ids: Seq<u64>) -> Seq<char> {
    "{"@ + joined(ids.map_values(|id: u64| decimal(id as nat)), ", "@) + "}"@
}

/// The membership rule: if the registered nodes are not the nodes that hold data, rebalance.
pub open spec fn drift(s: SnapshotView, rf: usize, d: DecisionView) -> DecisionView {
    let members = id_set(member_ids(s));
    let placed = id_set(assigned_ids(s.assignments));
    if members != placed {
        decided(
            d,
            ActionView::Rebalance { rf },
            "registered nodes "@ + set_text(members) + " differ from placed nodes "@ + set_text(
                placed,
            ) + "; rebalancing to reconcile"@,
        )
    } else {
        d
    }
}

fn gather_members(snapshot: &LoadSnapshot) -> (r: Vec<u64>)
    ensures
        r@ == member_ids(snapshot@),
{
    let n: usize = snapshot.nodes.len();
    let mut r: Vec<u64> = Vec::new();
    let mut i: usize = 0;
    while i < n
        invariant
            n == snapshot.nodes@.len(),
            i <= n,
            r@.len() == i,
            forall|k: int| 0 <= k < i ==> #[trigger] r@[k] == snapshot.nodes@[k].id.0,
        decreases n - i,
    {
        r.push(snapshot.nodes[i].id.0);
        i = i + 1;
    }
    assert(r@ =~= member_ids(snapshot@));
    r
}

fn gather_assigned(assignments: &Vec<ShardAssignment>) -> (r: Vec<u64>)
    ensures
        r@ == assigned_ids(assignment_views(assignments@)),
{
    let ghost av = assignment_views(assignments@);
    let n: usize = assignments.len();
    let mut r: Vec<u64> = Vec::new();
    let mut i: usize = 0;
    assert(av.take(0).len() == 0);
    while i < n
        invariant
            n == assignments@.len(),
            av == assignment_views(assignments@),
            i <= n,
            r@ == assigned_ids(av.take(i as int)),
        decreases n - i,
    {
        let ghost before = r@;
        let ghost mine = ids_of(av[i as int]);
        proof {
            assert(av.take(i + 1).drop_last() =~= av.take(i as int));
            assert(av[i as int] == assignments@[i as int]@);
        }
        r.push(assignments[i].primary.0);
        let m: usize = assignments[i].replicas.len();
        let mut j: usize = 0;
        assert(r@ =~= before + mine.take(1));
        while j < m
            invariant
                i < assignments@.len(),
                m == assignments@[i as int].replicas@.len(),
                mine == ids_of(assignments@[i as int]@),
                j <= m,
                r@ == before + mine.take(j + 1),
            decreases m - j,
        {
            r.push(assignments[i].replicas[j].0);
            assert(r@ =~= before + mine.take(j + 2));
            j = j + 1;
        }
        assert(mine.take(m + 1) =~= mine);
        i = i + 1;
    }
    assert(av.take(n as int) =~= av);
    r
}

fn same_numbers(a: &Vec<u64>, b: &Vec<u64>) -> (r: bool)
    ensures
        r == (a@ == b@),
{
    if a.len() != b.len() {
        return false;
    }
    let n: usize = a.len();
    let mut i: usize = 0;
    while i < n
        invariant
            n == a@.len(),
            n == b@.len(),
            i <= n,
            forall|k: int| 0 <= k < i ==> a@[k] == b@[k],
        decreases n - i,
    {
        if a[i] != b[i] {
            assert(a@[i as int] != b@[i as int]);
            return false;
        }
        i = i + 1;
    }
    assert(a@ =~= b@);
    true
}

fn describe_set(ids: &Vec<u64>) -> (r: String)
    ensures
        r@ == set_text(ids@),
{
    let ghost parts = ids@.map_values(|id: u64| decimal(id as nat));
    let n: usize = ids.len();
    let mut out = String::from_str("{");
    let mut i: usize = 0;
    assert(out@ =~= "{"@ + joined(parts.take(0), ", "@));
    while i < n
        invariant
            n == ids@.len(),
            parts == ids@.map_values(|id: u64| decimal(id as nat)),
            i <= n,
            out@ == "{"@ + joined(parts.take(i as int), ", "@),
        decreases n - i,
    {
        proof {
            assert(parts.take(i + 1).drop_last() =~= parts.take(i as int));
            assert(parts.take(i + 1).last() == decimal(ids@[i as int] as nat));
        }
        if i > 0 {
            out.append(", ");
        }
        push_decimal(&mut out, ids[i]);
        assert(out@ =~= "{"@ + joined(parts.take(i + 1), ", "@));
        i = i + 1;
    }
    assert(parts.take(n as int) =~= parts);
    out.append("}");
    out
}

fn membership_drift(snapshot: &LoadSnapshot, rf: usize, decision: &mut AutoscaleDecision)
    ensures
        final(decision)@ == drift(snapshot@, rf, old(decision)@),
{
    let members = sort_dedup(&gather_members(snapshot));
    let placed = sort_dedup(&gather_assigned(&snapshot.assignments));
    if !same_numbers(&members, &placed) {
        let mut why = String::from_str("registered nodes ");
        why.append(describe_set(&members).as_str());
        why.append(" differ from placed nodes ");
        why.append(describe_set(&placed).as_str());
        why.append("; rebalancing to reconcile");
        decision.add(ScalingAction::Rebalance { rf }, why);
    }
}

// ---- load ----

/// The corpus of a position, if the snapshot has it.
pub open spec fn corpus_at(s: SnapshotView, position: u32) -> Option<usize> {
    if position < s.shard_corpus.len() {
        Some(s.shard_corpus[position as int])
    } else {
        None
    }
}

/// The primaries of the positions whose corpus is known, among the first `n` assignments.
pub open spec fn loaded(s: SnapshotView, n: nat) -> Seq<u64>
    decreases n,
{
    if n == 0 {
        Seq::empty()
    } else {
        let r = loaded(s, (n - 1) as nat);
        let a = s.assignments[n - 1];
        if corpus_at(s, a.position) is Some {
            r.push(a.primary.0)
        } else {
            r
        }
    }
}

/// The load of a node: the corpus of the positions that it is the primary of, among the first `n`
/// assignments.
pub open spec fn load_of(s: SnapshotView, id: u64, n: nat) -> nat
    decreases n,
{
    if n == 0 {
        0
    } else {
        let a = s.assignments[n - 1];
        load_of(s, id, (n - 1) as nat) + match corpus_at(s, a.position) {
            Some(c) => if a.primary.0 == id {
                c as nat
            } else {
                0
            },
            None => 0,
        }
    }
}

/// The load of a node.
pub open spec fn node_load(s: SnapshotView, id: u64) -> nat {
    load_of(s, id, s.assignments.len())
}

/// The corpus of all positions whose corpus is known.
pub open spec fn total_load(s: SnapshotView, n: nat) -> nat
    decreases n,
{
    if n == 0 {
        0
    } else {
        total_load(s, (n - 1) as nat) + match corpus_at(s, s.assignments[n - 1].position) {
            Some(c) => c as nat,
            None => 0,
        }
    }
}

/// The nodes that carry load, in ascending order.
pub open spec fn loaded_nodes(s: SnapshotView) -> Seq<u64> {
    id_set(loaded(s, s.assignments.len()))
}

/// Of the first `n + 1` nodes, the one with the highest load; the first of them if there are more.
pub open spec fn hottest(s: SnapshotView, ids: Seq<u64>, n: nat) -> u64
    decreases n,
{
    if n == 0 {
        ids[0]
    } else {
        let h = hottest(s, ids, (n - 1) as nat);
        if node_load(s, ids[n as int]) > node_load(s, h) {
            ids[n as int]
        } else {
            h
        }
    }
}

/// Of the first `n + 1` nodes, the one with the lowest load; the first of them if there are more.
pub open spec fn coldest(s: SnapshotView, ids: Seq<u64>, n: nat) -> u64
    decreases n,
{
    if n == 0 {
        ids[0]
    } else {
        let c = coldest(s, ids, (n - 1) as nat);
        if node_load(s, ids[n as int]) < node_load(s, c) {
            ids[n as int]
        } else {
            c
        }
    }
}

/// The load of the cluster in integers: the most and the least loaded node, the load of the most
/// loaded one, the load of all, and how many nodes carry any.
#[derive(Clone, Copy, Debug, PartialEq, Eq, Structural)]
pub struct LoadSummary {
    pub hot: u64,
    pub hot_load: usize,
    pub cold: u64,
    pub total: usize,
    pub nodes: usize,
}

/// The summary of a snapshot, where load can be moved at all: two nodes carry load, and there is
/// some.
pub open spec fn summary(s: SnapshotView) -> Option<LoadSummary> {
    let ids = loaded_nodes(s);
    let n = ids.len();
    let total = total_load(s, s.assignments.len());
    if n < 2 || total == 0 {
        None
    } else {
        let hot = hottest(s, ids, (n - 1) as nat);
        Some(
            LoadSummary {
                hot,
                hot_load: node_load(s, hot) as usize,
                cold: coldest(s, ids, (n - 1) as nat),
                total: total as usize,
                nodes: n as usize,
            },
        )
    }
}

proof fn lemma_load_bound(s: SnapshotView, id: u64, n: nat)
    ensures
        load_of(s, id, n) <= total_load(s, n),
    decreases n,
{
    if n > 0 {
        lemma_load_bound(s, id, (n - 1) as nat);
    }
}

proof fn lemma_load_grows(s: SnapshotView, id: u64, n: nat, m: nat)
    requires
        n <= m,
    ensures
        load_of(s, id, n) <= load_of(s, id, m),
        total_load(s, n) <= total_load(s, m),
    decreases m,
{
    if n < m {
        lemma_load_grows(s, id, n, (m - 1) as nat);
    }
}

/// The corpora of all assigned positions together fit a machine integer.
pub open spec fn summable(s: SnapshotView) -> bool {
    total_load(s, s.assignments.len()) <= usize::MAX
}

fn position_corpus(snapshot: &LoadSnapshot, position: u32) -> (r: Option<usize>)
    ensures
        r == corpus_at(snapshot@, position),
{
    if (position as u64) < snapshot.shard_corpus.len() as u64 {
        Some(snapshot.shard_corpus[position as usize])
    } else {
        None
    }
}

fn sum_load(snapshot: &LoadSnapshot, id: u64) -> (r: usize)
    requires
        summable(snapshot@),
    ensures
        r == node_load(snapshot@, id),
{
    let ghost s = snapshot@;
    let n: usize = snapshot.assignments.len();
    let mut t: usize = 0;
    let mut i: usize = 0;
    while i < n
        invariant
            n == snapshot.assignments@.len(),
            s == snapshot@,
            summable(s),
            i <= n,
            t == load_of(s, id, i as nat),
        decreases n - i,
    {
        proof {
            assert(s.assignments[i as int] == snapshot.assignments@[i as int]@);
            lemma_load_bound(s, id, (i + 1) as nat);
            lemma_load_grows(s, id, (i + 1) as nat, n as nat);
        }
        if let Some(c) = position_corpus(snapshot, snapshot.assignments[i].position) {
            if snapshot.assignments[i].primary.0 == id {
                t = t + c;
            }
        }
        i = i + 1;
    }
    t
}

/// The load of the cluster in integers.
pub fn load_summary(snapshot: &LoadSnapshot) -> (r: Option<LoadSummary>)
    requires
        summable(snapshot@),
    ensures
        r == summary(snapshot@),
{
    let ghost s = snapshot@;
    let n: usize = snapshot.assignments.len();
    let mut primaries: Vec<u64> = Vec::new();
    let mut total: usize = 0;
    let mut i: usize = 0;
    assert(primaries@ =~= loaded(s, 0));
    while i < n
        invariant
            n == snapshot.assignments@.len(),
            s == snapshot@,
            summable(s),
            i <= n,
            primaries@ == loaded(s, i as nat),
            total == total_load(s, i as nat),
        decreases n - i,
    {
        proof {
            assert(s.assignments[i as int] == snapshot.assignments@[i as int]@);
            lemma_load_grows(s, 0, (i + 1) as nat, n as nat);
        }
        if let Some(c) = position_corpus(snapshot, snapshot.assignments[i].position) {
            primaries.push(snapshot.assignments[i].primary.0);
            total = total + c;
        }
        i = i + 1;
    }
    let ids = sort_dedup(&primaries);
    let m: usize = ids.len();
    if m < 2 || total == 0 {
        return None;
    }
    let mut hot: u64 = ids[0];
    let mut hot_load: usize = sum_load(snapshot, hot);
    let mut cold: u64 = hot;
    let mut cold_load: usize = hot_load;
    let mut k: usize = 1;
    while k < m
        invariant
            m == ids@.len(),
            s == snapshot@,
            summable(s),
            1 <= k <= m,
            hot == hottest(s, ids@, (k - 1) as nat),
            cold == coldest(s, ids@, (k - 1) as nat),
            hot_load == node_load(s, hot),
            cold_load == node_load(s, cold),
        decreases m - k,
    {
        let l: usize = sum_load(snapshot, ids[k]);
        if l > hot_load {
            hot = ids[k];
            hot_load = l;
        }
        if l < cold_load {
            cold = ids[k];
            cold_load = l;
        }
        k = k + 1;
    }
    Some(LoadSummary { hot, hot_load, cold, total, nodes: m })
}

/// The most loaded position of a node among the first `n` assignments, with its corpus; the first
/// of them if there are more.
pub open spec fn heaviest(s: SnapshotView, id: u64, n: nat) -> Option<(u32, usize)>
    decreases n,
{
    if n == 0 {
        None
    } else {
        let a = s.assignments[n - 1];
        let before = heaviest(s, id, (n - 1) as nat);
        match corpus_at(s, a.position) {
            Some(c) => if a.primary.0 != id {
                before
            } else {
                match before {
                    Some((p, x)) => if c > x {
                        Some((a.position, c))
                    } else {
                        before
                    },
                    None => Some((a.position, c)),
                }
            },
            None => before,
        }
    }
}

fn heaviest_position(snapshot: &LoadSnapshot, id: u64) -> (r: Option<(u32, usize)>)
    ensures
        r == heaviest(snapshot@, id, snapshot@.assignments.len()),
{
    let ghost s = snapshot@;
    let n: usize = snapshot.assignments.len();
    let mut pick: Option<(u32, usize)> = None;
    let mut i: usize = 0;
    while i < n
        invariant
            n == snapshot.assignments@.len(),
            s == snapshot@,
            i <= n,
            pick == heaviest(s, id, i as nat),
        decreases n - i,
    {
        assert(s.assignments[i as int] == snapshot.assignments@[i as int]@);
        let position: u32 = snapshot.assignments[i].position;
        if let Some(c) = position_corpus(snapshot, position) {
            if snapshot.assignments[i].primary.0 == id {
                match pick {
                    Some((_, x)) => {
                        if c > x {
                            pick = Some((position, c));
                        }
                    },
                    None => {
                        pick = Some((position, c));
                    },
                }
            }
        }
        i = i + 1;
    }
    pick
}

/// The answer to whether the most loaded node exceeds its share, for a cluster where it does: the
/// ratio and the mean, as the rationale shows them.
#[derive(Clone, Debug, PartialEq, Eq)]
pub struct Skewed {
    pub ratio: String,
    pub mean: String,
}

/// The load rule: if the most loaded node exceeds its share, its most loaded position should move to
/// the least loaded node.
pub open spec fn skew(
    s: SnapshotView,
    skewed: Option<(Seq<char>, Seq<char>)>,
    d: DecisionView,
) -> DecisionView {
    match (skewed, summary(s)) {
        (Some((ratio, mean)), Some(l)) => if l.hot == l.cold {
            d
        } else {
            match heaviest(s, l.hot, s.assignments.len()) {
                Some((position, corpus)) => decided(
                    d,
                    ActionView::Handoff { position, from: NodeId(l.hot), to: NodeId(l.cold) },
                    "node "@ + decimal(l.hot as nat) + " primary-corpus "@ + decimal(
                        l.hot_load as nat,
                    ) + " exceeds "@ + ratio + "x mean "@ + mean + "; recommend moving shard "@
                        + decimal(position as nat) + " (corpus "@ + decimal(corpus as nat)
                        + ") to node "@ + decimal(l.cold as nat),
                ),
                None => d,
            }
        },
        _ => d,
    }
}

fn node_skew(snapshot: &LoadSnapshot, skewed: &Option<Skewed>, decision: &mut AutoscaleDecision)
    requires
        summable(snapshot@),
    ensures
        final(decision)@ == skew(snapshot@, skew_view(*skewed), old(decision)@),
{
    let over = match skewed {
        Some(x) => x,
        None => {
            return ;
        },
    };
    let l = match load_summary(snapshot) {
        Some(l) => l,
        None => {
            return ;
        },
    };
    if l.hot == l.cold {
        return ;
    }
    if let Some((position, corpus)) = heaviest_position(snapshot, l.hot) {
        let mut why = with_number("node ", l.hot, " primary-corpus ");
        push_decimal(&mut why, l.hot_load as u64);
        why.append(" exceeds ");
        why.append(over.ratio.as_str());
        why.append("x mean ");
        why.append(over.mean.as_str());
        why.append("; recommend moving shard ");
        push_decimal(&mut why, position as u64);
        why.append(" (corpus ");
        push_decimal(&mut why, corpus as u64);
        why.append(") to node ");
        push_decimal(&mut why, l.cold);
        decision.add(
            ScalingAction::Handoff { position, from: NodeId(l.hot), to: NodeId(l.cold) },
            why,
        );
    }
}

/// The answer on skew, as a mathematical value.
pub open spec fn skew_view(s: Option<Skewed>) -> Option<(Seq<char>, Seq<char>)> {
    match s {
        Some(x) => Some((x.ratio@, x.mean@)),
        None => None,
    }
}

// ---- size ----

/// The size rule over the first `n` positions: each whose corpus is above the threshold should be
/// split.
pub open spec fn splits(s: SnapshotView, threshold: usize, d: DecisionView, n: nat) -> DecisionView
    decreases n,
{
    if n == 0 || threshold == 0 {
        d
    } else {
        let before = splits(s, threshold, d, (n - 1) as nat);
        let corpus = s.shard_corpus[n - 1];
        if corpus > threshold {
            decided(
                before,
                ActionView::RecommendSplit { position: (n - 1) as u32, corpus },
                "shard "@ + decimal((n - 1) as nat) + " corpus "@ + decimal(corpus as nat)
                    + " exceeds split threshold "@ + decimal(threshold as nat)
                    + "; recommend split (advisory only — no split mechanism this increment)"@,
            )
        } else {
            before
        }
    }
}

fn corpus_split(snapshot: &LoadSnapshot, threshold: usize, decision: &mut AutoscaleDecision)
    ensures
        final(decision)@ == splits(
            snapshot@,
            threshold,
            old(decision)@,
            snapshot@.shard_corpus.len(),
        ),
{
    if threshold == 0 {
        return ;
    }
    let ghost s = snapshot@;
    let ghost start = decision@;
    let n: usize = snapshot.shard_corpus.len();
    let mut i: usize = 0;
    while i < n
        invariant
            n == snapshot.shard_corpus@.len(),
            s == snapshot@,
            threshold != 0,
            i <= n,
            decision@ == splits(s, threshold, start, i as nat),
        decreases n - i,
    {
        let corpus: usize = snapshot.shard_corpus[i];
        if corpus > threshold {
            let mut why = with_number("shard ", i as u64, " corpus ");
            push_decimal(&mut why, corpus as u64);
            why.append(" exceeds split threshold ");
            push_decimal(&mut why, threshold as u64);
            why.append(
                "; recommend split (advisory only — no split mechanism this increment)",
            );
            decision.add(ScalingAction::RecommendSplit { position: i as u32, corpus }, why);
        }
        i = i + 1;
    }
}

/// How many splits are recommended.
pub open spec fn split_count(actions: Seq<ActionView>) -> nat {
    actions.filter(|a: ActionView| a is RecommendSplit).len()
}

/// The capacity rule: splits without a second node to put the halves on call for one.
pub open spec fn capacity(nodes: nat, d: DecisionView) -> DecisionView {
    let n = split_count(d.actions);
    if n > 0 && nodes < 2 {
        decided(
            d,
            ActionView::RecommendScaleOut {
                reason: decimal(n) + " shard(s) over the split threshold but only "@ + decimal(
                    nodes,
                ) + " node(s); add a data node"@,
            },
            "corpus growth outpacing node count; recommend scaling out"@,
        )
    } else {
        d
    }
}

fn scale_out_hint(nodes: usize, decision: &mut AutoscaleDecision)
    ensures
        final(decision)@ == capacity(nodes as nat, old(decision)@),
{
    let n: usize = decision.actions.len();
    let ghost av = decision@.actions;
    let ghost p = |a: ActionView| a is RecommendSplit;
    let mut count: usize = 0;
    let mut i: usize = 0;
    proof {
        reveal(Seq::filter);
        assert(av.take(0).filter(p).len() == 0);
    }
    while i < n
        invariant
            n == decision.actions@.len(),
            av == decision@.actions,
            p == (|a: ActionView| a is RecommendSplit),
            decision@ == old(decision)@,
            i <= n,
            count == av.take(i as int).filter(p).len(),
            count <= i,
        decreases n - i,
    {
        proof {
            crate::seqs::lemma_filter_step(av, p, i as int);
            assert(av[i as int] == decision.actions@[i as int]@);
        }
        match decision.actions[i] {
            ScalingAction::RecommendSplit { .. } => {
                count = count + 1;
            },
            _ => {},
        }
        i = i + 1;
    }
    assert(av.take(n as int) =~= av);
    if count > 0 && nodes < 2 {
        let mut reason = String::new();
        push_decimal(&mut reason, count as u64);
        reason.append(" shard(s) over the split threshold but only ");
        push_decimal(&mut reason, nodes as u64);
        reason.append(" node(s); add a data node");
        proof {
            let b = " shard(s) over the split threshold but only "@;
            let c = " node(s); add a data node"@;
            assert(reason@ =~= decimal(count as nat) + b + decimal(nodes as nat) + c);
        }
        decision.add(
            ScalingAction::RecommendScaleOut { reason },
            String::from_str("corpus growth outpacing node count; recommend scaling out"),
        );
    }
}

/// The decision: the four rules, one after the other.
pub open spec fn policy(
    s: SnapshotView,
    config: AutoscaleConfig,
    skewed: Option<(Seq<char>, Seq<char>)>,
) -> DecisionView {
    if !config.enabled {
        no_decision()
    } else {
        let a = drift(s, config.target_replication_factor, no_decision());
        let b = skew(s, skewed, a);
        let c = splits(s, config.split_corpus_threshold, b, s.shard_corpus.len());
        capacity(s.nodes.len(), c)
    }
}

/// Evaluates the policy. `skewed` is present if the most loaded node of [`load_summary`] exceeds
/// its share.
pub fn evaluate(snapshot: &LoadSnapshot, config: &AutoscaleConfig, skewed: &Option<Skewed>) -> (r:
    AutoscaleDecision)
    requires
        summable(snapshot@),
    ensures
        r@ == policy(snapshot@, *config, skew_view(*skewed)),
{
    let mut decision = AutoscaleDecision::default();
    if !config.enabled {
        return decision;
    }
    membership_drift(snapshot, config.target_replication_factor, &mut decision);
    node_skew(snapshot, skewed, &mut decision);
    corpus_split(snapshot, config.split_corpus_threshold, &mut decision);
    scale_out_hint(snapshot.nodes.len(), &mut decision);
    decision
}

/// What a position has beyond what is on every position.
pub open spec fn own_corpus(corpus: usize, replicated: usize) -> nat {
    if corpus <= replicated {
        0
    } else {
        (corpus - replicated) as nat
    }
}

/// How many of the first `n` positions are above the threshold by their own corpus.
pub open spec fn crowded(corpus: Seq<usize>, replicated: usize, threshold: usize, n: nat) -> nat
    decreases n,
{
    if n == 0 {
        0
    } else {
        crowded(corpus, replicated, threshold, (n - 1) as nat) + if own_corpus(
            corpus[n - 1],
            replicated,
        ) > threshold {
            1nat
        } else {
            0nat
        }
    }
}

/// The shard count that the load calls for: one more for each crowded position. None if no position
/// is crowded, or if the policy does not split.
pub fn recommended_shard_count(snapshot: &LoadSnapshot, config: &AutoscaleConfig) -> (r: Option<
    usize,
>)
    requires
        snapshot.num_shards + snapshot.shard_corpus@.len() <= usize::MAX,
    ensures
        ({
            let over = crowded(
                snapshot.shard_corpus@,
                snapshot.replicated_corpus,
                config.split_corpus_threshold,
                snapshot.shard_corpus@.len(),
            );
            if config.split_corpus_threshold == 0 || over == 0 {
                r is None
            } else {
                r == Some((snapshot.num_shards + over) as usize)
            }
        }),
{
    let threshold: usize = config.split_corpus_threshold;
    if threshold == 0 {
        return None;
    }
    let n: usize = snapshot.shard_corpus.len();
    let mut over: usize = 0;
    let mut i: usize = 0;
    while i < n
        invariant
            n == snapshot.shard_corpus@.len(),
            i <= n,
            over <= i,
            over == crowded(
                snapshot.shard_corpus@,
                snapshot.replicated_corpus,
                threshold,
                i as nat,
            ),
        decreases n - i,
    {
        let own: usize = snapshot.shard_corpus[i].saturating_sub(snapshot.replicated_corpus);
        if own > threshold {
            over = over + 1;
        }
        i = i + 1;
    }
    if over == 0 {
        None
    } else {
        Some(snapshot.num_shards as usize + over)
    }
}

// ---- laws ----

/// A policy that is off recommends nothing.
pub proof fn law_disabled_policy_is_silent(
    s: SnapshotView,
    config: AutoscaleConfig,
    skewed: Option<(Seq<char>, Seq<char>)>,
)
    requires
        !config.enabled,
    ensures
        policy(s, config, skewed) == no_decision(),
{
}

/// Each recommendation comes with its reason.
pub proof fn law_every_action_has_a_reason(
    s: SnapshotView,
    config: AutoscaleConfig,
    skewed: Option<(Seq<char>, Seq<char>)>,
)
    ensures
        policy(s, config, skewed).actions.len() == policy(s, config, skewed).rationale.len(),
{
    if config.enabled {
        let a = drift(s, config.target_replication_factor, no_decision());
        let b = skew(s, skewed, a);
        lemma_splits_reasons(s, config.split_corpus_threshold, b, s.shard_corpus.len());
    }
}

proof fn lemma_splits_reasons(s: SnapshotView, threshold: usize, d: DecisionView, n: nat)
    requires
        d.actions.len() == d.rationale.len(),
    ensures
        splits(s, threshold, d, n).actions.len() == splits(s, threshold, d, n).rationale.len(),
    decreases n,
{
    if n > 0 {
        lemma_splits_reasons(s, threshold, d, (n - 1) as nat);
    }
}

/// A rebalance is recommended exactly when some registered node holds nothing or some node that
/// holds data is not registered.
pub proof fn law_rebalance_iff_membership_differs(s: SnapshotView, rf: usize)
    ensures
        drift(s, rf, no_decision()) == no_decision() <==> forall|id: u64| #[trigger]
            member_ids(s).contains(id) <==> assigned_ids(s.assignments).contains(id),
{
    let m = member_ids(s);
    let p = assigned_ids(s.assignments);
    lemma_exact(m);
    lemma_exact(p);
    lemma_sorted_set(m, key_of::<u64>());
    lemma_sorted_set(p, key_of::<u64>());
    if forall|id: u64| #[trigger] m.contains(id) <==> p.contains(id) {
        assert forall|id: u64| #[trigger] id_set(m).contains(id) <==> id_set(p).contains(id) by {
            assert(m.contains(id) <==> p.contains(id));
        }
        crate::order::lemma_strictly_ascending_unique(id_set(m), id_set(p), key_of::<u64>());
    }
    if id_set(m) == id_set(p) {
        assert forall|id: u64| #[trigger] m.contains(id) <==> p.contains(id) by {
            assert(id_set(m).contains(id) <==> id_set(p).contains(id));
        }
    }
    if id_set(m) != id_set(p) {
        assert(drift(s, rf, no_decision()).actions.len() == 1);
    }
}

/// The recommended shard count never falls.
pub proof fn law_recommendation_never_shrinks(corpus: Seq<usize>, replicated: usize, threshold: usize, n: nat)
    ensures
        0 <= crowded(corpus, replicated, threshold, n) <= n,
    decreases n,
{
    if n > 0 {
        law_recommendation_never_shrinks(corpus, replicated, threshold, (n - 1) as nat);
    }
}

/// `id` is the primary of a position whose corpus is known.
pub open spec fn carries_load(s: SnapshotView, id: u64) -> bool {
    exists|k: int|
        0 <= k < s.assignments.len() && (#[trigger] s.assignments[k]).primary.0 == id
            && s.assignments[k].position < s.shard_corpus.len()
}

/// The position that is moved off a node is one that it is the primary of, and none of its others
/// is larger; there is none only if the node is the primary of nothing that is counted.
pub proof fn law_the_largest_primary_is_moved(s: SnapshotView, id: u64, n: nat)
    requires
        n <= s.assignments.len(),
    ensures
        match heaviest(s, id, n) {
            Some((p, c)) => {
                &&& exists|k: int|
                    0 <= k < n && (#[trigger] s.assignments[k]).primary.0 == id
                        && s.assignments[k].position == p
                &&& p < s.shard_corpus.len()
                &&& c == s.shard_corpus[p as int]
                &&& forall|k: int|
                    0 <= k < n && (#[trigger] s.assignments[k]).primary.0 == id
                        && s.assignments[k].position < s.shard_corpus.len()
                        ==> s.shard_corpus[s.assignments[k].position as int] <= c
            },
            None => forall|k: int|
                0 <= k < n && (#[trigger] s.assignments[k]).primary.0 == id
                    ==> s.assignments[k].position >= s.shard_corpus.len(),
        },
    decreases n,
{
    if n > 0 {
        law_the_largest_primary_is_moved(s, id, (n - 1) as nat);
        let a = s.assignments[n - 1];
        if a.primary.0 == id && corpus_at(s, a.position) is Some {
            let (p, c) = heaviest(s, id, n)->0;
            let before = heaviest(s, id, (n - 1) as nat);
            if before == Some((p, c)) {
                let k = choose|k: int|
                    0 <= k < n - 1 && (#[trigger] s.assignments[k]).primary.0 == id
                        && s.assignments[k].position == p;
                assert(s.assignments[k].position == p);
            } else {
                assert(s.assignments[n - 1].position == p);
            }
        } else if let Some((p, c)) = heaviest(s, id, (n - 1) as nat) {
            let k = choose|k: int|
                0 <= k < n - 1 && (#[trigger] s.assignments[k]).primary.0 == id
                    && s.assignments[k].position == p;
            assert(s.assignments[k].position == p);
        }
    }
}

/// Of equally large positions the first is moved.
pub proof fn law_the_first_of_equals_is_moved(s: SnapshotView, id: u64, n: nat, k: int)
    requires
        n <= s.assignments.len(),
        0 <= k < n,
        s.assignments[k].primary.0 == id,
        s.assignments[k].position < s.shard_corpus.len(),
        heaviest(s, id, n) matches Some(x) && x.1 == s.shard_corpus[s.assignments[k].position as int],
    ensures
        exists|j: int|
            0 <= j <= k && (#[trigger] s.assignments[j]).primary.0 == id && s.assignments[j].position
                == (heaviest(s, id, n)->0).0,
    decreases n,
{
    let m = (n - 1) as nat;
    law_the_largest_primary_is_moved(s, id, m);
    if heaviest(s, id, m) == heaviest(s, id, n) {
        if k < m {
            law_the_first_of_equals_is_moved(s, id, m, k);
        } else {
            let p = (heaviest(s, id, n)->0).0;
            let j = choose|j: int|
                0 <= j < m && (#[trigger] s.assignments[j]).primary.0 == id
                    && s.assignments[j].position == p;
            assert(s.assignments[j].position == p);
        }
    } else {
        assert(s.assignments[n - 1].position == (heaviest(s, id, n)->0).0);
        if k < m {
            assert(s.assignments[k].primary.0 == id);
        }
    }
}

proof fn lemma_load_of_move(s: SnapshotView, t: SnapshotView, k: int, id: u64, n: nat)
    requires
        n <= s.assignments.len(),
        0 <= k < s.assignments.len(),
        t.shard_corpus == s.shard_corpus,
        t.assignments.len() == s.assignments.len(),
        t.assignments[k].position == s.assignments[k].position,
        s.assignments[k].position < s.shard_corpus.len(),
        forall|i: int|
            0 <= i < s.assignments.len() && i != k ==> #[trigger] t.assignments[i]
                == s.assignments[i],
    ensures
        ({
            let c = if k < n {
                s.shard_corpus[s.assignments[k].position as int] as nat
            } else {
                0
            };
            let off = if s.assignments[k].primary.0 == id {
                c
            } else {
                0
            };
            let on = if t.assignments[k].primary.0 == id {
                c
            } else {
                0
            };
            &&& load_of(t, id, n) + off == load_of(s, id, n) + on
            &&& total_load(t, n) == total_load(s, n)
        }),
    decreases n,
{
    if n > 0 {
        lemma_load_of_move(s, t, k, id, (n - 1) as nat);
        if n - 1 != k {
            assert(t.assignments[n - 1] == s.assignments[n - 1]);
        }
    }
}

/// Moving a primary to another node moves exactly its corpus from the one node's load to the
/// other's, and changes no other load nor the total. Replicas are no load. Without positions there
/// is none.
pub proof fn law_a_move_shifts_its_corpus(s: SnapshotView, k: int, to: AssignmentView, id: u64)
    requires
        0 <= k < s.assignments.len(),
        s.assignments[k].position < s.shard_corpus.len(),
        to.position == s.assignments[k].position,
    ensures
        ({
            let t = SnapshotView { assignments: s.assignments.update(k, to), ..s };
            let c = s.shard_corpus[to.position as int];
            let from = s.assignments[k].primary.0;
            &&& total_load(t, t.assignments.len()) == total_load(s, s.assignments.len())
            &&& from == to.primary.0 ==> node_load(t, id) == node_load(s, id)
            &&& from != to.primary.0 && id == from ==> node_load(t, id) + c == node_load(s, id)
            &&& from != to.primary.0 && id == to.primary.0 ==> node_load(t, id) == node_load(s, id)
                + c
            &&& id != from && id != to.primary.0 ==> node_load(t, id) == node_load(s, id)
        }),
        s.assignments.len() == 0 ==> node_load(s, id) == 0,
{
    let t = SnapshotView { assignments: s.assignments.update(k, to), ..s };
    lemma_load_of_move(s, t, k, id, s.assignments.len());
}

proof fn lemma_loaded_members(s: SnapshotView, n: nat, id: u64)
    requires
        n <= s.assignments.len(),
    ensures
        loaded(s, n).contains(id) <==> exists|k: int|
            0 <= k < n && (#[trigger] s.assignments[k]).primary.0 == id && s.assignments[k].position
                < s.shard_corpus.len(),
    decreases n,
{
    if n > 0 {
        let m = (n - 1) as nat;
        lemma_loaded_members(s, m, id);
        let b = loaded(s, m);
        let r = loaded(s, n);
        if r.contains(id) {
            let i = choose|i: int| 0 <= i < r.len() && r[i] == id;
            if i < b.len() {
                assert(b[i] == id);
                assert(b.contains(id));
                let k = choose|k: int|
                    0 <= k < m && (#[trigger] s.assignments[k]).primary.0 == id
                        && s.assignments[k].position < s.shard_corpus.len();
                assert(s.assignments[k].primary.0 == id);
            } else {
                assert(s.assignments[n - 1].primary.0 == id);
            }
        }
        if exists|k: int|
            0 <= k < n && (#[trigger] s.assignments[k]).primary.0 == id && s.assignments[k].position
                < s.shard_corpus.len() {
            let k = choose|k: int|
                0 <= k < n && (#[trigger] s.assignments[k]).primary.0 == id
                    && s.assignments[k].position < s.shard_corpus.len();
            if k < m {
                assert(b.contains(id));
                let i = choose|i: int| 0 <= i < b.len() && b[i] == id;
                assert(r[i] == id);
            } else {
                assert(r[r.len() - 1] == id);
            }
        }
    }
}

proof fn lemma_hottest(s: SnapshotView, ids: Seq<u64>, n: nat)
    requires
        n < ids.len(),
    ensures
        exists|i: int|
            0 <= i <= n && #[trigger] ids[i] == hottest(s, ids, n) && forall|j: int|
                0 <= j < i ==> node_load(s, #[trigger] ids[j]) < node_load(s, hottest(s, ids, n)),
        forall|i: int|
            0 <= i <= n ==> node_load(s, #[trigger] ids[i]) <= node_load(s, hottest(s, ids, n)),
        exists|i: int|
            0 <= i <= n && #[trigger] ids[i] == coldest(s, ids, n) && forall|j: int|
                0 <= j < i ==> node_load(s, #[trigger] ids[j]) > node_load(s, coldest(s, ids, n)),
        forall|i: int|
            0 <= i <= n ==> node_load(s, #[trigger] ids[i]) >= node_load(s, coldest(s, ids, n)),
    decreases n,
{
    if n > 0 {
        lemma_hottest(s, ids, (n - 1) as nat);
        let h = hottest(s, ids, (n - 1) as nat);
        let c = coldest(s, ids, (n - 1) as nat);
        let i = choose|i: int|
            0 <= i <= n - 1 && #[trigger] ids[i] == h && forall|j: int|
                0 <= j < i ==> node_load(s, #[trigger] ids[j]) < node_load(s, h);
        let j = choose|j: int|
            0 <= j <= n - 1 && #[trigger] ids[j] == c && forall|i: int|
                0 <= i < j ==> node_load(s, #[trigger] ids[i]) > node_load(s, c);
        assert(ids[i] == h && ids[j] == c);
        assert(ids[n as int] == ids[n as int]);
    } else {
        assert(ids[0] == hottest(s, ids, n));
    }
}

/// No node that carries load has more than the one that is reported hot, nor less than the one that
/// is reported cold, and both carry load; of equals it is the one with the lowest id. There is a
/// report exactly when two nodes carry load and there is any.
pub proof fn law_hot_and_cold_are_the_extremes(s: SnapshotView)
    requires
        summable(s),
        s.assignments.len() <= usize::MAX,
    ensures
        match summary(s) {
            Some(l) => {
                &&& carries_load(s, l.hot) && carries_load(s, l.cold)
                &&& forall|id: u64| #[trigger]
                    carries_load(s, id) ==> node_load(s, l.cold) <= node_load(s, id) <= node_load(
                        s,
                        l.hot,
                    )
                &&& forall|id: u64| #[trigger]
                    carries_load(s, id) && node_load(s, id) == node_load(s, l.hot) ==> l.hot <= id
                &&& forall|id: u64| #[trigger]
                    carries_load(s, id) && node_load(s, id) == node_load(s, l.cold) ==> l.cold <= id
                &&& strictly_ascending(loaded_nodes(s), key_of::<u64>())
                &&& forall|id: u64| #[trigger] loaded_nodes(s).contains(id) <==> carries_load(s, id)
                &&& l.nodes == loaded_nodes(s).len()
                &&& l.hot_load == node_load(s, l.hot)
                &&& l.total == total_load(s, s.assignments.len())
                &&& l.total > 0
                &&& exists|a: u64, b: u64| #[trigger]
                    carries_load(s, a) && #[trigger] carries_load(s, b) && a != b
            },
            None => total_load(s, s.assignments.len()) == 0 || forall|a: u64, b: u64| #[trigger]
                carries_load(s, a) && #[trigger] carries_load(s, b) ==> a == b,
        },
{
    let raw = loaded(s, s.assignments.len());
    let ids = loaded_nodes(s);
    lemma_exact(raw);
    lemma_sorted_set(raw, key_of::<u64>());
    lemma_loaded_len(s, s.assignments.len());
    assert forall|id: u64| #[trigger] carries_load(s, id) <==> ids.contains(id) by {
        lemma_loaded_members(s, s.assignments.len(), id);
    }
    match summary(s) {
        Some(l) => {
            let n = (ids.len() - 1) as nat;
            lemma_hottest(s, ids, n);
            lemma_load_bound(s, l.hot, s.assignments.len());
            let i = choose|i: int|
                0 <= i <= n && #[trigger] ids[i] == l.hot && forall|j: int|
                    0 <= j < i ==> node_load(s, #[trigger] ids[j]) < node_load(s, l.hot);
            let j = choose|j: int|
                0 <= j <= n && #[trigger] ids[j] == l.cold && forall|i: int|
                    0 <= i < j ==> node_load(s, #[trigger] ids[i]) > node_load(s, l.cold);
            assert forall|id: u64| #[trigger] carries_load(s, id) implies (node_load(s, id)
                == node_load(s, l.hot) ==> l.hot <= id) && (node_load(s, id) == node_load(s, l.cold)
                ==> l.cold <= id) by {
                let k = choose|k: int| 0 <= k < ids.len() && ids[k] == id;
                if k > i {
                    assert(key_of::<u64>()(ids[i]) < key_of::<u64>()(ids[k]));
                }
                if k > j {
                    assert(key_of::<u64>()(ids[j]) < key_of::<u64>()(ids[k]));
                }
            }
            assert(ids.contains(ids[i]) && ids.contains(ids[j]));
            assert(carries_load(s, l.hot) && carries_load(s, l.cold));
            assert forall|id: u64| #[trigger] carries_load(s, id) implies node_load(s, l.cold)
                <= node_load(s, id) <= node_load(s, l.hot) by {
                let k = choose|k: int| 0 <= k < ids.len() && ids[k] == id;
                assert(node_load(s, ids[k]) <= node_load(s, l.hot));
            }
            assert(ids.contains(ids[0]) && ids.contains(ids[1]));
            assert(carries_load(s, ids[0]) && carries_load(s, ids[1]));
            assert(key_of::<u64>()(ids[0]) < key_of::<u64>()(ids[1]));
        },
        None => {
            if total_load(s, s.assignments.len()) != 0 {
                assert forall|a: u64, b: u64| #[trigger]
                    carries_load(s, a) && #[trigger] carries_load(s, b) implies a == b by {
                    let i = choose|i: int| 0 <= i < ids.len() && ids[i] == a;
                    let j = choose|j: int| 0 <= j < ids.len() && ids[j] == b;
                }
            }
        },
    }
}

proof fn lemma_loaded_len(s: SnapshotView, n: nat)
    ensures
        loaded(s, n).len() <= n,
    decreases n,
{
    if n > 0 {
        lemma_loaded_len(s, (n - 1) as nat);
    }
}

proof fn lemma_assigned_members(s: Seq<AssignmentView>, id: u64)
    ensures
        assigned_ids(s).contains(id) <==> exists|k: int|
            0 <= k < s.len() && ((#[trigger] s[k]).primary == NodeId(id) || s[k].replicas.contains(
                NodeId(id),
            )),
    decreases s.len(),
{
    if s.len() > 0 {
        let d = s.drop_last();
        lemma_assigned_members(d, id);
        let b = assigned_ids(d);
        let m = ids_of(s.last());
        let r = assigned_ids(s);
        let reps = s.last().replicas;
        if r.contains(id) {
            let i = choose|i: int| 0 <= i < r.len() && r[i] == id;
            if i < b.len() {
                assert(b[i] == id);
                assert(b.contains(id));
                let k = choose|k: int|
                    0 <= k < d.len() && ((#[trigger] d[k]).primary == NodeId(id)
                        || d[k].replicas.contains(NodeId(id)));
                assert(s[k] == d[k]);
            } else {
                let x = i - b.len();
                assert(m[x] == id);
                if x > 0 {
                    assert(reps[x - 1] == NodeId(id));
                }
                assert(s[s.len() - 1] == s.last());
            }
        }
        if exists|k: int|
            0 <= k < s.len() && ((#[trigger] s[k]).primary == NodeId(id) || s[k].replicas.contains(
                NodeId(id),
            )) {
            let k = choose|k: int|
                0 <= k < s.len() && ((#[trigger] s[k]).primary == NodeId(id)
                    || s[k].replicas.contains(NodeId(id)));
            if k < d.len() {
                assert(d[k] == s[k]);
                assert(b.contains(id));
                let i = choose|i: int| 0 <= i < b.len() && b[i] == id;
                assert(r[i] == id);
            } else if s[k].primary == NodeId(id) {
                assert(m[0] == id);
                assert(r[b.len() as int] == id);
            } else {
                let x = choose|x: int| 0 <= x < reps.len() && reps[x] == NodeId(id);
                assert(m[x + 1] == id);
                assert(r[b.len() + x + 1] == id);
            }
        }
    }
}

/// `id` is registered.
pub open spec fn is_member(s: SnapshotView, id: NodeId) -> bool {
    exists|k: int| 0 <= k < s.nodes.len() && (#[trigger] s.nodes[k]).id == id
}

/// `id` is the primary or a replica of some position.
pub open spec fn is_placed(s: SnapshotView, id: NodeId) -> bool {
    exists|k: int|
        0 <= k < s.assignments.len() && ((#[trigger] s.assignments[k]).primary == id
            || s.assignments[k].replicas.contains(id))
}

proof fn lemma_member_and_placed(s: SnapshotView, id: u64)
    ensures
        member_ids(s).contains(id) <==> is_member(s, NodeId(id)),
        assigned_ids(s.assignments).contains(id) <==> is_placed(s, NodeId(id)),
{
    let m = member_ids(s);
    if m.contains(id) {
        let k = choose|k: int| 0 <= k < m.len() && m[k] == id;
        assert(s.nodes[k].id == NodeId(id));
    }
    if is_member(s, NodeId(id)) {
        let k = choose|k: int| 0 <= k < s.nodes.len() && (#[trigger] s.nodes[k]).id == NodeId(id);
        assert(m[k] == id);
    }
    lemma_assigned_members(s.assignments, id);
}

/// The recommendations of one kind do not depend on those of another: what was decided before stays
/// in front, and `d` is followed only by splits.
proof fn lemma_splits(s: SnapshotView, threshold: usize, d: DecisionView, n: nat)
    requires
        n <= s.shard_corpus.len(),
        n <= u32::MAX + 1,
    ensures
        ({
            let r = splits(s, threshold, d, n);
            &&& r.actions.len() >= d.actions.len()
            &&& r.actions.take(d.actions.len() as int) == d.actions
            &&& forall|i: int|
                d.actions.len() <= i < r.actions.len() ==> {
                    &&& (#[trigger] r.actions[i]) is RecommendSplit
                    &&& threshold > 0
                    &&& r.actions[i]->RecommendSplit_position < n
                    &&& r.actions[i]->corpus == s.shard_corpus[r.actions[i]->RecommendSplit_position as int]
                    &&& r.actions[i]->corpus > threshold
                }
            &&& forall|i: int, j: int|
                d.actions.len() <= i < j < r.actions.len() ==> (
                #[trigger] r.actions[i])->RecommendSplit_position < (
                #[trigger] r.actions[j])->RecommendSplit_position
            &&& threshold > 0 ==> forall|p: u32|
                p < n && (#[trigger] s.shard_corpus[p as int]) > threshold ==> r.actions.contains(
                    ActionView::RecommendSplit { position: p, corpus: s.shard_corpus[p as int] },
                )
        }),
    decreases n,
{
    let r = splits(s, threshold, d, n);
    assert(d.actions.take(d.actions.len() as int) =~= d.actions);
    if n > 0 && threshold > 0 {
        lemma_splits(s, threshold, d, (n - 1) as nat);
        let b = splits(s, threshold, d, (n - 1) as nat);
        let q = (n - 1) as u32;
        assert(r.actions.take(d.actions.len() as int) =~= d.actions);
        assert forall|p: u32| p < n && (#[trigger] s.shard_corpus[p as int]) > threshold implies r.actions.contains(
            ActionView::RecommendSplit { position: p, corpus: s.shard_corpus[p as int] },
        ) by {
            let x = ActionView::RecommendSplit { position: p, corpus: s.shard_corpus[p as int] };
            if p < q {
                assert(b.actions.contains(x));
                let i = choose|i: int| 0 <= i < b.actions.len() && b.actions[i] == x;
                assert(r.actions[i] == x);
            } else {
                assert(r.actions[r.actions.len() - 1] == x);
            }
        }
        assert forall|i: int| d.actions.len() <= i < r.actions.len() implies {
            &&& (#[trigger] r.actions[i]) is RecommendSplit
            &&& threshold > 0
            &&& r.actions[i]->RecommendSplit_position < n
            &&& r.actions[i]->corpus == s.shard_corpus[r.actions[i]->RecommendSplit_position as int]
            &&& r.actions[i]->corpus > threshold
        } by {
            if i < b.actions.len() {
                assert(r.actions[i] == b.actions[i]);
            }
        }
        assert forall|i: int, j: int| d.actions.len() <= i < j < r.actions.len() implies (
        #[trigger] r.actions[i])->RecommendSplit_position < (
        #[trigger] r.actions[j])->RecommendSplit_position by {
            assert(r.actions[i] == b.actions[i]);
            if j < b.actions.len() {
                assert(r.actions[j] == b.actions[j]);
            }
        }
    }
}

/// What the policy recommends, kind by kind, and nothing else; a policy that is off recommends
/// nothing. A rebalance, at the configured replication factor, comes exactly when the registered
/// nodes are not the nodes that hold data. A handoff comes exactly when the load is skewed and the
/// hottest node is not the coldest; it moves the largest primary of the hottest to the coldest. A
/// split comes for exactly the positions above the threshold. A further node is called for exactly
/// when a split is recommended and there are fewer than two.
pub proof fn law_what_the_policy_recommends(
    s: SnapshotView,
    config: AutoscaleConfig,
    skewed: Option<(Seq<char>, Seq<char>)>,
    a: ActionView,
)
    requires
        s.shard_corpus.len() <= u32::MAX + 1,
        summable(s),
        s.assignments.len() <= usize::MAX,
    ensures
        policy(s, config, skewed).actions.contains(a) ==> config.enabled,
        config.enabled ==> (policy(s, config, skewed).actions.contains(a) <==> match a {
            ActionView::Rebalance { rf } => rf == config.target_replication_factor && exists|
                id: NodeId,
            | #[trigger] is_member(s, id) != is_placed(s, id),
            ActionView::Handoff { position, from, to } => skewed is Some && (summary(s) matches Some(
                l,
            ) && from == NodeId(l.hot) && to == NodeId(l.cold) && from != to && (heaviest(
                s,
                l.hot,
                s.assignments.len(),
            )->0).0 == position),
            ActionView::RecommendSplit { position, corpus } => config.split_corpus_threshold > 0
                && position < s.shard_corpus.len() && s.shard_corpus[position as int] == corpus
                && corpus > config.split_corpus_threshold,
            ActionView::RecommendScaleOut { reason } => a == policy(
                s,
                config,
                skewed,
            ).actions.last() && s.nodes.len() < 2 && config.split_corpus_threshold > 0 && exists|
                p: int,
            |
                0 <= p < s.shard_corpus.len() && (#[trigger] s.shard_corpus[p])
                    > config.split_corpus_threshold,
        }),
{
    if config.enabled {
        let th = config.split_corpus_threshold;
        let rf = config.target_replication_factor;
        let d1 = drift(s, rf, no_decision());
        let d2 = skew(s, skewed, d1);
        let n = s.shard_corpus.len();
        let d3 = splits(s, th, d2, n);
        let d4 = capacity(s.nodes.len(), d3);
        lemma_splits(s, th, d2, n);
        law_rebalance_iff_membership_differs(s, rf);
        law_hot_and_cold_are_the_extremes(s);
        if let Some(l) = summary(s) {
            law_the_largest_primary_is_moved(s, l.hot, s.assignments.len());
        }
        assert(d1.actions.len() <= 1);
        assert(d1.actions.len() == 1 <==> exists|id: NodeId| #[trigger]
            is_member(s, id) != is_placed(s, id)) by {
            assert forall|id: u64| #[trigger] member_ids(s).contains(id) <==> is_member(
                s,
                NodeId(id),
            ) by {
                lemma_member_and_placed(s, id);
            }
            if exists|id: NodeId| #[trigger] is_member(s, id) != is_placed(s, id) {
                let id = choose|id: NodeId| #[trigger] is_member(s, id) != is_placed(s, id);
                lemma_member_and_placed(s, id.0);
                assert(member_ids(s).contains(id.0) != assigned_ids(s.assignments).contains(id.0));
            } else {
                assert forall|id: u64| #[trigger] member_ids(s).contains(id) <==> assigned_ids(
                    s.assignments,
                ).contains(id) by {
                    lemma_member_and_placed(s, id);
                    assert(is_member(s, NodeId(id)) == is_placed(s, NodeId(id)));
                }
            }
        }
        let k = d2.actions.len();
        assert forall|i: int| 0 <= i < k implies d3.actions[i] == #[trigger] d2.actions[i] by {
            assert(d3.actions.take(k as int)[i] == d3.actions[i]);
        }
        // Whether there is any split.
        let p = |x: ActionView| x is RecommendSplit;
        crate::seqs::lemma_filter_members(d3.actions, p);
        let f = d3.actions.filter(p);
        assert(split_count(d3.actions) > 0 <==> th > 0 && exists|q: int|
            0 <= q < n && (#[trigger] s.shard_corpus[q]) > th) by {
            if split_count(d3.actions) > 0 {
                assert(f.contains(f[0]));
                let i = choose|i: int| 0 <= i < d3.actions.len() && d3.actions[i] == f[0];
                if i < k {
                    assert(d2.actions[i] is RecommendSplit);
                } else {
                    let q = d3.actions[i]->RecommendSplit_position;
                    assert(s.shard_corpus[q as int] > th);
                }
            }
            if th > 0 && exists|q: int| 0 <= q < n && (#[trigger] s.shard_corpus[q]) > th {
                let q = choose|q: int| 0 <= q < n && (#[trigger] s.shard_corpus[q]) > th;
                let u = q as u32;
                assert(s.shard_corpus[u as int] > th);
                let x = ActionView::RecommendSplit { position: u, corpus: s.shard_corpus[u as int] };
                assert(d3.actions.contains(x));
                assert(f.contains(x));
            }
        }
        // Where `a` stands, if it does.
        if d4.actions.contains(a) {
            let i = choose|i: int| 0 <= i < d4.actions.len() && d4.actions[i] == a;
            if i < d3.actions.len() {
                assert(d3.actions[i] == a);
                if i < k {
                    assert(d2.actions[i] == a);
                }
            }
        }
        match a {
            ActionView::Rebalance { .. } => {
                if d1.actions.len() == 1 && a == d1.actions[0] {
                    assert(d2.actions[0] == a);
                    assert(d3.actions[0] == a);
                    assert(d4.actions[0] == a);
                }
            },
            ActionView::Handoff { .. } => {
                if k > d1.actions.len() && a == d2.actions[k - 1] {
                    assert(d3.actions[k - 1] == a);
                    assert(d4.actions[k - 1] == a);
                }
            },
            ActionView::RecommendSplit { position, corpus } => {
                if th > 0 && position < n && s.shard_corpus[position as int] == corpus && corpus > th {
                    assert(s.shard_corpus[position as int] > th);
                    assert(d3.actions.contains(a));
                    let i = choose|i: int| 0 <= i < d3.actions.len() && d3.actions[i] == a;
                    assert(d4.actions[i] == a);
                }
            },
            ActionView::RecommendScaleOut { .. } => {
                if a == d4.actions.last() && split_count(d3.actions) > 0 && s.nodes.len() < 2 {
                    assert(d4.actions[d4.actions.len() - 1] == a);
                }
            },
        }
    }
}

/// A shard count is raised by one for each position whose own corpus, without what is on every
/// position, is above the threshold, and by nothing else.
pub proof fn law_one_more_shard_for_each_crowded_position(
    corpus: Seq<usize>,
    replicated: usize,
    threshold: usize,
)
    ensures
        crowded(corpus, replicated, threshold, corpus.len()) == corpus.filter(
            |c: usize| c > replicated + threshold,
        ).len(),
    decreases corpus.len(),
{
    let p = |c: usize| c > replicated + threshold;
    reveal(Seq::filter);
    if corpus.len() > 0 {
        law_one_more_shard_for_each_crowded_position(corpus.drop_last(), replicated, threshold);
        lemma_crowded_prefix(corpus, replicated, threshold, (corpus.len() - 1) as nat);
    }
}

proof fn lemma_crowded_prefix(corpus: Seq<usize>, replicated: usize, threshold: usize, n: nat)
    requires
        n < corpus.len(),
    ensures
        crowded(corpus, replicated, threshold, n) == crowded(
            corpus.drop_last(),
            replicated,
            threshold,
            n,
        ),
    decreases n,
{
    if n > 0 {
        lemma_crowded_prefix(corpus, replicated, threshold, (n - 1) as nat);
    }
}

/// The number that a call for a further node names is that of the positions above the threshold.
pub proof fn law_a_call_for_a_node_names_the_crowded_positions(
    s: SnapshotView,
    config: AutoscaleConfig,
    skewed: Option<(Seq<char>, Seq<char>)>,
    reason: Seq<char>,
)
    requires
        policy(s, config, skewed).actions.contains(ActionView::RecommendScaleOut { reason }),
    ensures
        reason == decimal(
            s.shard_corpus.filter(|c: usize| c > config.split_corpus_threshold).len(),
        ) + " shard(s) over the split threshold but only "@ + decimal(s.nodes.len())
            + " node(s); add a data node"@,
{
    let th = config.split_corpus_threshold;
    let a = drift(s, config.target_replication_factor, no_decision());
    let b = skew(s, skewed, a);
    let c = splits(s, th, b, s.shard_corpus.len());
    let p = |x: ActionView| x is RecommendSplit;
    reveal(Seq::filter);
    assert(b.actions.filter(p).len() == 0) by {
        crate::seqs::lemma_filter_members(b.actions, p);
        if b.actions.filter(p).len() > 0 {
            let x = b.actions.filter(p)[0];
            assert(b.actions.filter(p).contains(x));
            assert(b.actions.contains(x) && p(x));
        }
    }
    if config.enabled {
        lemma_split_count(s, th, b, s.shard_corpus.len());
        assert(s.shard_corpus.take(s.shard_corpus.len() as int) =~= s.shard_corpus);
        let out = policy(s, config, skewed).actions;
        let x = ActionView::RecommendScaleOut { reason };
        let i = choose|i: int| 0 <= i < out.len() && out[i] == x;
        if i < c.actions.len() {
            assert(c.actions[i] == x);
        }
    }
}

proof fn lemma_split_count(s: SnapshotView, th: usize, d: DecisionView, n: nat)
    requires
        n <= s.shard_corpus.len(),
        split_count(d.actions) == 0,
        forall|i: int| 0 <= i < d.actions.len() ==> !((#[trigger] d.actions[i]) is RecommendScaleOut),
    ensures
        th > 0 ==> split_count(splits(s, th, d, n).actions) == s.shard_corpus.take(
            n as int,
        ).filter(|c: usize| c > th).len(),
        th == 0 ==> splits(s, th, d, n) == d,
        forall|i: int|
            0 <= i < splits(s, th, d, n).actions.len() ==> !((#[trigger] splits(
                s,
                th,
                d,
                n,
            ).actions[i]) is RecommendScaleOut),
    decreases n,
{
    reveal(Seq::filter);
    if n > 0 && th > 0 {
        let m = (n - 1) as nat;
        lemma_split_count(s, th, d, m);
        let before = splits(s, th, d, m);
        let now = splits(s, th, d, n);
        assert(s.shard_corpus.take(n as int).drop_last() =~= s.shard_corpus.take(m as int));
        assert(s.shard_corpus.take(n as int).last() == s.shard_corpus[n - 1]);
        if s.shard_corpus[n - 1] > th {
            assert(now.actions.drop_last() =~= before.actions);
        }
    }
}

/// A further node is called for, in the last place, exactly where some position is above the
/// threshold and fewer than two nodes are registered.
pub proof fn law_one_crowded_position_calls_for_a_second_node(
    s: SnapshotView,
    config: AutoscaleConfig,
    skewed: Option<(Seq<char>, Seq<char>)>,
    p: int,
)
    requires
        config.enabled,
        config.split_corpus_threshold > 0,
        0 <= p < s.shard_corpus.len(),
        s.shard_corpus[p] > config.split_corpus_threshold,
    ensures
        policy(s, config, skewed).actions.len() > 0,
        policy(s, config, skewed).actions.last() is RecommendScaleOut <==> s.nodes.len() < 2,
{
    let th = config.split_corpus_threshold;
    let a = drift(s, config.target_replication_factor, no_decision());
    let b = skew(s, skewed, a);
    let n = s.shard_corpus.len();
    let c = splits(s, th, b, n);
    let q = |x: ActionView| x is RecommendSplit;
    reveal(Seq::filter);
    assert(b.actions.filter(q).len() == 0) by {
        crate::seqs::lemma_filter_members(b.actions, q);
        if b.actions.filter(q).len() > 0 {
            let x = b.actions.filter(q)[0];
            assert(b.actions.filter(q).contains(x));
            assert(b.actions.contains(x) && q(x));
        }
    }
    lemma_split_count(s, th, b, n);
    assert(s.shard_corpus.take(n as int) =~= s.shard_corpus);
    let over = |x: usize| x > th;
    crate::seqs::lemma_filter_members(s.shard_corpus, over);
    assert(s.shard_corpus.contains(s.shard_corpus[p]) && over(s.shard_corpus[p]));
    assert(s.shard_corpus.filter(over).contains(s.shard_corpus[p]));
    assert(split_count(c.actions) > 0);
    crate::seqs::lemma_filter_members(c.actions, q);
    let x = c.actions.filter(q)[0];
    assert(c.actions.filter(q).contains(x));
    assert(c.actions.contains(x));
    assert(!(c.actions[c.actions.len() - 1] is RecommendScaleOut));
}

} // verus!
