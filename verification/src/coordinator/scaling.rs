//! One round of the autoscaler: what it looks at, and what of the policy's decision is carried
//! out.
use crate::autoscale::{
    policy, ActionView, AutoscaleConfig, AutoscaleDecision, LoadSnapshot, ScalingAction,
    SnapshotView,
};
use crate::control::{ClusterState, NodeId};
use crate::coordinator::waves::{addr_in, address_in};
use crate::shard::{ShardError, ShardErrorView};
use crate::text::{decimal, join, joined, push_decimal};
use vstd::prelude::*;

verus! {

/// What is wrong with a configuration; `negative_skew` says that the load ratio is below zero.
pub open spec fn config_problems(c: AutoscaleConfig, negative_skew: bool) -> Seq<Seq<char>> {
    (if c.target_replication_factor == 0 {
        seq!["target_replication_factor must be >= 1"@]
    } else {
        Seq::empty()
    }) + (if negative_skew {
        seq!["max_node_load_skew must be >= 0"@]
    } else {
        Seq::empty()
    })
}

/// Whether a round can start: its configuration must be valid.
pub fn check_tick(config: &AutoscaleConfig, negative_skew: bool) -> (r: Result<(), ShardError>)
    ensures
        match r {
            Ok(_) => config.target_replication_factor > 0 && !negative_skew,
            Err(e) => (config.target_replication_factor == 0 || negative_skew) && e@
                == ShardErrorView::Config(
                "invalid autoscale config: "@ + joined(
                    config_problems(*config, negative_skew),
                    "; "@,
                ),
            ),
        },
{
    let problems = config.validate(negative_skew);
    assert(crate::text::texts(problems@).len() == problems@.len());
    if problems.len() == 0 {
        return Ok(());
    }
    let mut m = String::from_str("invalid autoscale config: ");
    m.append(join(&problems, "; ").as_str());
    Err(ShardError::Config(m))
}

/// What the policy looks at: the members and the placement of the document, and the queries that
/// each position holds.
pub fn collect_load(
    state: ClusterState,
    shard_corpus: Vec<usize>,
    replicated_corpus: usize,
    config: &AutoscaleConfig,
) -> (r: LoadSnapshot)
    ensures
        r@ == (SnapshotView {
            nodes: state@.nodes,
            assignments: state@.assignments,
            shard_corpus: shard_corpus@,
            num_shards: state.num_shards,
            replication_factor: config.target_replication_factor,
            replicated_corpus,
        }),
{
    LoadSnapshot {
        nodes: state.nodes,
        assignments: state.assignments,
        shard_corpus,
        num_shards: state.num_shards,
        replication_factor: config.target_replication_factor,
        replicated_corpus,
    }
}

/// The replication factors to rebalance with, in order.
pub open spec fn rebalances(actions: Seq<ActionView>) -> Seq<usize>
    decreases actions.len(),
{
    if actions.len() == 0 {
        Seq::empty()
    } else {
        let before = rebalances(actions.drop_last());
        match actions.last() {
            ActionView::Rebalance { rf } => before.push(rf),
            _ => before,
        }
    }
}

/// The moves that are recommended, in order.
pub open spec fn handoffs(actions: Seq<ActionView>) -> Seq<(u32, NodeId, NodeId)>
    decreases actions.len(),
{
    if actions.len() == 0 {
        Seq::empty()
    } else {
        let before = handoffs(actions.drop_last());
        match actions.last() {
            ActionView::Handoff { position, from, to } => before.push((position, from, to)),
            _ => before,
        }
    }
}

/// What of a decision is carried out.
pub struct TickPlan {
    /// Rebalances, each with its replication factor.
    pub rebalances: Vec<usize>,
    /// Moves: the position, its node and the node it goes to.
    pub handoffs: Vec<(u32, NodeId, NodeId)>,
}

/// What of a decision is carried out: the rebalances and, only where there is none, the moves. A
/// rebalance changes the placement that the moves were recommended for.
pub fn plan_tick(decision: &AutoscaleDecision) -> (r: TickPlan)
    ensures
        r.rebalances@ == rebalances(decision@.actions),
        r.handoffs@ == (if rebalances(decision@.actions).len() == 0 {
            handoffs(decision@.actions)
        } else {
            Seq::empty()
        }),
{
    let ghost all = decision@.actions;
    let n: usize = decision.actions.len();
    let mut again: Vec<usize> = Vec::new();
    let mut moves: Vec<(u32, NodeId, NodeId)> = Vec::new();
    let mut i: usize = 0;
    assert(all.take(0) =~= Seq::empty());
    while i < n
        invariant
            n == decision.actions@.len(),
            all == decision@.actions,
            i <= n,
            again@ == rebalances(all.take(i as int)),
            moves@ == handoffs(all.take(i as int)),
        decreases n - i,
    {
        proof {
            assert(all.take(i + 1).drop_last() =~= all.take(i as int));
            assert(all.take(i + 1).last() == decision.actions@[i as int]@);
        }
        match &decision.actions[i] {
            ScalingAction::Rebalance { rf } => {
                again.push(*rf);
            },
            ScalingAction::Handoff { position, from, to } => {
                moves.push((*position, *from, *to));
            },
            _ => {},
        }
        i = i + 1;
    }
    assert(all.take(n as int) =~= all);
    if again.len() > 0 {
        moves = Vec::new();
        assert(moves@ =~= Seq::empty());
    }
    TickPlan { rebalances: again, handoffs: moves }
}

/// Whether the position still belongs to the node.
pub open spec fn owns(s: SnapshotView, position: u32, from: NodeId) -> bool {
    exists|i: int|
        0 <= i < s.assignments.len() && (#[trigger] s.assignments[i]).position == position
            && s.assignments[i].primary == from
}

/// The notice that a recommended move has no endpoints to run between.
pub open spec fn no_endpoint_text(position: u32, from: NodeId, to: NodeId) -> Seq<char> {
    "autoscaler recommended moving shard "@ + decimal(position as nat) + " from node "@ + decimal(
        from.0 as nat,
    ) + " to node "@ + decimal(to.0 as nat)
        + ", but a node has no registered endpoint; skipping (the decision still reports it)"@
}

/// The notice that a recommended move failed.
pub open spec fn failed_move_text(position: u32, from: NodeId, to: NodeId) -> Seq<char> {
    "autoscaler-driven handoff of shard "@ + decimal(position as nat) + " from node "@ + decimal(
        from.0 as nat,
    ) + " to node "@ + decimal(to.0 as nat)
        + " failed; the source auto-unfenced and routing is unchanged (retried next tick)"@
}

fn move_text(before: &str, position: u32, from: NodeId, to: NodeId, after: &str) -> (r: String)
    ensures
        r@ == before@ + decimal(position as nat) + " from node "@ + decimal(from.0 as nat)
            + " to node "@ + decimal(to.0 as nat) + after@,
{
    let mut m = String::from_str(before);
    push_decimal(&mut m, position as u64);
    m.append(" from node ");
    push_decimal(&mut m, from.0);
    m.append(" to node ");
    push_decimal(&mut m, to.0);
    m.append(after);
    m
}

/// What becomes of a recommended move.
pub enum DriveStep {
    /// The recommendation is stale.
    Stale,
    /// A node has no endpoint; the notice and its error are reported.
    NoEndpoint { detail: String, error: String },
    /// The move runs between these endpoints.
    Run { source: String, target: String },
}

/// What becomes of a recommended move: it runs where the node still owns the position and both
/// nodes have an endpoint.
pub fn drive_handoff(snapshot: &LoadSnapshot, position: u32, from: NodeId, to: NodeId) -> (r:
    DriveStep)
    ensures
        match r {
            DriveStep::Stale => !owns(snapshot@, position, from),
            DriveStep::NoEndpoint { detail, error } => {
                &&& owns(snapshot@, position, from)
                &&& address_in(snapshot@.nodes, from) is None || address_in(
                    snapshot@.nodes,
                    to,
                ) is None
                &&& detail@ == no_endpoint_text(position, from, to)
                &&& error@ == "missing node endpoint for an autoscaled handoff"@
            },
            DriveStep::Run { source, target } => {
                &&& owns(snapshot@, position, from)
                &&& address_in(snapshot@.nodes, from) == Some(source@)
                &&& address_in(snapshot@.nodes, to) == Some(target@)
            },
        },
{
    let ghost all = snapshot@.assignments;
    let n: usize = snapshot.assignments.len();
    let mut owned = false;
    let mut i: usize = 0;
    while i < n
        invariant
            n == snapshot.assignments@.len(),
            all == snapshot@.assignments,
            i <= n,
            owned <==> exists|k: int|
                0 <= k < i && (#[trigger] all[k]).position == position && all[k].primary == from,
        decreases n - i,
    {
        assert(all[i as int] == snapshot.assignments@[i as int]@);
        let a = &snapshot.assignments[i];
        if a.position == position && a.primary.0 == from.0 {
            owned = true;
        }
        i = i + 1;
    }
    if !owned {
        return DriveStep::Stale;
    }
    let source = addr_in(&snapshot.nodes, from);
    let target = addr_in(&snapshot.nodes, to);
    match (source, target) {
        (Some(source), Some(target)) => DriveStep::Run { source, target },
        _ => DriveStep::NoEndpoint {
            detail: move_text(
                "autoscaler recommended moving shard ",
                position,
                from,
                to,
                ", but a node has no registered endpoint; skipping (the decision still reports it)",
            ),
            error: String::from_str("missing node endpoint for an autoscaled handoff"),
        },
    }
}

/// The notice that a recommended move failed.
pub fn failed_move_detail(position: u32, from: NodeId, to: NodeId) -> (r: String)
    ensures
        r@ == failed_move_text(position, from, to),
{
    move_text(
        "autoscaler-driven handoff of shard ",
        position,
        from,
        to,
        " failed; the source auto-unfenced and routing is unchanged (retried next tick)",
    )
}

/// A policy that is off carries nothing out.
pub proof fn law_policy_that_is_off_does_nothing(
    s: SnapshotView,
    config: AutoscaleConfig,
    skewed: Option<(Seq<char>, Seq<char>)>,
)
    requires
        !config.enabled,
    ensures
        rebalances(policy(s, config, skewed).actions) == Seq::<usize>::empty(),
        handoffs(policy(s, config, skewed).actions) == Seq::<(u32, NodeId, NodeId)>::empty(),
{
}

/// What is carried out of a decision is what it holds: every rebalance with its factor, every move
/// with its position and its nodes, and nothing else, each as often.
pub proof fn law_a_round_carries_out_the_decision(
    actions: Seq<ActionView>,
    rf: usize,
    position: u32,
    from: NodeId,
    to: NodeId,
)
    ensures
        rebalances(actions).contains(rf) <==> actions.contains(ActionView::Rebalance { rf }),
        handoffs(actions).contains((position, from, to)) <==> actions.contains(
            ActionView::Handoff { position, from, to },
        ),
        rebalances(actions).len() == actions.filter(|a: ActionView| a is Rebalance).len(),
        handoffs(actions).len() == actions.filter(|a: ActionView| a is Handoff).len(),
    decreases actions.len(),
{
    reveal(Seq::filter);
    if actions.len() > 0 {
        let d = actions.drop_last();
        law_a_round_carries_out_the_decision(d, rf, position, from, to);
        let a = ActionView::Rebalance { rf };
        let h = ActionView::Handoff { position, from, to };
        assert(actions =~= d.push(actions.last()));
        lemma_contains_push(d, actions.last(), a);
        lemma_contains_push(d, actions.last(), h);
        match actions.last() {
            ActionView::Rebalance { rf: x } => {
                lemma_contains_push(rebalances(d), x, rf);
            },
            ActionView::Handoff { position: p, from: f, to: t } => {
                lemma_contains_push(handoffs(d), (p, f, t), (position, from, to));
            },
            _ => {},
        }
    }
}

proof fn lemma_contains_push<A>(s: Seq<A>, x: A, y: A)
    ensures
        s.push(x).contains(y) <==> s.contains(y) || x == y,
{
    let p = s.push(x);
    if s.contains(y) {
        let i = choose|i: int| 0 <= i < s.len() && s[i] == y;
        assert(p[i] == y);
    }
    assert(p[s.len() as int] == x);
    if p.contains(y) && x != y {
        let i = choose|i: int| 0 <= i < p.len() && p[i] == y;
        assert(s[i] == y);
    }
}

/// A configuration has no problem exactly where it asks for at least one copy and its load ratio is
/// not negative.
pub proof fn law_what_a_configuration_needs(c: AutoscaleConfig, negative_skew: bool)
    ensures
        config_problems(c, negative_skew).len() == 0 <==> c.target_replication_factor >= 1
            && !negative_skew,
        config_problems(c, negative_skew).len() <= 2,
        c.target_replication_factor == 0 && negative_skew <==> config_problems(
            c,
            negative_skew,
        ).len() == 2,
{
}

/// A recommendation is still good exactly where some assignment gives the position to the node as
/// its primary.
pub proof fn law_when_a_recommendation_is_stale(s: SnapshotView, position: u32, from: NodeId, i: int)
    ensures
        0 <= i < s.assignments.len() && s.assignments[i].position == position
            && s.assignments[i].primary == from ==> owns(s, position, from),
        (forall|k: int|
            0 <= k < s.assignments.len() ==> (#[trigger] s.assignments[k]).position != position
                || s.assignments[k].primary != from) ==> !owns(s, position, from),
{
}

} // verus!
