use reverse_cluster::autoscale::{
    load_summary, recommended_shard_count, AutoscaleConfig, AutoscaleDecision, LoadSnapshot,
    ScalingAction, Skewed,
};
use reverse_cluster::control::{NodeDescriptor, NodeId, NodeRole, ShardAssignment};

fn node(id: u64) -> NodeDescriptor {
    NodeDescriptor {
        id: NodeId(id),
        addr: None,
        role: NodeRole::Data,
    }
}

fn assign(position: u32, primary: u64, replicas: &[u64]) -> ShardAssignment {
    ShardAssignment {
        position,
        primary: NodeId(primary),
        replicas: replicas.iter().map(|&r| NodeId(r)).collect(),
    }
}

/// A configuration with the load ratio, which the caller of the policy compares.
#[derive(Clone, Copy)]
struct Config {
    policy: AutoscaleConfig,
    max_node_load_skew: f64,
}

impl Config {
    fn default() -> Self {
        Config {
            policy: AutoscaleConfig::default(),
            max_node_load_skew: 0.0,
        }
    }

    fn validate(&self) -> Vec<String> {
        self.policy.validate(self.max_node_load_skew < 0.0)
    }
}

/// Whether the hottest node exceeds its share, and the figures that are shown for it.
fn skewed(snap: &LoadSnapshot, max_skew: f64) -> Option<Skewed> {
    if max_skew <= 1.0 {
        return None;
    }
    let s = load_summary(snap)?;
    let mean = s.total as f64 / s.nodes as f64;
    if s.hot_load as f64 <= max_skew * mean {
        return None;
    }
    Some(Skewed {
        ratio: format!("{:.2}", max_skew),
        mean: format!("{:.0}", mean),
    })
}

fn evaluate(snap: &LoadSnapshot, cfg: &Config) -> AutoscaleDecision {
    reverse_cluster::autoscale::evaluate(snap, &cfg.policy, &skewed(snap, cfg.max_node_load_skew))
}

/// A snapshot whose membership matches its assignments exactly (no drift), so only the
/// skew/split rules can fire.
fn balanced_snapshot() -> LoadSnapshot {
    LoadSnapshot {
        nodes: vec![node(0), node(1)],
        assignments: vec![assign(0, 0, &[1]), assign(1, 1, &[0])],
        shard_corpus: vec![100, 100],
        num_shards: 2,
        replication_factor: 2,
        replicated_corpus: 0,
    }
}

fn enabled() -> Config {
    Config {
        policy: AutoscaleConfig {
            enabled: true,
            target_replication_factor: 2,
            split_corpus_threshold: 0,
        },
        max_node_load_skew: 0.0,
    }
}

fn with_threshold(threshold: usize) -> Config {
    let mut c = enabled();
    c.policy.split_corpus_threshold = threshold;
    c
}

fn has_rebalance(d: &AutoscaleDecision) -> bool {
    d.actions
        .iter()
        .any(|a| matches!(a, ScalingAction::Rebalance { .. }))
}

#[test]
fn disabled_config_yields_an_empty_decision() {
    let snap = LoadSnapshot {
        nodes: vec![node(0), node(1), node(2)],
        assignments: vec![assign(0, 0, &[])],
        shard_corpus: vec![100],
        num_shards: 1,
        replication_factor: 1,
        replicated_corpus: 0,
    };
    let d = evaluate(&snap, &Config::default());
    assert!(d.actions.is_empty(), "disabled ⇒ no actions: {d:?}");
}

#[test]
fn membership_growth_triggers_rebalance() {
    // 3 nodes registered, but the map still references only node 0 (a fresh join).
    let snap = LoadSnapshot {
        nodes: vec![node(0), node(1), node(2)],
        assignments: vec![assign(0, 0, &[]), assign(1, 0, &[])],
        shard_corpus: vec![50, 50],
        num_shards: 2,
        replication_factor: 1,
        replicated_corpus: 0,
    };
    let d = evaluate(&snap, &enabled());
    assert!(has_rebalance(&d), "a join must trigger a rebalance: {d:?}");
    assert!(!d.rationale.is_empty());
}

#[test]
fn membership_shrink_triggers_rebalance() {
    // Only node 0 is registered, but the map still references a departed node 1.
    let snap = LoadSnapshot {
        nodes: vec![node(0)],
        assignments: vec![assign(0, 0, &[1]), assign(1, 1, &[0])],
        shard_corpus: vec![50, 50],
        num_shards: 2,
        replication_factor: 1,
        replicated_corpus: 0,
    };
    let d = evaluate(&snap, &enabled());
    assert!(
        has_rebalance(&d),
        "a stale departed node must trigger a rebalance: {d:?}"
    );
}

#[test]
fn balanced_membership_is_a_noop() {
    let d = evaluate(&balanced_snapshot(), &enabled());
    assert!(d.actions.is_empty(), "no drift, no skew, no split: {d:?}");
}

#[test]
fn node_skew_recommends_a_handoff() {
    // node 0 owns two big primaries (pos 0,1); node 1 owns one tiny primary (pos 2). No
    // membership drift (both nodes are placed), so only the skew rule can fire.
    let snap = LoadSnapshot {
        nodes: vec![node(0), node(1)],
        assignments: vec![assign(0, 0, &[]), assign(1, 0, &[]), assign(2, 1, &[])],
        shard_corpus: vec![100, 100, 10],
        num_shards: 3,
        replication_factor: 1,
        replicated_corpus: 0,
    };
    let cfg = Config {
        max_node_load_skew: 1.5,
        ..enabled()
    };
    let d = evaluate(&snap, &cfg);
    assert!(
        !has_rebalance(&d),
        "membership matches, no rebalance: {d:?}"
    );
    let handoff = d.actions.iter().find_map(|a| match a {
        ScalingAction::Handoff { position, from, to } => Some((*position, *from, *to)),
        _ => None,
    });
    assert_eq!(
        handoff,
        Some((0, NodeId(0), NodeId(1))),
        "move node 0's largest (lowest-position) primary to node 1: {d:?}"
    );
}

#[test]
fn corpus_over_threshold_recommends_split() {
    let mut snap = balanced_snapshot();
    snap.shard_corpus = vec![100, 5000];
    let cfg = with_threshold(1000);
    let d = evaluate(&snap, &cfg);
    let split = d.actions.iter().find_map(|a| match a {
        ScalingAction::RecommendSplit { position, corpus } => Some((*position, *corpus)),
        _ => None,
    });
    assert_eq!(split, Some((1, 5000)), "shard 1 over threshold: {d:?}");
}

#[test]
fn split_on_a_single_node_also_recommends_scale_out() {
    let snap = LoadSnapshot {
        nodes: vec![node(0)],
        assignments: vec![assign(0, 0, &[])],
        shard_corpus: vec![9000],
        num_shards: 1,
        replication_factor: 1,
        replicated_corpus: 0,
    };
    let cfg = with_threshold(1000);
    let d = evaluate(&snap, &cfg);
    assert!(
        d.actions
            .iter()
            .any(|a| matches!(a, ScalingAction::RecommendSplit { .. })),
        "split recommended: {d:?}"
    );
    assert!(
        d.actions
            .iter()
            .any(|a| matches!(a, ScalingAction::RecommendScaleOut { .. })),
        "single node + a split ⇒ scale-out hint: {d:?}"
    );
}

#[test]
fn evaluate_is_deterministic() {
    let snap = LoadSnapshot {
        nodes: vec![node(0), node(1), node(2)],
        assignments: vec![assign(0, 0, &[]), assign(1, 0, &[]), assign(2, 1, &[])],
        shard_corpus: vec![100, 100, 10],
        num_shards: 3,
        replication_factor: 1,
        replicated_corpus: 0,
    };
    let cfg = Config {
        max_node_load_skew: 1.2,
        ..with_threshold(50)
    };
    assert_eq!(
        evaluate(&snap, &cfg),
        evaluate(&snap, &cfg),
        "same inputs ⇒ identical decision"
    );
}

#[test]
fn invalid_config_is_reported() {
    let mut bad = Config::default();
    bad.policy.target_replication_factor = 0;
    bad.max_node_load_skew = -1.0;
    assert_eq!(bad.validate().len(), 2, "both invariants flagged");
    assert!(Config::default().validate().is_empty());
}
#[test]
fn rationale_shows_the_figures() {
    let snap = LoadSnapshot {
        nodes: vec![node(0), node(1)],
        assignments: vec![assign(0, 0, &[]), assign(1, 0, &[]), assign(2, 1, &[])],
        shard_corpus: vec![100, 100, 10],
        num_shards: 3,
        replication_factor: 1,
        replicated_corpus: 0,
    };
    let s = load_summary(&snap).unwrap();
    assert_eq!((s.hot, s.hot_load, s.cold, s.total, s.nodes), (0, 200, 1, 210, 2));
    let cfg = Config {
        max_node_load_skew: 1.5,
        ..enabled()
    };
    let d = evaluate(&snap, &cfg);
    assert_eq!(d.actions.len(), d.rationale.len());
    assert!(d.rationale[0].contains("1.50"), "{d:?}");
    assert!(d.rationale[0].contains("105"), "{d:?}");
}

#[test]
fn only_a_rebalance_is_executed() {
    assert!(ScalingAction::Rebalance { rf: 1 }.is_executable());
    assert!(!ScalingAction::RecommendSplit { position: 0, corpus: 9 }.is_executable());
    assert!(!ScalingAction::Handoff { position: 0, from: NodeId(0), to: NodeId(1) }.is_executable());
    assert!(!ScalingAction::RecommendScaleOut { reason: String::new() }.is_executable());
}

#[test]
fn recommended_count_adds_one_shard_per_crowded_one() {
    let above = |split_corpus_threshold| AutoscaleConfig {
        split_corpus_threshold,
        ..AutoscaleConfig::default()
    };
    let mut snap = balanced_snapshot();
    snap.shard_corpus = vec![1500, 5000];
    assert_eq!(recommended_shard_count(&snap, &above(1000)), Some(4));
    assert_eq!(recommended_shard_count(&snap, &above(0)), None);
    assert_eq!(recommended_shard_count(&snap, &above(5000)), None);
    // What is on every shard is no reason to split.
    snap.replicated_corpus = 1000;
    assert_eq!(recommended_shard_count(&snap, &above(1000)), Some(3));
}
