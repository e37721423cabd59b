use reverse_cluster::coordinator::pit::{
    check_pit, pit_read_error, ClusterPitError, ClusterPitMeta, PitCall, PitCheck, PitOpen,
    PitReply,
};
use reverse_cluster::coordinator::ranked::{
    check_deadline, merge_ranked, merge_title_rows, validate_options, validate_part,
    ClusterRankedError, ClusterRankedHit, ClusterRankedMatch, TitlePart,
};
use reverse_cluster::coordinator::ranked_batch::{
    merge_batch, plan_batch_fetch, plan_calls, validate_batch, SourceBudget, TitleRoute,
};
use reverse_cluster::coordinator::ranked_fetch::{
    assemble_sources, check_group, check_placement, plan_fetch,
};
use reverse_cluster::ownership::PlacementGeneration;
use reverse_cluster::rank::{
    compile_rank_program, FetchedMatch, MatchStats, QueryScope, RankLimits, RankProgramError, RankStats, RankedHit,
    ShardBatchRankedMatch,
    ShardRankedMatch, ShardTitleResult, TopKAdmissionError, TopKOptions, TotalHits,
    TotalHitsRelation,
};
use reverse_cluster::shard::ShardError;

const LIMITS: RankLimits = RankLimits {
    max_top_k: 100,
    max_track_total_hits: 1000,
    max_batch_titles: 4,
    max_batch_rows: 20,
};

const GENERATION: PlacementGeneration = PlacementGeneration(3);

fn options(size: usize) -> TopKOptions {
    TopKOptions {
        size,
        track_total_hits_up_to: 10,
        query_scope: QueryScope::WithBroad,
    }
}

fn hit(logical_id: u64, score: i64) -> RankedHit {
    RankedHit { logical_id, score }
}

fn exact(value: u64) -> TotalHits {
    TotalHits {
        value,
        relation: TotalHitsRelation::Eq,
    }
}

fn reply(hits: &[RankedHit]) -> ShardRankedMatch {
    ShardRankedMatch {
        hits: hits.to_vec(),
        total_hits: exact(hits.len() as u64),
        stats: MatchStats {
            matches: hits.len() as u32,
        },
        rank_stats: RankStats {
            evaluations: 1,
            heap_replacements: 0,
        },
        result_bytes: 16,
    }
}

#[test]
fn limits_are_checked() {
    assert!(validate_options(options(100), LIMITS).is_ok());
    assert_eq!(
        validate_options(options(101), LIMITS),
        Err(TopKAdmissionError::SizeTooLarge {
            requested: 101,
            max: 100
        })
    );
    let mut o = options(1);
    o.track_total_hits_up_to = 1001;
    assert!(matches!(
        validate_options(o, LIMITS),
        Err(TopKAdmissionError::TotalHitsThresholdTooLarge { .. })
    ));
    assert!(validate_batch(options(5), 4, LIMITS).is_ok());
    assert!(matches!(
        validate_batch(options(5), 5, LIMITS),
        Err(TopKAdmissionError::BatchTitlesTooLarge { .. })
    ));
    assert!(matches!(
        validate_batch(options(6), 4, LIMITS),
        Err(TopKAdmissionError::BatchHeapBudgetExceeded {
            requested_rows: 24,
            max: 20
        })
    ));
    assert!(check_deadline(false).is_ok());
    assert!(matches!(
        check_deadline(true),
        Err(ClusterRankedError::DeadlineExceeded)
    ));
}

#[test]
fn the_local_bests_give_the_global_best() {
    let m = merge_ranked(
        options(3),
        vec![
            (0, reply(&[hit(4, 90), hit(2, 50), hit(9, 50)])),
            (2, reply(&[hit(7, 90), hit(1, 60)])),
        ],
        GENERATION,
        4,
    )
    .unwrap();
    let ids: Vec<(u64, i64, u32)> = m
        .hits
        .iter()
        .map(|h| (h.logical_id, h.score, h.owner_position))
        .collect();
    assert_eq!(ids, vec![(4, 90, 0), (7, 90, 2), (1, 60, 2)]);
    assert_eq!(m.total_hits, exact(5));
    assert_eq!((m.routed_shards, m.shard_rows_received), (2, 5));
    assert_eq!(m.shard_result_bytes, 32);
    assert_eq!(m.rank_stats.evaluations, 2);
}

#[test]
fn a_shard_that_breaks_the_protocol_is_named() {
    assert!(matches!(
        merge_ranked(
            options(1),
            vec![(3, reply(&[hit(1, 2), hit(2, 1)]))],
            GENERATION,
            4
        ),
        Err(ClusterRankedError::InvalidShardReply { position: 3, detail })
            if detail == "returned 2 rows for requested K=1"
    ));
    assert!(matches!(
        validate_part(1, 5, &vec![hit(2, 5), hit(1, 5)]),
        Err(ClusterRankedError::InvalidShardReply { .. })
    ));
    assert!(matches!(
        merge_ranked(
            options(5),
            vec![(0, reply(&[hit(1, 2)])), (1, reply(&[hit(1, 2)]))],
            GENERATION,
            4
        ),
        Err(ClusterRankedError::DuplicateLogicalId(1))
    ));
}

#[test]
fn totals_stop_at_the_threshold() {
    let part = |n: u64, relation| TitlePart {
        position: 0,
        hits: vec![],
        total: TotalHits { value: n, relation },
    };
    let merged = |parts: Vec<TitlePart>| merge_title_rows(5, 10, &parts).unwrap().1;
    assert_eq!(
        merged(vec![part(4, TotalHitsRelation::Eq), part(6, TotalHitsRelation::Eq)]),
        exact(10)
    );
    let over = TotalHits {
        value: 10,
        relation: TotalHitsRelation::Gte,
    };
    assert_eq!(
        merged(vec![part(5, TotalHitsRelation::Eq), part(6, TotalHitsRelation::Eq)]),
        over
    );
    assert_eq!(merged(vec![part(1, TotalHitsRelation::Gte)]), over);
}

fn ranked() -> ClusterRankedMatch {
    let hit = |logical_id, owner_position| ClusterRankedHit {
        logical_id,
        score: 0,
        owner_position,
    };
    ClusterRankedMatch {
        hits: vec![hit(10, 2), hit(11, 0), hit(12, 2)],
        total_hits: exact(3),
        stats: MatchStats { matches: 3 },
        rank_stats: RankStats {
            evaluations: 0,
            heap_replacements: 0,
        },
        routed_shards: 2,
        shard_rows_received: 3,
        shard_result_bytes: 0,
        placement_generation: GENERATION,
        num_shards: 4,
    }
}

fn fetched(logical_id: u64) -> FetchedMatch {
    FetchedMatch {
        logical_id,
        source: format!("q{logical_id}"),
    }
}

#[test]
fn sources_come_back_in_the_order_of_the_hits() {
    let r = ranked();
    let groups = plan_fetch(&r, GENERATION, 4).unwrap();
    let shown: Vec<(usize, Vec<(usize, u64)>)> = groups
        .iter()
        .map(|g| (g.position, g.rows.clone()))
        .collect();
    assert_eq!(shown, vec![(0, vec![(1, 11)]), (2, vec![(0, 10), (2, 12)])]);
    let replies = vec![vec![fetched(11)], vec![fetched(10), fetched(12)]];
    assert_eq!(
        assemble_sources(&r.hits, &groups, replies).unwrap(),
        vec!["q10", "q11", "q12"]
    );
    assert!(check_group(&groups[0], &vec![fetched(12)]).is_err());
    assert!(check_placement(GENERATION, 4, PlacementGeneration(4), 4).is_err());
    assert!(plan_fetch(&r, GENERATION, 5).is_err());
}

#[test]
fn a_batch_asks_each_shard_once() {
    let routes = vec![
        TitleRoute {
            targets: vec![0, 2],
            broad: Some(2),
        },
        TitleRoute {
            targets: vec![2],
            broad: None,
        },
    ];
    let calls = plan_calls(&routes, 4);
    let shown: Vec<(u32, Vec<usize>, bool)> = calls
        .iter()
        .map(|c| (c.position, c.titles.clone(), c.broad))
        .collect();
    assert_eq!(shown, vec![(0, vec![0], false), (2, vec![0, 1], true)]);
    let title = |hits: &[RankedHit]| ShardTitleResult {
        hits: hits.to_vec(),
        total_hits: exact(hits.len() as u64),
        rank_stats: RankStats {
            evaluations: 1,
            heap_replacements: 0,
        },
    };
    let replies: Vec<ShardBatchRankedMatch> = calls
        .iter()
        .map(|c| ShardBatchRankedMatch {
            titles: c
                .titles
                .iter()
                .map(|&t| title(&[hit(c.position as u64 * 10 + t as u64, 1)]))
                .collect(),
            stats: MatchStats { matches: 1 },
            result_bytes: 8,
        })
        .collect();
    let m = merge_batch(options(5), &vec![2, 1], &calls, replies, GENERATION, 4).unwrap();
    let ids = |t: usize| -> Vec<u64> { m.titles[t].hits.iter().map(|h| h.logical_id).collect() };
    assert_eq!(ids(0), vec![0, 20]);
    assert_eq!(ids(1), vec![21]);
    assert_eq!(m.fanned_shard_calls, 2);
    assert_eq!(m.shard_result_bytes, 16);
    let groups = plan_batch_fetch(&m, GENERATION, 4).unwrap();
    let wanted: Vec<(usize, Vec<u64>)> =
        groups.iter().map(|g| (g.position, g.ids.clone())).collect();
    assert_eq!(wanted, vec![(0, vec![0]), (2, vec![20, 21])]);
    let mut budget = SourceBudget::new(100);
    for g in &groups {
        budget = budget
            .take(g, g.ids.iter().map(|&i| fetched(i)).collect())
            .unwrap();
    }
    assert_eq!(
        budget.deliver(&m.titles).unwrap(),
        vec![
            vec!["q0".to_string(), "q20".to_string()],
            vec!["q21".to_string()]
        ]
    );
    let small = SourceBudget::new(3)
        .take(&groups[0], vec![fetched(0)])
        .unwrap();
    assert_eq!(small.remaining, 1);
    assert!(matches!(
        small.take(&groups[1], vec![fetched(20), fetched(21)]),
        Err(ClusterRankedError::EnrichmentLimit { limit: 3 })
    ));
}

#[test]
fn shard_errors_keep_their_kind() {
    assert!(matches!(
        ClusterRankedError::from_shard(ShardError::DeadlineExceeded),
        ClusterRankedError::DeadlineExceeded
    ));
    assert!(matches!(
        ClusterRankedError::from_shard(ShardError::Log("x".to_string())),
        ClusterRankedError::Shard(_)
    ));
    let refusal = TopKAdmissionError::SizeTooLarge {
        requested: 9,
        max: 3,
    };
    assert!(matches!(
        ClusterRankedError::from_shard(ShardError::Admission(refusal)),
        ClusterRankedError::Admission(e) if e == refusal
    ));
    // Outside a fetch with a budget a shard's limit stays a shard error.
    assert!(matches!(
        ClusterRankedError::from_shard(ShardError::EnrichmentLimit { limit: 4 }),
        ClusterRankedError::Shard(ShardError::EnrichmentLimit { limit: 4 })
    ));
    let budget = SourceBudget::new(64);
    assert!(matches!(
        budget.fetch_failed(ShardError::EnrichmentLimit { limit: 4 }),
        ClusterRankedError::EnrichmentLimit { limit: 64 }
    ));
    assert!(matches!(
        budget.fetch_failed(ShardError::DeadlineExceeded),
        ClusterRankedError::DeadlineExceeded
    ));
    assert!(matches!(
        ClusterRankedError::from_ownership("stale".to_string()),
        ClusterRankedError::Shard(ShardError::OwnershipMismatch(m)) if m == "stale"
    ));
}

#[test]
fn a_batch_answers_like_single_requests() {
    // Position 0 answers both titles, positions 1 and 2 one each.
    let answers = |title: usize, position: u32| -> Vec<RankedHit> {
        match (title, position) {
            (0, 0) => vec![hit(1, 9), hit(4, 2)],
            (0, 1) => vec![hit(2, 9)],
            (1, 0) => vec![hit(1, 5)],
            _ => vec![hit(8, 7), hit(9, 6)],
        }
    };
    let routes = vec![
        TitleRoute {
            targets: vec![0, 1],
            broad: None,
        },
        TitleRoute {
            targets: vec![0, 2],
            broad: None,
        },
    ];
    let calls = plan_calls(&routes, 3);
    let replies: Vec<ShardBatchRankedMatch> = calls
        .iter()
        .map(|c| ShardBatchRankedMatch {
            titles: c
                .titles
                .iter()
                .map(|&t| {
                    let hits = answers(t, c.position);
                    ShardTitleResult {
                        total_hits: exact(hits.len() as u64),
                        hits,
                        rank_stats: RankStats::zero(),
                    }
                })
                .collect(),
            stats: MatchStats::zero(),
            result_bytes: 0,
        })
        .collect();
    let batch = merge_batch(
        options(2),
        &vec![2, 2],
        &calls,
        replies,
        PlacementGeneration(1),
        3,
    )
    .unwrap();
    assert_eq!(batch.titles.len(), 2);
    for (t, route) in routes.iter().enumerate() {
        let single = route
            .targets
            .iter()
            .map(|&p| (p, reply(&answers(t, p))))
            .collect();
        let one = merge_ranked(options(2), single, PlacementGeneration(1), 3).unwrap();
        assert_eq!(batch.titles[t].hits, one.hits);
        assert_eq!(batch.titles[t].total_hits, one.total_hits);
    }
}

fn open_pit(shards: usize, refuse_at: Option<usize>) -> (Vec<PitCall>, Result<u64, ClusterPitError>) {
    let mut s = PitOpen::new();
    let mut calls = Vec::new();
    while let Some(call) = s.call() {
        calls.push(call);
        let reply = match call {
            PitCall::Register => PitReply::Registered(8),
            PitCall::Pin { shard, .. } if refuse_at == Some(shard) => {
                PitReply::Refused("cannot pin".to_string())
            }
            _ => PitReply::Done,
        };
        s = s.next(reply, shards);
    }
    (calls, s.outcome().unwrap())
}

#[test]
fn a_point_in_time_pins_every_shard_or_none() {
    let (calls, out) = open_pit(3, None);
    assert_eq!(calls.len(), 4);
    assert!(matches!(out, Ok(8)));
    let (calls, out) = open_pit(3, Some(2));
    assert_eq!(
        calls[3..].to_vec(),
        vec![
            PitCall::Pin { pit: 8, shard: 2 },
            PitCall::Unpin { pit: 8, shard: 0 },
            PitCall::Unpin { pit: 8, shard: 1 },
            PitCall::Forget { pit: 8 }
        ]
    );
    let e = out.unwrap_err();
    assert_eq!(e.message(), "cannot pin");
    assert!(matches!(e, ClusterPitError::Unsupported(_)));
    let refused = PitOpen::new().next(PitReply::Refused("too many".to_string()), 3);
    assert!(matches!(
        refused.outcome(),
        Some(Err(ClusterPitError::Admission(_)))
    ));
}

#[test]
fn a_point_in_time_ends_with_its_placement() {
    let meta = ClusterPitMeta {
        generation: GENERATION,
        num_shards: 4,
    };
    assert_eq!(check_pit(Some(meta), GENERATION, 4), PitCheck::Valid);
    assert_eq!(check_pit(Some(meta), GENERATION, 5), PitCheck::Replaced);
    assert_eq!(
        check_pit(Some(meta), PlacementGeneration(4), 4),
        PitCheck::Replaced
    );
    assert_eq!(check_pit(None, GENERATION, 4), PitCheck::Gone);
    assert!(pit_read_error(PitCheck::Valid).is_none());
    assert!(matches!(
        pit_read_error(PitCheck::Gone),
        Some(ClusterRankedError::StalePit)
    ));
}

#[test]
fn queries_are_ranked_by_priority_alone() {
    let boosts = vec![(4, 10)];
    assert!(!compile_rank_program(&None, boosts.clone()).unwrap().use_priority);
    let p = compile_rank_program(&Some("priority".to_string()), boosts.clone()).unwrap();
    assert!(p.use_priority);
    assert_eq!(p.boosts, boosts);
    assert_eq!(
        compile_rank_program(&Some("age".to_string()), boosts),
        Err(RankProgramError::UnsupportedField("age".to_string()))
    );
}
