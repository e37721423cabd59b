use reverse_cluster::coordinator::buckets::bucket_by_target;
use reverse_cluster::coordinator::exhaustive::{
    barrier_wait, check_barrier, check_chunk_size, ensure_exhaustive_converged, Convergence, DeliveryChecksum,
    ExhaustiveJob, ExhaustiveSummary, MatchChunk, Member, ResequencingSink,
};
use reverse_cluster::coordinator::exhaustive_run::{
    ExhaustiveCall, ExhaustiveEvent, ExhaustiveRun,
};
use reverse_cluster::coordinator::fan_out::{collect_replies, percolated, probes};
use reverse_cluster::coordinator::matching::{
    check_column_limit, check_tag_limit, class_totals, first_source, merge_matches, merge_scored, placement_of, route,
    total_queries, AddOutcome, AnchorPlan, CostClass, QueryRefusal, Scored, Target, TitleFeature,
};
use reverse_cluster::ownership::PlacementGeneration;
use reverse_cluster::rank::MatchStats;
use reverse_cluster::shard::ShardError;

fn feature(owner: usize, hot: bool) -> TitleFeature {
    TitleFeature { owner, hot }
}

#[test]
fn a_title_goes_to_the_owners_of_its_rare_features() {
    let features = vec![feature(5, false), feature(1, true), feature(2, false), feature(5, false)];
    let (targets, broad) = route("nike shoe", &features, 8);
    assert_eq!(targets, vec![2, 5]);
    assert_eq!(broad, 5, "the hash of the title picks among the targets");
    let (targets, broad) = route("sony tv", &vec![feature(1, true)], 8);
    assert_eq!((targets, broad), (vec![4], 4));
}

#[test]
fn a_query_goes_to_the_owners_of_its_anchors() {
    let plan = |class, anchors: &[&[usize]]| AnchorPlan {
        class,
        anchors: anchors.iter().map(|a| a.to_vec()).collect(),
        forbids: false,
    };
    assert_eq!(placement_of(&plan(CostClass::D, &[&[1]]), false), Target::Reject);
    assert_eq!(placement_of(&plan(CostClass::C, &[&[1]]), false), Target::Replicated);
    assert_eq!(
        placement_of(&plan(CostClass::A, &[&[3]]), false),
        Target::Selective(vec![3])
    );
    assert_eq!(
        placement_of(&plan(CostClass::B, &[&[3], &[1], &[3]]), false),
        Target::Selective(vec![1, 3])
    );
    assert_eq!(
        placement_of(&plan(CostClass::B, &[&[3, 1]]), false),
        Target::Replicated,
        "a pair has no one owner"
    );
    assert_eq!(placement_of(&plan(CostClass::A, &[]), false), Target::Reject);
}

#[test]
fn a_stored_query_without_an_anchor_survives_a_rebuild() {
    let mut plan = AnchorPlan {
        class: CostClass::D,
        anchors: Vec::new(),
        forbids: true,
    };
    assert_eq!(placement_of(&plan, false), Target::Reject);
    assert_eq!(placement_of(&plan, true), Target::Replicated);
    plan.forbids = false;
    assert_eq!(placement_of(&plan, true), Target::Reject, "an empty query does not come back");
    plan.class = CostClass::A;
    plan.anchors = vec![vec![2]];
    assert_eq!(placement_of(&plan, true), placement_of(&plan, false));
}

#[test]
fn a_match_is_on_a_shard_that_is_asked() {
    let plan = |class, anchors: &[&[usize]]| AnchorPlan {
        class,
        anchors: anchors.iter().map(|a| a.to_vec()).collect(),
        forbids: false,
    };
    let load = vec![
        Some(placement_of(&plan(CostClass::A, &[&[5]]), false)),
        Some(placement_of(&plan(CostClass::B, &[&[1], &[6]]), false)),
        Some(placement_of(&plan(CostClass::C, &[]), false)),
        Some(placement_of(&plan(CostClass::A, &[&[3]]), false)),
    ];
    let buckets = bucket_by_target(&load, 8);
    // The title has the anchor of the first query and one of the second.
    let features = vec![feature(5, false), feature(6, false), feature(3, true)];
    let (targets, broad) = route("nike shoe", &features, 8);
    let asks = probes(&targets, broad, true);
    let reached = |q: usize| asks.iter().any(|(s, _)| buckets[*s].contains(&q));
    assert!(reached(0) && reached(1) && reached(2));
    assert!(!reached(3));
    assert_eq!(asks.iter().filter(|(_, b)| *b).count(), 1);
    assert!(asks.iter().any(|(s, b)| *b && buckets[*s].contains(&2)));
    assert!(probes(&targets, broad, false).iter().all(|(_, b)| !b));
}

#[test]
fn a_shard_that_fails_is_not_left_out() {
    let stats = MatchStats { matches: 1 };
    let ok = |ids: &[u64]| Ok((ids.to_vec(), stats));
    assert_eq!(
        percolated(vec![ok(&[4, 2]), ok(&[2, 9])]).unwrap().0,
        vec![2, 4, 9]
    );
    assert!(matches!(
        percolated(vec![
            ok(&[4]),
            Err(ShardError::DeadlineExceeded),
            Err(ShardError::Log("later".to_string()))
        ]),
        Err(ShardError::DeadlineExceeded)
    ));
    assert_eq!(collect_replies::<u8, u8>(vec![Ok(1), Ok(2)]), Ok(vec![1, 2]));
    assert_eq!(collect_replies::<u8, u8>(vec![Ok(1), Err(7), Err(8)]), Err(7));
}

#[test]
fn what_became_of_an_added_query() {
    assert_eq!(
        AddOutcome::of(Ok(Target::Selective(vec![1]))),
        AddOutcome::Placed { shards: vec![1] }
    );
    assert_eq!(AddOutcome::of(Ok(Target::Replicated)), AddOutcome::Replicated);
    assert_eq!(AddOutcome::of(Ok(Target::Reject)), AddOutcome::RejectedClassD);
    assert_eq!(
        AddOutcome::of(Err("e".to_string())),
        AddOutcome::RejectedParse("e".to_string())
    );
    assert_eq!(check_tag_limit(3, 3), Ok(()));
    assert_eq!(check_tag_limit(4, 3), Err(QueryRefusal::TooManyTags));
    assert_eq!(check_column_limit(false), Ok(()));
    assert_eq!(
        check_column_limit(true),
        Err(QueryRefusal::CompiledColumnTooLarge)
    );
}

#[test]
fn answers_are_merged_without_repeats() {
    let part = |ids: &[u64]| (ids.to_vec(), MatchStats { matches: ids.len() as u32 });
    let (ids, stats) = merge_matches(&vec![part(&[3, 1]), part(&[2, 3])]);
    assert_eq!(ids, vec![1, 2, 3]);
    assert_eq!(stats.matches, 3);
    let row = |id, score| Scored { id, score };
    let (rows, _) = merge_scored(&vec![row(1, 5), row(2, 9), row(1, 5), row(3, 9)]);
    assert_eq!(rows, vec![row(1, 5), row(2, 9), row(3, 9)]);
    assert_eq!(total_queries(&vec![1, 2, 3]), 6);
    assert_eq!(
        class_totals(&vec![[1, 2, 3, 4], [10, 20, 30, 40]]),
        [11, 22, 33, 44]
    );
}

#[test]
fn the_first_shard_with_the_source_answers() {
    let some = |s: &str| Ok(Some(s.to_string()));
    assert!(matches!(first_source(vec![Ok(None), some("a"), some("b")]), Ok(Some(s)) if s == "a"));
    assert!(matches!(first_source(vec![Ok(None)]), Ok(None)));
    assert!(matches!(
        first_source(vec![Err(ShardError::DeadlineExceeded), Ok(None)]),
        Err(ShardError::DeadlineExceeded)
    ));
}

fn member(logical_id: u64) -> Member {
    Member {
        logical_id,
        score: 2,
    }
}

fn chunk(sequence: u64, ids: &[u64]) -> MatchChunk {
    MatchChunk {
        sequence,
        matches: ids.iter().map(|&i| member(i)).collect(),
    }
}

#[test]
fn the_checksum_ignores_order() {
    let mut a = DeliveryChecksum::empty();
    a.observe(member(1));
    assert_eq!(a.0, 8_581_494_755_304_202_342);
    a.observe(member(2));
    let mut b = DeliveryChecksum::empty();
    b.observe(member(2));
    b.observe(member(1));
    assert_eq!(a, b);
    let mut c = DeliveryChecksum::empty();
    c.merge(a);
    assert_eq!(c, a);
}

#[test]
fn a_stream_is_resequenced_and_checked() {
    let mut job = ExhaustiveJob::new();
    let mut sink = ResequencingSink::new(job.next_sequence, 2);
    let mut sum = DeliveryChecksum::empty();
    for (i, c) in [chunk(0, &[1, 2]), chunk(1, &[3])].iter().enumerate() {
        assert_eq!(sink.accept(c), Ok(i as u64));
        sink.delivered(c);
        for m in &c.matches {
            sum.observe(*m);
        }
    }
    let part = ExhaustiveSummary {
        exact_total: 3,
        chunk_count: 2,
        checksum: sum,
    };
    assert!(sink.validate(part).is_ok());
    job.finish_shard(&sink, part).unwrap();
    let mut second = ResequencingSink::new(job.next_sequence, 2);
    assert_eq!(second.accept(&chunk(0, &[9])), Ok(2));
    let m = job.finish(PlacementGeneration(4), 8);
    assert_eq!((m.summary.exact_total, m.summary.chunk_count), (3, 2));
    assert_eq!((m.routed_shards, m.num_shards), (1, 8));
    let before = job;
    assert!(job.finish_shard(&second, part).is_err());
    assert_eq!(job, before, "a refused part changes nothing");
    let wrong = ExhaustiveSummary {
        exact_total: 4,
        ..part
    };
    assert!(matches!(sink.validate(wrong), Err(ShardError::Protocol(m))
        if m.contains("disagrees with delivered chunks")));
}

#[test]
fn chunks_out_of_turn_are_refused() {
    let mut sink = ResequencingSink::new(0, 2);
    assert_eq!(
        sink.accept(&chunk(1, &[1])),
        Err("exhaustive shard chunk sequence 1 arrived where 0 was required".to_string())
    );
    let mut sink = ResequencingSink::new(0, 2);
    assert_eq!(
        sink.accept(&chunk(0, &[1, 2, 3])),
        Err("exhaustive shard chunk contains 3 members; required 1..=2".to_string())
    );
    let mut sink = ResequencingSink::new(0, 2);
    assert!(sink.accept(&chunk(0, &[])).is_err());
    let none = ExhaustiveSummary {
        exact_total: 0,
        chunk_count: 0,
        checksum: DeliveryChecksum::empty(),
    };
    assert!(sink.validate(none).is_err(), "the fault is remembered");
}

#[test]
fn exact_delivery_needs_a_converged_cluster() {
    let good = Convergence {
        movable: true,
        exclusive: true,
        authoritative: true,
        pending: 0,
    };
    assert!(ensure_exhaustive_converged(good).is_ok());
    for bad in [
        Convergence {
            exclusive: false,
            ..good
        },
        Convergence {
            authoritative: false,
            ..good
        },
        Convergence { pending: 2, ..good },
    ] {
        assert!(ensure_exhaustive_converged(bad).is_err(), "{bad:?}");
    }
    assert!(check_chunk_size(1, 10).is_ok());
    assert!(matches!(check_chunk_size(0, 10), Err(ShardError::Config(m))
        if m == "exhaustive chunk size 0 is outside 1..=10"));
    assert!(check_chunk_size(11, 10).is_err());
    assert_eq!(barrier_wait(None), Some(10_000_000));
    assert_eq!(barrier_wait(Some(60_000_000_000)), Some(10_000_000));
    assert_eq!(barrier_wait(Some(300_000)), Some(300_000));
    assert_eq!(barrier_wait(Some(0)), None);
    assert!(check_barrier(None, false).is_ok());
    assert!(matches!(
        check_barrier(None, true),
        Err(ShardError::DeadlineExceeded)
    ));
    assert!(
        matches!(check_barrier(Some("gone".to_string()), true), Err(ShardError::Protocol(m))
        if m == "exhaustive sink failed: gone")
    );
}

const CONVERGED: Convergence = Convergence {
    movable: false,
    exclusive: false,
    authoritative: true,
    pending: 0,
};

fn attested(convergence: Convergence, expired: bool) -> ExhaustiveEvent {
    ExhaustiveEvent::Attested {
        convergence,
        expired,
    }
}

/// Streams one chunk per match.
fn streamed(mut sink: ResequencingSink, ids: &[u64]) -> ExhaustiveEvent {
    let mut checksum = DeliveryChecksum::empty();
    for (i, id) in ids.iter().enumerate() {
        let c = chunk(i as u64, &[*id]);
        sink.accept(&c).unwrap();
        sink.delivered(&c);
        checksum.observe(member(*id));
    }
    let summary = ExhaustiveSummary {
        exact_total: ids.len() as u64,
        chunk_count: ids.len() as u64,
        checksum,
    };
    ExhaustiveEvent::Streamed { sink, summary }
}

fn routed(probes: &[(usize, bool)]) -> ExhaustiveEvent {
    ExhaustiveEvent::Routed {
        probes: probes.to_vec(),
        generation: PlacementGeneration(4),
        num_shards: 8,
    }
}

/// Drives a job over two shards; `attest` answers the attestations, one after the other.
fn delivered(attest: &mut dyn FnMut() -> ExhaustiveEvent) -> (Vec<usize>, ExhaustiveRun) {
    let mut asked = Vec::new();
    let mut run = ExhaustiveRun::new(2, 100).unwrap();
    while let Some(call) = run.call() {
        let event = match call {
            ExhaustiveCall::Hold => ExhaustiveEvent::Held,
            ExhaustiveCall::Attest => attest(),
            ExhaustiveCall::Route => routed(&[(3, false), (5, true)]),
            ExhaustiveCall::Stream { shard, broad, sink } => {
                assert_eq!(broad, shard == 5);
                asked.push(shard);
                streamed(sink, if shard == 3 { &[1, 2] } else { &[7] })
            }
        };
        run = run.next(event);
    }
    (asked, run)
}

#[test]
fn a_delivery_attests_at_every_boundary() {
    let mut attestations = 0;
    let (asked, run) = delivered(&mut || {
        attestations += 1;
        attested(CONVERGED, false)
    });
    assert_eq!(asked, vec![3, 5]);
    assert_eq!(attestations, 6, "open, twice per shard, close");
    let ExhaustiveRun::Ended(Ok(m)) = run else {
        panic!("not completed");
    };
    assert_eq!(m.routed_shards, 2);
    assert_eq!((m.summary.exact_total, m.summary.chunk_count), (3, 3));
    assert_eq!(m.stats.matches, 3);
    assert_eq!(m.placement_generation, PlacementGeneration(4));
}

#[test]
fn a_delivery_that_diverges_is_not_completed() {
    for at in 0..6 {
        let mut n = 0;
        let (asked, run) = delivered(&mut || {
            n += 1;
            let pending = usize::from(n == at + 1);
            attested(
                Convergence {
                    pending,
                    ..CONVERGED
                },
                false,
            )
        });
        assert!(
            matches!(run, ExhaustiveRun::Ended(Err(ShardError::Protocol(_)))),
            "attestation {at}"
        );
        assert_eq!(asked.len(), [0, 0, 1, 1, 2, 2][at], "attestation {at}");
    }
}

#[test]
fn a_delivery_past_its_deadline_is_not_completed() {
    // Right behind a shard the deadline is not looked at: the next boundary finds it.
    let counts: Vec<usize> = (0..6)
        .map(|at| {
            let mut n = 0;
            let (asked, run) = delivered(&mut || {
                n += 1;
                attested(CONVERGED, n > at)
            });
            assert!(matches!(
                run,
                ExhaustiveRun::Ended(Err(ShardError::DeadlineExceeded))
            ));
            asked.len()
        })
        .collect();
    assert_eq!(counts, vec![0, 0, 1, 1, 2, 2]);
}

#[test]
fn a_delivery_refuses_a_summary_that_disagrees() {
    let mut run = ExhaustiveRun::new(2, 100).unwrap();
    run = run.next(ExhaustiveEvent::Held);
    run = run.next(attested(CONVERGED, false));
    run = run.next(routed(&[(0, false)]));
    run = run.next(attested(CONVERGED, false));
    let Some(ExhaustiveCall::Stream { sink, .. }) = run.call() else {
        panic!("no stream");
    };
    run = run.next(ExhaustiveEvent::Streamed {
        sink,
        summary: ExhaustiveSummary {
            exact_total: 1,
            chunk_count: 0,
            checksum: DeliveryChecksum::empty(),
        },
    });
    assert!(matches!(
        run,
        ExhaustiveRun::Ended(Err(ShardError::Protocol(_)))
    ));
    assert!(run.call().is_none());
}

#[test]
fn a_delivery_without_its_barrier_or_route_fails() {
    assert!(matches!(ExhaustiveRun::new(0, 9), Err(ShardError::Config(_))));
    let run = ExhaustiveRun::new(1, 9)
        .unwrap()
        .next(ExhaustiveEvent::Failed(ShardError::DeadlineExceeded));
    assert!(matches!(
        run,
        ExhaustiveRun::Ended(Err(ShardError::DeadlineExceeded))
    ));
    let run = ExhaustiveRun::new(1, 9)
        .unwrap()
        .next(ExhaustiveEvent::Held)
        .next(attested(CONVERGED, false))
        .next(ExhaustiveEvent::Failed(ShardError::OwnershipMismatch(
            "x".to_string(),
        )));
    assert!(matches!(
        run,
        ExhaustiveRun::Ended(Err(ShardError::OwnershipMismatch(_)))
    ));
}
