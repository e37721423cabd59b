//! One exact delivery, from the barrier to the completion.
//!
//! While the barrier is held no mutation is under way. That the shards agree is attested before
//! anything is routed, before each shard streams, after it has streamed, and once more at the end; a
//! completion is given only if every routed shard has streamed, each once and in order, and every
//! attestation held.
use crate::coordinator::exhaustive::{
    check_chunk_size, convergence_refusal, delivered_all, ensure_exhaustive_converged, job_outcome,
    job_with, part_refusal, summary_refusal, ClusterExhaustiveMatch, Convergence, DeliveryChecksum,
    ExhaustiveJob, ExhaustiveSummary, Member, ResequencingSink, SinkView,
};
use crate::ownership::PlacementGeneration;
use crate::shard::{ShardError, ShardErrorView};
use crate::text::decimal;
use vstd::prelude::*;

verus! {

/// Where a job streams from.
#[derive(Debug)]
pub struct ExhaustivePlan {
    /// The routed shards, in the order in which they stream, and whether each looks at the broad
    /// queries.
    pub probes: Vec<(usize, bool)>,
    pub generation: PlacementGeneration,
    pub num_shards: u32,
    /// How many matches a chunk may hold.
    pub max_members: usize,
}

/// What to do next.
pub enum ExhaustiveCall {
    /// Take the barrier, and keep it until the job ends.
    Hold,
    /// Say what the cluster knows of its convergence, and whether the deadline has passed.
    Attest,
    /// Route the title.
    Route,
    /// Stream this shard into this sink.
    Stream { shard: usize, broad: bool, sink: ResequencingSink },
}

/// What came of it.
pub enum ExhaustiveEvent {
    /// The barrier is held.
    Held,
    /// What the cluster knows, and whether the deadline has passed.
    Attested { convergence: Convergence, expired: bool },
    /// The routed shards.
    Routed { probes: Vec<(usize, bool)>, generation: PlacementGeneration, num_shards: u32 },
    /// The shard has streamed: the sink that it streamed into, and its summary.
    Streamed { sink: ResequencingSink, summary: ExhaustiveSummary },
    /// It failed.
    Failed(ShardError),
}

/// How far a job is.
pub enum ExhaustiveRun {
    /// The barrier is to be taken.
    Hold { max_members: usize },
    /// The first attestation is due.
    Open { max_members: usize },
    /// The title is to be routed.
    Route { max_members: usize },
    /// The attestation before the shard at `at` is due.
    Boundary { plan: ExhaustivePlan, job: ExhaustiveJob, at: usize },
    /// The shard at `at` is to stream.
    Stream { plan: ExhaustivePlan, job: ExhaustiveJob, at: usize },
    /// It has streamed; the attestation behind it is due.
    Behind {
        plan: ExhaustivePlan,
        job: ExhaustiveJob,
        at: usize,
        sink: ResequencingSink,
        summary: ExhaustiveSummary,
    },
    /// Every shard has streamed; the last attestation is due.
    Close { plan: ExhaustivePlan, job: ExhaustiveJob },
    /// It has ended.
    Ended(Result<ClusterExhaustiveMatch, ShardError>),
}

/// The sink that the next shard of a job streams into, before anything has arrived.
pub open spec fn fresh_sink(job: ExhaustiveJob, max_members: usize) -> SinkView {
    SinkView {
        next_global: job.next_sequence,
        next_local: 0,
        max_members,
        observed_total: 0,
        observed_checksum: DeliveryChecksum(0),
        protocol_error: None,
    }
}

/// `s` is what became of the sink `from` when chunks arrived: some were passed on, and perhaps one
/// was refused.
pub open spec fn filled(from: SinkView, s: SinkView) -> bool {
    exists|chunks: Seq<Seq<Member>>|
        (SinkView { protocol_error: None, ..s }) == #[trigger] delivered_all(from, chunks)
}

/// The stage is one that a job can be at: what is counted as finished is what has streamed.
pub open spec fn exhaustive_valid(s: ExhaustiveRun) -> bool {
    match s {
        ExhaustiveRun::Boundary { plan, job, at } => at < plan.probes@.len() && job.finished == at,
        ExhaustiveRun::Stream { plan, job, at } => at < plan.probes@.len() && job.finished == at,
        ExhaustiveRun::Behind { plan, job, at, sink, summary } => {
            &&& at < plan.probes@.len()
            &&& job.finished == at
            &&& filled(fresh_sink(job, plan.max_members), sink@)
            &&& summary_refusal(sink@, summary) is None
        },
        ExhaustiveRun::Close { plan, job } => job.finished == plan.probes@.len(),
        _ => true,
    }
}

/// The event is one that follows what was asked.
pub open spec fn exhaustive_fits(s: ExhaustiveRun, e: ExhaustiveEvent) -> bool {
    match s {
        ExhaustiveRun::Hold { .. } => e is Held || e is Failed,
        ExhaustiveRun::Open { .. } => e is Attested,
        ExhaustiveRun::Route { .. } => e is Routed || e is Failed,
        ExhaustiveRun::Boundary { .. } => e is Attested,
        ExhaustiveRun::Stream { plan, job, at: _ } => e is Failed || (
        e matches ExhaustiveEvent::Streamed { sink, summary: _ } && filled(
            fresh_sink(job, plan.max_members),
            sink@,
        )),
        ExhaustiveRun::Behind { .. } => e is Attested,
        ExhaustiveRun::Close { .. } => e is Attested,
        ExhaustiveRun::Ended(_) => false,
    }
}

/// Why an attestation ends the job, if it does. The deadline counts where `timed` says so.
pub open spec fn attest_refusal(c: Convergence, expired: bool, timed: bool) -> Option<
    ShardErrorView,
> {
    match convergence_refusal(c) {
        Some(e) => Some(e),
        None => if timed && expired {
            Some(ShardErrorView::DeadlineExceeded)
        } else {
            None
        },
    }
}

/// `n` goes on with the shard at `at`, or closes where every shard has streamed.
pub open spec fn streaming_on(
    plan: ExhaustivePlan,
    job: ExhaustiveJob,
    at: int,
    n: ExhaustiveRun,
) -> bool {
    if at < plan.probes@.len() {
        n == (ExhaustiveRun::Boundary { plan, job, at: at as usize })
    } else {
        n == (ExhaustiveRun::Close { plan, job })
    }
}

/// It ended with this error.
pub open spec fn ended_with(n: ExhaustiveRun, e: ShardErrorView) -> bool {
    n matches ExhaustiveRun::Ended(Err(x)) && x@ == e
}

/// A step of a job: `n` follows `s` on `e`.
pub open spec fn exhaustive_step(s: ExhaustiveRun, e: ExhaustiveEvent, n: ExhaustiveRun) -> bool {
    match (s, e) {
        (ExhaustiveRun::Hold { max_members }, ExhaustiveEvent::Held) => n == (ExhaustiveRun::Open {
            max_members,
        }),
        (
            ExhaustiveRun::Open { max_members },
            ExhaustiveEvent::Attested { convergence, expired },
        ) => match attest_refusal(convergence, expired, true) {
            Some(x) => ended_with(n, x),
            None => n == (ExhaustiveRun::Route { max_members }),
        },
        (
            ExhaustiveRun::Route { max_members },
            ExhaustiveEvent::Routed { probes, generation, num_shards },
        ) => streaming_on(
            ExhaustivePlan { probes, generation, num_shards, max_members },
            ExhaustiveJob {
                next_sequence: 0,
                exact_total: 0,
                checksum: DeliveryChecksum(0),
                finished: 0,
            },
            0,
            n,
        ),
        (
            ExhaustiveRun::Boundary { plan, job, at },
            ExhaustiveEvent::Attested { convergence, expired },
        ) => match attest_refusal(convergence, expired, true) {
            Some(x) => ended_with(n, x),
            None => n == (ExhaustiveRun::Stream { plan, job, at }),
        },
        (
            ExhaustiveRun::Stream { plan, job, at },
            ExhaustiveEvent::Streamed { sink, summary },
        ) => match summary_refusal(sink@, summary) {
            Some(x) => ended_with(n, x),
            None => n == (ExhaustiveRun::Behind { plan, job, at, sink, summary }),
        },
        (
            ExhaustiveRun::Behind { plan, job, at, sink, summary },
            ExhaustiveEvent::Attested { convergence, expired },
        ) => match attest_refusal(convergence, expired, false) {
            Some(x) => ended_with(n, x),
            None => match part_refusal(job, sink@, summary) {
                Some(x) => ended_with(n, x),
                None => streaming_on(plan, job_with(job, sink@, summary), at + 1, n),
            },
        },
        (
            ExhaustiveRun::Close { plan, job },
            ExhaustiveEvent::Attested { convergence, expired },
        ) => match attest_refusal(convergence, expired, true) {
            Some(x) => ended_with(n, x),
            None => n == ExhaustiveRun::Ended(
                Ok(job_outcome(job, plan.generation, plan.num_shards)),
            ),
        },
        (_, ExhaustiveEvent::Failed(x)) => n == ExhaustiveRun::Ended(Err(x)),
        _ => n == s,
    }
}

fn attested(c: Convergence, expired: bool, timed: bool) -> (r: Result<(), ShardError>)
    ensures
        match attest_refusal(c, expired, timed) {
            Some(e) => r matches Err(x) && x@ == e,
            None => r is Ok,
        },
{
    match ensure_exhaustive_converged(c) {
        Err(e) => Err(e),
        Ok(_) => {
            if timed && expired {
                Err(ShardError::DeadlineExceeded)
            } else {
                Ok(())
            }
        },
    }
}

fn stream_on(plan: ExhaustivePlan, job: ExhaustiveJob, at: usize) -> (r: ExhaustiveRun)
    requires
        at <= plan.probes@.len(),
        job.finished == at,
    ensures
        streaming_on(plan, job, at as int, r),
        exhaustive_valid(r),
{
    if at < plan.probes.len() {
        ExhaustiveRun::Boundary { plan, job, at }
    } else {
        ExhaustiveRun::Close { plan, job }
    }
}

impl ExhaustiveRun {
    /// A job whose chunks hold at most `chunk_size` matches; `max` is the largest size that is
    /// allowed.
    pub fn new(chunk_size: usize, max: usize) -> (r: Result<Self, ShardError>)
        ensures
            match r {
                Ok(s) => 1 <= chunk_size <= max && s == (ExhaustiveRun::Hold {
                    max_members: chunk_size,
                }) && exhaustive_valid(s),
                Err(e) => !(1 <= chunk_size <= max) && e@ == ShardErrorView::Config(
                    "exhaustive chunk size "@ + decimal(chunk_size as nat) + " is outside 1..="@
                        + decimal(max as nat),
                ),
            },
    {
        match check_chunk_size(chunk_size, max) {
            Ok(_) => Ok(ExhaustiveRun::Hold { max_members: chunk_size }),
            Err(e) => Err(e),
        }
    }

    /// What to do next; nothing once it ended.
    pub fn call(&self) -> (r: Option<ExhaustiveCall>)
        requires
            exhaustive_valid(*self),
        ensures
            match *self {
                ExhaustiveRun::Hold { .. } => r == Some(ExhaustiveCall::Hold),
                ExhaustiveRun::Open { .. } => r == Some(ExhaustiveCall::Attest),
                ExhaustiveRun::Route { .. } => r == Some(ExhaustiveCall::Route),
                ExhaustiveRun::Boundary { .. } => r == Some(ExhaustiveCall::Attest),
                ExhaustiveRun::Stream { plan, job, at } => r matches Some(
                    ExhaustiveCall::Stream { shard, broad, sink },
                ) && (shard, broad) == plan.probes@[at as int] && sink@ == fresh_sink(
                    job,
                    plan.max_members,
                ),
                ExhaustiveRun::Behind { .. } => r == Some(ExhaustiveCall::Attest),
                ExhaustiveRun::Close { .. } => r == Some(ExhaustiveCall::Attest),
                ExhaustiveRun::Ended(_) => r is None,
            },
    {
        match self {
            ExhaustiveRun::Hold { .. } => Some(ExhaustiveCall::Hold),
            ExhaustiveRun::Route { .. } => Some(ExhaustiveCall::Route),
            ExhaustiveRun::Stream { plan, job, at } => {
                let (shard, broad) = plan.probes[*at];
                Some(
                    ExhaustiveCall::Stream {
                        shard,
                        broad,
                        sink: ResequencingSink::new(job.next_sequence, plan.max_members),
                    },
                )
            },
            ExhaustiveRun::Ended(_) => None,
            _ => Some(ExhaustiveCall::Attest),
        }
    }

    /// Takes an event.
    pub fn next(self, event: ExhaustiveEvent) -> (r: Self)
        requires
            exhaustive_fits(self, event),
            exhaustive_valid(self),
        ensures
            exhaustive_step(self, event, r),
            exhaustive_valid(r),
    {
        match (self, event) {
            (ExhaustiveRun::Hold { max_members }, ExhaustiveEvent::Held) => {
                ExhaustiveRun::Open { max_members }
            },
            (
                ExhaustiveRun::Open { max_members },
                ExhaustiveEvent::Attested { convergence, expired },
            ) => {
                match attested(convergence, expired, true) {
                    Err(e) => ExhaustiveRun::Ended(Err(e)),
                    Ok(_) => ExhaustiveRun::Route { max_members },
                }
            },
            (
                ExhaustiveRun::Route { max_members },
                ExhaustiveEvent::Routed { probes, generation, num_shards },
            ) => {
                stream_on(
                    ExhaustivePlan { probes, generation, num_shards, max_members },
                    ExhaustiveJob::new(),
                    0,
                )
            },
            (
                ExhaustiveRun::Boundary { plan, job, at },
                ExhaustiveEvent::Attested { convergence, expired },
            ) => {
                match attested(convergence, expired, true) {
                    Err(e) => ExhaustiveRun::Ended(Err(e)),
                    Ok(_) => ExhaustiveRun::Stream { plan, job, at },
                }
            },
            (
                ExhaustiveRun::Stream { plan, job, at },
                ExhaustiveEvent::Streamed { sink, summary },
            ) => {
                match sink.validate(summary) {
                    Err(e) => ExhaustiveRun::Ended(Err(e)),
                    Ok(_) => ExhaustiveRun::Behind { plan, job, at, sink, summary },
                }
            },
            (
                ExhaustiveRun::Behind { plan, job, at, sink, summary },
                ExhaustiveEvent::Attested { convergence, expired },
            ) => {
                match attested(convergence, expired, false) {
                    Err(e) => ExhaustiveRun::Ended(Err(e)),
                    Ok(_) => {
                        let mut job = job;
                        let n: usize = plan.probes.len();
                        assert(at < n);
                        match job.finish_shard(&sink, summary) {
                            Err(e) => ExhaustiveRun::Ended(Err(e)),
                            Ok(_) => stream_on(plan, job, at + 1),
                        }
                    },
                }
            },
            (
                ExhaustiveRun::Close { plan, job },
                ExhaustiveEvent::Attested { convergence, expired },
            ) => {
                match attested(convergence, expired, true) {
                    Err(e) => ExhaustiveRun::Ended(Err(e)),
                    Ok(_) => ExhaustiveRun::Ended(
                        Ok(job.finish(plan.generation, plan.num_shards)),
                    ),
                }
            },
            (_, ExhaustiveEvent::Failed(e)) => ExhaustiveRun::Ended(Err(e)),
            (s, _) => s,
        }
    }
}

// ---- laws ----

/// A run of a job: `states` are the stages that it went through on `events`.
pub open spec fn exhaustive_trace(states: Seq<ExhaustiveRun>, events: Seq<ExhaustiveEvent>) -> bool {
    &&& states.len() == events.len() + 1
    &&& states[0] is Hold
    &&& forall|i: int|
        #![trigger events[i]]
        0 <= i < events.len() ==> exhaustive_valid(states[i]) && exhaustive_fits(
            states[i],
            events[i],
        ) && exhaustive_step(states[i], events[i], states[i + 1]) && exhaustive_valid(states[i + 1])
}

/// How many shards have streamed.
pub open spec fn streams(events: Seq<ExhaustiveEvent>) -> nat
    decreases events.len(),
{
    if events.len() == 0 {
        0
    } else {
        streams(events.drop_last()) + if events.last() is Streamed {
            1nat
        } else {
            0nat
        }
    }
}

/// How many matches the shards that have streamed say they delivered.
pub open spec fn stream_total(events: Seq<ExhaustiveEvent>) -> nat
    decreases events.len(),
{
    if events.len() == 0 {
        0
    } else {
        stream_total(events.drop_last()) + match events.last() {
            ExhaustiveEvent::Streamed { sink: _, summary } => summary.exact_total as nat,
            _ => 0nat,
        }
    }
}

/// Every attestation so far held.
pub open spec fn all_attested(events: Seq<ExhaustiveEvent>) -> bool {
    forall|i: int|
        0 <= i < events.len() ==> (#[trigger] events[i] matches ExhaustiveEvent::Attested {
            convergence,
            expired: _,
        } ==> convergence_refusal(convergence) is None)
}

/// The shards that have streamed so far did so in order, each between two attestations.
pub open spec fn streamed_in_order(
    states: Seq<ExhaustiveRun>,
    events: Seq<ExhaustiveEvent>,
    plan: ExhaustivePlan,
) -> bool {
    forall|i: int|
        0 <= i < events.len() && #[trigger] events[i] is Streamed ==> i > 0
            && events[i - 1] is Attested && (states[i] matches ExhaustiveRun::Stream {
            plan: p,
            job: _,
            at,
        } && p == plan && at == streams(events.take(i)))
}

/// The plan of a job, once it was routed.
pub open spec fn plan_of(s: ExhaustiveRun) -> Option<ExhaustivePlan> {
    match s {
        ExhaustiveRun::Boundary { plan, job: _, at: _ } => Some(plan),
        ExhaustiveRun::Stream { plan, job: _, at: _ } => Some(plan),
        ExhaustiveRun::Behind { plan, .. } => Some(plan),
        ExhaustiveRun::Close { plan, job: _ } => Some(plan),
        _ => None,
    }
}

/// The plan that a run routed to, with its third event.
spec fn routed_plan(states: Seq<ExhaustiveRun>, events: Seq<ExhaustiveEvent>) -> ExhaustivePlan {
    ExhaustivePlan {
        probes: events[2]->probes,
        generation: events[2]->generation,
        num_shards: events[2]->num_shards,
        max_members: states[2]->Route_max_members,
    }
}

proof fn lemma_start(states: Seq<ExhaustiveRun>, events: Seq<ExhaustiveEvent>, k: int)
    requires
        exhaustive_trace(states, events),
        0 <= k < states.len(),
    ensures
        states[k] is Hold ==> k == 0,
        states[k] is Open ==> k == 1 && events[0] is Held,
        states[k] is Route ==> k == 2 && events[0] is Held && events[1] is Attested
            && !events[1]->expired,
        plan_of(states[k]) matches Some(plan) ==> k >= 3 && states[2] is Route && events[0] is Held
            && events[1] is Attested && !events[1]->expired && events[2] is Routed && plan
            == routed_plan(states, events),
    decreases k,
{
    if k > 0 {
        lemma_start(states, events, k - 1);
        assert(exhaustive_step(states[k - 1], events[k - 1], states[k]));
    }
}

proof fn lemma_attested(states: Seq<ExhaustiveRun>, events: Seq<ExhaustiveEvent>, k: int)
    requires
        exhaustive_trace(states, events),
        0 <= k < states.len(),
        !(states[k] matches ExhaustiveRun::Ended(Err(_))),
    ensures
        all_attested(events.take(k)),
    decreases k,
{
    if k > 0 {
        let e = events[k - 1];
        assert(exhaustive_step(states[k - 1], e, states[k]));
        lemma_attested(states, events, k - 1);
        let before = events.take(k - 1);
        let past = events.take(k);
        assert forall|i: int| 0 <= i < past.len() implies (
        #[trigger] past[i] matches ExhaustiveEvent::Attested { convergence, expired: _ }
            ==> convergence_refusal(convergence) is None) by {
            if i < k - 1 {
                assert(past[i] == before[i]);
            }
        }
    }
}

/// What has streamed and what is counted, at a stage of a run.
spec fn counted(s: ExhaustiveRun, past: Seq<ExhaustiveEvent>) -> bool {
    match s {
        ExhaustiveRun::Boundary { plan: _, job, at } => streams(past) == at && stream_total(past)
            == job.exact_total,
        ExhaustiveRun::Stream { plan: _, job, at } => streams(past) == at && stream_total(past)
            == job.exact_total,
        ExhaustiveRun::Behind { plan: _, job, at, sink: _, summary } => streams(past) == at + 1
            && stream_total(past) == job.exact_total + summary.exact_total,
        ExhaustiveRun::Close { plan, job } => streams(past) == plan.probes@.len() && stream_total(
            past,
        ) == job.exact_total,
        ExhaustiveRun::Ended(_) => true,
        _ => streams(past) == 0 && stream_total(past) == 0,
    }
}

proof fn lemma_counted(states: Seq<ExhaustiveRun>, events: Seq<ExhaustiveEvent>, k: int)
    requires
        exhaustive_trace(states, events),
        0 <= k < states.len(),
    ensures
        counted(states[k], events.take(k)),
    decreases k,
{
    if k == 0 {
        assert(events.take(0).len() == 0);
    } else {
        let e = events[k - 1];
        assert(exhaustive_fits(states[k - 1], e));
        assert(exhaustive_step(states[k - 1], e, states[k]));
        assert(exhaustive_valid(states[k - 1]));
        lemma_counted(states, events, k - 1);
        let past = events.take(k);
        let before = events.take(k - 1);
        assert(past.drop_last() =~= before);
        assert(past.last() == e);
        assert(streams(past) == streams(before) + if e is Streamed {
            1nat
        } else {
            0nat
        });
        match states[k - 1] {
            ExhaustiveRun::Stream { .. } => {
                assert(counted(states[k], past));
            },
            ExhaustiveRun::Behind { plan, job, at, sink, summary } => {
                assert(at < plan.probes.len());
                assert(stream_total(past) == stream_total(before));
                if part_refusal(job, sink@, summary) is None {
                    assert(job_with(job, sink@, summary).exact_total == job.exact_total
                        + summary.exact_total);
                }
                assert(counted(states[k], past));
            },
            ExhaustiveRun::Route { .. } => {
                assert(stream_total(past) == stream_total(before));
                if plan_of(states[k]) is Some {
                    lemma_start(states, events, k);
                }
            },
            _ => {
                assert(counted(states[k], past));
            },
        }
    }
}

proof fn lemma_in_order(
    states: Seq<ExhaustiveRun>,
    events: Seq<ExhaustiveEvent>,
    plan: ExhaustivePlan,
)
    requires
        exhaustive_trace(states, events),
        plan == routed_plan(states, events),
    ensures
        streamed_in_order(states, events, plan),
{
    assert forall|i: int| 0 <= i < events.len() && #[trigger] events[i] is Streamed implies i > 0
        && events[i - 1] is Attested && (states[i] matches ExhaustiveRun::Stream {
        plan: p,
        job: _,
        at,
    } && p == plan && at == streams(events.take(i))) by {
        assert(exhaustive_fits(states[i], events[i]));
        assert(states[i] is Stream);
        lemma_start(states, events, i);
        lemma_counted(states, events, i);
        assert(exhaustive_fits(states[i - 1], events[i - 1]));
        assert(exhaustive_step(states[i - 1], events[i - 1], states[i]));
    }
}

/// A completion is given only if every routed shard has streamed, once and in order, between two
/// attestations; every attestation held, the first before anything was routed and the last behind
/// the last shard, neither of them late. It speaks of exactly those shards, and its total is the sum
/// of theirs.
pub proof fn law_completion_speaks_of_every_shard(
    states: Seq<ExhaustiveRun>,
    events: Seq<ExhaustiveEvent>,
)
    requires
        exhaustive_trace(states, events),
        states.last() matches ExhaustiveRun::Ended(Ok(_)),
    ensures
        ({
            let n = events.len() as int;
            let m = states.last()->Ended_0->Ok_0;
            &&& n >= 4
            &&& events[0] is Held
            &&& events[1] is Attested && !events[1]->expired
            &&& events[n - 1] is Attested && !events[n - 1]->expired
            &&& all_attested(events)
            &&& events[2] matches ExhaustiveEvent::Routed { probes, generation, num_shards }
                && plan_of(states[n - 1])->0.probes == probes && streams(events)
                == probes@.len() && m.routed_shards == probes@.len() && m.placement_generation
                == generation && m.num_shards == num_shards
            &&& streamed_in_order(states, events, plan_of(states[n - 1])->0)
            &&& m.summary.exact_total == stream_total(events)
        }),
{
    let n = events.len() as int;
    assert(n > 0);
    let e = events[n - 1];
    assert(exhaustive_fits(states[n - 1], e));
    assert(exhaustive_step(states[n - 1], e, states[n]));
    assert(states[n - 1] is Close);
    assert(exhaustive_valid(states[n - 1]));
    lemma_start(states, events, n - 1);
    lemma_counted(states, events, n - 1);
    lemma_attested(states, events, n);
    lemma_in_order(states, events, plan_of(states[n - 1])->0);
    assert(events.take(n) =~= events);
    assert(events.drop_last() =~= events.take(n - 1));
    assert(events.last() == e);
}

/// A shard streams only after an attestation that held, before the deadline.
pub proof fn law_no_shard_streams_unattested(
    s: ExhaustiveRun,
    e: ExhaustiveEvent,
    n: ExhaustiveRun,
)
    requires
        exhaustive_fits(s, e),
        exhaustive_step(s, e, n),
        n is Stream,
    ensures
        e matches ExhaustiveEvent::Attested { convergence, expired } && convergence_refusal(
            convergence,
        ) is None && !expired,
{
}

/// An attestation holds exactly where the cluster agrees and, where the deadline counts, it has not
/// passed.
pub proof fn law_what_an_attestation_needs(c: Convergence, expired: bool, timed: bool)
    ensures
        attest_refusal(c, expired, timed) is None <==> convergence_refusal(c) is None && !(timed
            && expired),
{
}

/// A job goes on where it can. An attestation that holds leads on: to routing, to the shard's
/// stream, to the next shard or the close, to the completion. The deadline does not count behind a
/// stream. An accepted stream is held until the attestation behind it. Whatever fails is the error.
pub proof fn law_a_sound_job_goes_on(s: ExhaustiveRun, e: ExhaustiveEvent, n: ExhaustiveRun)
    requires
        exhaustive_fits(s, e),
        exhaustive_valid(s),
        exhaustive_step(s, e, n),
    ensures
        e matches ExhaustiveEvent::Failed(x) ==> n == ExhaustiveRun::Ended(Err(x)),
        s is Hold && e is Held ==> n is Open && n->Open_max_members == s->Hold_max_members,
        e matches ExhaustiveEvent::Attested { convergence, expired } ==> {
            &&& convergence_refusal(convergence) matches Some(x) ==> (
            n matches ExhaustiveRun::Ended(Err(y)) && y@ == x)
            &&& convergence_refusal(convergence) is None && expired && !(s is Behind) ==> (
            n matches ExhaustiveRun::Ended(Err(y)) && y@ == ShardErrorView::DeadlineExceeded)
            &&& convergence_refusal(convergence) is None && !expired ==> {
                &&& s is Open ==> n is Route && n->Route_max_members == s->Open_max_members
                &&& s matches ExhaustiveRun::Boundary { plan, job, at } ==> n
                    == (ExhaustiveRun::Stream { plan, job, at })
                &&& s is Close ==> (n matches ExhaustiveRun::Ended(Ok(m)) && m.summary.exact_total
                    == s->Close_job.exact_total && m.summary.chunk_count
                    == s->Close_job.next_sequence && m.summary.checksum == s->Close_job.checksum)
            }
            &&& s matches ExhaustiveRun::Behind { plan, job, at, sink, summary } ==> (
            convergence_refusal(convergence) is None && part_refusal(job, sink@, summary) is None
                ==> {
                &&& at + 1 < plan.probes@.len() ==> (n matches ExhaustiveRun::Boundary {
                    plan: p,
                    job: j,
                    at: a,
                } && p == plan && a == at + 1 && j == job_with(job, sink@, summary))
                &&& at + 1 == plan.probes@.len() ==> (n matches ExhaustiveRun::Close {
                    plan: p,
                    job: j,
                } && p == plan && j == job_with(job, sink@, summary))
            })
        },
        s matches ExhaustiveRun::Stream { plan, job, at } ==> (
        e matches ExhaustiveEvent::Streamed { sink, summary } ==> (summary_refusal(sink@, summary)
            is None ==> n == (ExhaustiveRun::Behind { plan, job, at, sink, summary }))),
        s is Route && e is Routed ==> {
            let j = ExhaustiveJob {
                next_sequence: 0,
                exact_total: 0,
                checksum: DeliveryChecksum(0),
                finished: 0,
            };
            &&& e->probes@.len() == 0 ==> n is Close && n->Close_job == j
            &&& e->probes@.len() > 0 ==> n is Boundary && n->Boundary_job == j && n->Boundary_at
                == 0 && n->Boundary_plan.probes == e->probes && n->Boundary_plan.max_members
                == s->Route_max_members
        },
{
    if let ExhaustiveRun::Behind { plan, job: _, at, sink: _, summary: _ } = s {
        assert(at + 1 <= plan.probes.len() <= usize::MAX);
    }
}

} // verus!
