//! Delivering every match of a title, chunk by chunk.
//!
//! The routed shards stream one after the other. Each shard numbers its chunks from zero; the
//! coordinator renumbers them into one sequence, counts what it delivers, and accepts a shard's
//! summary only if it agrees with that count.
use crate::codec::{fnv1a64, fnv1a64_spec, le_bytes, push_le64};
use crate::ownership::PlacementGeneration;
use crate::rank::{capped_sum64, MatchStats};
use crate::shard::{ShardError, ShardErrorView};
use crate::text::{decimal, push_decimal, with_number};
use vstd::prelude::*;

verus! {

/// One delivered match.
#[derive(Clone, Copy, Debug, PartialEq, Eq, Structural)]
pub struct Member {
    pub logical_id: u64,
    pub score: u64,
}

/// A run of matches, with its number in the stream.
#[derive(Clone, Debug)]
pub struct MatchChunk {
    pub sequence: u64,
    pub matches: Vec<Member>,
}

/// A checksum of a set of matches: it does not depend on their order.
#[derive(Clone, Copy, Debug, PartialEq, Eq, Structural)]
pub struct DeliveryChecksum(pub u64);

/// What a stream delivered.
#[derive(Clone, Copy, Debug, PartialEq, Eq, Structural)]
pub struct ExhaustiveSummary {
    pub exact_total: u64,
    pub chunk_count: u64,
    pub checksum: DeliveryChecksum,
}

/// The outcome of a cluster-wide stream.
#[derive(Clone, Copy, Debug, Eq, PartialEq, Structural)]
pub struct ClusterExhaustiveMatch {
    pub summary: ExhaustiveSummary,
    pub stats: MatchStats,
    pub routed_shards: usize,
    pub placement_generation: PlacementGeneration,
    pub num_shards: u32,
}

/// `a + b` modulo two to the sixty-four.
pub open spec fn wrap_sum(a: u64, b: u64) -> u64 {
    ((a + b) % 0x1_0000_0000_0000_0000) as u64
}

/// The hash of one match.
pub open spec fn member_hash(m: Member) -> u64 {
    fnv1a64_spec(le_bytes(m.logical_id as nat, 8) + le_bytes(m.score as nat, 8))
}

/// The checksum with the matches of a chunk added.
pub open spec fn observed(c: DeliveryChecksum, s: Seq<Member>) -> DeliveryChecksum
    decreases s.len(),
{
    if s.len() == 0 {
        c
    } else {
        DeliveryChecksum(wrap_sum(observed(c, s.drop_last()).0, member_hash(s.last())))
    }
}

impl DeliveryChecksum {
    /// The checksum of nothing.
    pub fn empty() -> (r: Self)
        ensures
            r == DeliveryChecksum(0),
    {
        DeliveryChecksum(0)
    }

    /// Adds one match.
    pub fn observe(&mut self, m: Member)
        ensures
            *final(self) == DeliveryChecksum(wrap_sum(old(self).0, member_hash(m))),
    {
        let mut b: Vec<u8> = Vec::new();
        push_le64(&mut b, m.logical_id);
        push_le64(&mut b, m.score);
        assert(b@ =~= le_bytes(m.logical_id as nat, 8) + le_bytes(m.score as nat, 8));
        let h: u64 = fnv1a64(b.as_slice());
        self.0 = self.0.wrapping_add(h);
    }

    /// Adds the checksum of another set.
    pub fn merge(&mut self, other: DeliveryChecksum)
        ensures
            *final(self) == DeliveryChecksum(wrap_sum(old(self).0, other.0)),
    {
        self.0 = self.0.wrapping_add(other.0);
    }
}

/// Checks the size of the chunks that a job asks for.
pub fn check_chunk_size(chunk_size: usize, max: usize) -> (r: Result<(), ShardError>)
    ensures
        r is Ok <==> 1 <= chunk_size <= max,
        r matches Err(e) ==> e@ == ShardErrorView::Config(
            "exhaustive chunk size "@ + decimal(chunk_size as nat) + " is outside 1..="@ + decimal(
                max as nat,
            ),
        ),
{
    if chunk_size == 0 || chunk_size > max {
        let mut m = with_number("exhaustive chunk size ", chunk_size as u64, " is outside 1..=");
        push_decimal(&mut m, max as u64);
        Err(ShardError::Config(m))
    } else {
        Ok(())
    }
}

/// What the cluster knows of its own convergence.
#[derive(Clone, Copy, Debug, PartialEq, Eq, Structural)]
pub struct Convergence {
    /// Whether shards are remote and can be moved.
    pub movable: bool,
    /// Whether this coordinator holds the shards for itself.
    pub exclusive: bool,
    /// Whether the directory of logical ids is known to hold the whole corpus.
    pub authoritative: bool,
    /// How many repairs are pending.
    pub pending: usize,
}

/// Why an exact delivery is refused, if it is.
pub open spec fn convergence_refusal(c: Convergence) -> Option<ShardErrorView> {
    if c.movable && !c.exclusive {
        Some(
            ShardErrorView::Protocol(
                "exact exhaustive delivery over remote shards requires an exclusive coordinator lease; assemble the cluster with connect_remote_exclusive/connect_replicated_exclusive"@,
            ),
        )
    } else if !c.authoritative {
        Some(
            ShardErrorView::Protocol(
                "exhaustive delivery requires authoritative coordinator convergence state; the coordinator either attached to populated shards without a live-id enumeration or an initial bulk ingest failed after ambiguous shard writes; rebuild fresh shard slots from the authoritative corpus before retrying"@,
            ),
        )
    } else if c.pending != 0 {
        Some(
            ShardErrorView::Protocol(
                "exhaustive delivery requires a converged cluster, but "@ + decimal(
                    c.pending as nat,
                )
                    + " partial-apply repair(s) are pending; run resync or reopen before retrying"@,
            ),
        )
    } else {
        None
    }
}

/// Refuses an exact delivery while shards may disagree.
pub fn ensure_exhaustive_converged(c: Convergence) -> (r: Result<(), ShardError>)
    ensures
        match convergence_refusal(c) {
            Some(e) => r matches Err(x) && x@ == e,
            None => r is Ok,
        },
{
    if c.movable && !c.exclusive {
        return Err(
            ShardError::Protocol(
                String::from_str(
                    "exact exhaustive delivery over remote shards requires an exclusive coordinator lease; assemble the cluster with connect_remote_exclusive/connect_replicated_exclusive",
                ),
            ),
        );
    }
    if !c.authoritative {
        return Err(
            ShardError::Protocol(
                String::from_str(
                    "exhaustive delivery requires authoritative coordinator convergence state; the coordinator either attached to populated shards without a live-id enumeration or an initial bulk ingest failed after ambiguous shard writes; rebuild fresh shard slots from the authoritative corpus before retrying",
                ),
            ),
        );
    }
    if c.pending != 0 {
        return Err(
            ShardError::Protocol(
                with_number(
                    "exhaustive delivery requires a converged cluster, but ",
                    c.pending as u64,
                    " partial-apply repair(s) are pending; run resync or reopen before retrying",
                ),
            ),
        );
    }
    Ok(())
}

/// How long the barrier is waited for at most before it is tried again, in nanoseconds.
pub const BARRIER_POLL: u64 = 10_000_000;

/// How long to wait for the barrier before it is tried again, in nanoseconds: ten milliseconds, or
/// what is left until the deadline. None once nothing is left.
pub fn barrier_wait(remaining: Option<u64>) -> (r: Option<u64>)
    ensures
        r == match remaining {
            None => Some(BARRIER_POLL),
            Some(n) => if n == 0 {
                None
            } else if n < BARRIER_POLL {
                Some(n)
            } else {
                Some(BARRIER_POLL)
            },
        },
{
    match remaining {
        None => Some(BARRIER_POLL),
        Some(n) => {
            if n == 0 {
                None
            } else if n < BARRIER_POLL {
                Some(n)
            } else {
                Some(BARRIER_POLL)
            }
        },
    }
}

/// Why the barrier is not tried, if it is not: whoever takes the chunks has given up, or the
/// deadline has passed.
pub fn check_barrier(cancelled: Option<String>, expired: bool) -> (r: Result<(), ShardError>)
    ensures
        match cancelled {
            Some(m) => r matches Err(e) && e@ == ShardErrorView::Protocol(
                "exhaustive sink failed: "@ + m@,
            ),
            None => if expired {
                r == Err::<(), ShardError>(ShardError::DeadlineExceeded)
            } else {
                r is Ok
            },
        },
{
    match cancelled {
        Some(detail) => {
            let mut m = String::from_str("exhaustive sink failed: ");
            m.append(detail.as_str());
            Err(ShardError::Protocol(m))
        },
        None => {
            if expired {
                Err(ShardError::DeadlineExceeded)
            } else {
                Ok(())
            }
        },
    }
}

// ---- one shard's stream ----

/// Renumbers the chunks of one shard and counts them.
#[derive(Debug)]
pub struct ResequencingSink {
    next_global: u64,
    next_local: u64,
    max_members: usize,
    observed_total: u64,
    observed_checksum: DeliveryChecksum,
    protocol_error: Option<String>,
}

/// The state of a sink, as a mathematical value.
pub ghost struct SinkView {
    /// The number of the next chunk in the job.
    pub next_global: u64,
    /// The number that the shard's next chunk must have.
    pub next_local: u64,
    pub max_members: usize,
    pub observed_total: u64,
    pub observed_checksum: DeliveryChecksum,
    pub protocol_error: Option<Seq<char>>,
}

impl View for ResequencingSink {
    type V = SinkView;

    closed spec fn view(&self) -> SinkView {
        SinkView {
            next_global: self.next_global,
            next_local: self.next_local,
            max_members: self.max_members,
            observed_total: self.observed_total,
            observed_checksum: self.observed_checksum,
            protocol_error: crate::text::opt_text(self.protocol_error),
        }
    }
}

/// What is wrong with a chunk, if anything.
pub open spec fn chunk_fault(s: SinkView, sequence: u64, members: nat) -> Option<Seq<char>> {
    if sequence != s.next_local {
        Some(
            "exhaustive shard chunk sequence "@ + decimal(sequence as nat) + " arrived where "@
                + decimal(s.next_local as nat) + " was required"@,
        )
    } else if members == 0 || members > s.max_members {
        Some(
            "exhaustive shard chunk contains "@ + decimal(members) + " members; required 1..="@
                + decimal(s.max_members as nat),
        )
    } else {
        None
    }
}

/// The sink after a chunk was passed on.
pub open spec fn chunk_delivered(s: SinkView, matches: Seq<Member>) -> SinkView {
    SinkView {
        next_global: capped_sum64(s.next_global, 1),
        next_local: capped_sum64(s.next_local, 1),
        observed_total: capped_sum64(s.observed_total, matches.len() as u64),
        observed_checksum: observed(s.observed_checksum, matches),
        ..s
    }
}

/// The text of a checksum.
pub open spec fn checksum_text(c: DeliveryChecksum) -> Seq<char> {
    "DeliveryChecksum("@ + decimal(c.0 as nat) + ")"@
}

/// Why a shard's summary is refused, if it is.
pub open spec fn summary_refusal(s: SinkView, expected: ExhaustiveSummary) -> Option<ShardErrorView> {
    match s.protocol_error {
        Some(m) => Some(ShardErrorView::Protocol(m)),
        None => if expected.chunk_count != s.next_local || expected.exact_total != s.observed_total
            || expected.checksum != s.observed_checksum {
            Some(
                ShardErrorView::Protocol(
                    "exhaustive shard summary disagrees with delivered chunks: summary(chunks="@
                        + decimal(expected.chunk_count as nat) + ", total="@ + decimal(
                        expected.exact_total as nat,
                    ) + ", checksum="@ + checksum_text(expected.checksum) + "), observed(chunks="@
                        + decimal(s.next_local as nat) + ", total="@ + decimal(
                        s.observed_total as nat,
                    ) + ", checksum="@ + checksum_text(s.observed_checksum) + ")"@,
                ),
            )
        } else {
            None
        },
    }
}

fn push_checksum(m: &mut String, c: DeliveryChecksum)
    ensures
        final(m)@ == old(m)@ + checksum_text(c),
{
    m.append("DeliveryChecksum(");
    push_decimal(m, c.0);
    m.append(")");
    assert(m@ =~= old(m)@ + checksum_text(c));
}

impl ResequencingSink {
    /// A sink for the next shard of a job.
    pub fn new(next_global: u64, max_members: usize) -> (r: Self)
        ensures
            r@ == (SinkView {
                next_global,
                next_local: 0,
                max_members,
                observed_total: 0,
                observed_checksum: DeliveryChecksum(0),
                protocol_error: None,
            }),
    {
        ResequencingSink {
            next_global,
            next_local: 0,
            max_members,
            observed_total: 0,
            observed_checksum: DeliveryChecksum::empty(),
            protocol_error: None,
        }
    }

    /// Checks a chunk that arrived; gives the number under which it is passed on. A refusal is
    /// remembered.
    pub fn accept(&mut self, chunk: &MatchChunk) -> (r: Result<u64, String>)
        ensures
            match chunk_fault(old(self)@, chunk.sequence, chunk.matches@.len()) {
                Some(t) => r matches Err(m) && m@ == t && final(self)@ == (SinkView {
                    protocol_error: Some(t),
                    ..old(self)@
                }),
                None => r == Ok::<u64, String>(old(self)@.next_global) && final(self)@ == old(
                    self)@,
            },
    {
        let n: usize = chunk.matches.len();
        if chunk.sequence != self.next_local {
            let mut m = with_number(
                "exhaustive shard chunk sequence ",
                chunk.sequence,
                " arrived where ",
            );
            push_decimal(&mut m, self.next_local);
            m.append(" was required");
            self.protocol_error = Some(m.clone());
            return Err(m);
        }
        if n == 0 || n > self.max_members {
            let mut m = with_number(
                "exhaustive shard chunk contains ",
                n as u64,
                " members; required 1..=",
            );
            push_decimal(&mut m, self.max_members as u64);
            self.protocol_error = Some(m.clone());
            return Err(m);
        }
        Ok(self.next_global)
    }

    /// Counts a chunk that was passed on.
    pub fn delivered(&mut self, chunk: &MatchChunk)
        ensures
            final(self)@ == chunk_delivered(old(self)@, chunk.matches@),
    {
        let ghost start = self.observed_checksum;
        let n: usize = chunk.matches.len();
        self.next_local = self.next_local.saturating_add(1);
        self.next_global = self.next_global.saturating_add(1);
        self.observed_total = self.observed_total.saturating_add(n as u64);
        let mut i: usize = 0;
        let ghost rest = self@;
        assert(chunk.matches@.take(0).len() == 0);
        while i < n
            invariant
                n == chunk.matches@.len(),
                i <= n,
                self@ == (SinkView {
                    observed_checksum: observed(start, chunk.matches@.take(i as int)),
                    ..rest
                }),
            decreases n - i,
        {
            proof {
                assert(chunk.matches@.take(i + 1).drop_last() =~= chunk.matches@.take(i as int));
            }
            self.observed_checksum.observe(chunk.matches[i]);
            i = i + 1;
        }
        assert(chunk.matches@.take(n as int) =~= chunk.matches@);
    }

    /// Holds a shard's summary against what was delivered.
    pub fn validate(&self, expected: ExhaustiveSummary) -> (r: Result<(), ShardError>)
        ensures
            match summary_refusal(self@, expected) {
                Some(e) => r matches Err(x) && x@ == e,
                None => r is Ok,
            },
    {
        if let Some(detail) = &self.protocol_error {
            return Err(ShardError::Protocol(detail.clone()));
        }
        if expected.chunk_count != self.next_local || expected.exact_total != self.observed_total
            || expected.checksum.0 != self.observed_checksum.0 {
            let mut m = with_number(
                "exhaustive shard summary disagrees with delivered chunks: summary(chunks=",
                expected.chunk_count,
                ", total=",
            );
            push_decimal(&mut m, expected.exact_total);
            m.append(", checksum=");
            push_checksum(&mut m, expected.checksum);
            m.append("), observed(chunks=");
            push_decimal(&mut m, self.next_local);
            m.append(", total=");
            push_decimal(&mut m, self.observed_total);
            m.append(", checksum=");
            push_checksum(&mut m, self.observed_checksum);
            m.append(")");
            return Err(ShardError::Protocol(m));
        }
        Ok(())
    }
}

// ---- the whole job ----

/// What a job has delivered so far.
#[derive(Clone, Copy, Debug, PartialEq, Eq, Structural)]
pub struct ExhaustiveJob {
    /// The number of the next chunk.
    pub next_sequence: u64,
    /// How many matches were delivered.
    pub exact_total: u64,
    /// The checksum of what was delivered.
    pub checksum: DeliveryChecksum,
    /// How many shards have finished.
    pub finished: usize,
}

/// Why a shard's part is refused, if it is.
pub open spec fn part_refusal(job: ExhaustiveJob, s: SinkView, part: ExhaustiveSummary) -> Option<
    ShardErrorView,
> {
    match summary_refusal(s, part) {
        Some(e) => Some(e),
        None => if job.exact_total + part.exact_total > u64::MAX {
            Some(ShardErrorView::Protocol("exhaustive total overflowed u64"@))
        } else {
            None
        },
    }
}

/// The job with a shard's part.
pub open spec fn job_with(job: ExhaustiveJob, s: SinkView, part: ExhaustiveSummary) -> ExhaustiveJob {
    ExhaustiveJob {
        next_sequence: s.next_global,
        exact_total: (job.exact_total + part.exact_total) as u64,
        checksum: DeliveryChecksum(wrap_sum(job.checksum.0, part.checksum.0)),
        finished: (job.finished + 1) as usize,
    }
}

/// The outcome of a job: what the shards that have finished delivered.
pub open spec fn job_outcome(
    job: ExhaustiveJob,
    generation: PlacementGeneration,
    num_shards: u32,
) -> ClusterExhaustiveMatch {
    ClusterExhaustiveMatch {
        summary: ExhaustiveSummary {
            exact_total: job.exact_total,
            chunk_count: job.next_sequence,
            checksum: job.checksum,
        },
        stats: MatchStats {
            matches: if job.exact_total > u32::MAX {
                u32::MAX
            } else {
                job.exact_total as u32
            },
        },
        routed_shards: job.finished,
        placement_generation: generation,
        num_shards,
    }
}

impl ExhaustiveJob {
    /// A job that has delivered nothing.
    pub fn new() -> (r: Self)
        ensures
            r == (ExhaustiveJob {
                next_sequence: 0,
                exact_total: 0,
                checksum: DeliveryChecksum(0),
                finished: 0,
            }),
    {
        ExhaustiveJob {
            next_sequence: 0,
            exact_total: 0,
            checksum: DeliveryChecksum::empty(),
            finished: 0,
        }
    }

    /// Takes a shard's part, once its stream has ended.
    pub fn finish_shard(&mut self, sink: &ResequencingSink, part: ExhaustiveSummary) -> (r: Result<
        (),
        ShardError,
    >)
        requires
            old(self).finished < usize::MAX,
        ensures
            match part_refusal(*old(self), sink@, part) {
                Some(e) => (r matches Err(x) && x@ == e) && *final(self) == *old(self),
                None => r is Ok && *final(self) == job_with(*old(self), sink@, part),
            },
    {
        match sink.validate(part) {
            Ok(_) => {},
            Err(e) => {
                return Err(e);
            },
        }
        match self.exact_total.checked_add(part.exact_total) {
            Some(t) => {
                self.exact_total = t;
                self.finished = self.finished + 1;
            },
            None => {
                return Err(
                    ShardError::Protocol(String::from_str("exhaustive total overflowed u64")),
                );
            },
        }
        self.next_sequence = sink.next_global;
        self.checksum.merge(part.checksum);
        Ok(())
    }

    /// The outcome of a job. It speaks of the shards that have finished, and of no other.
    pub fn finish(&self, generation: PlacementGeneration, num_shards: u32) -> (r:
        ClusterExhaustiveMatch)
        ensures
            r == job_outcome(*self, generation, num_shards),
    {
        let matches: u32 = if self.exact_total > u32::MAX as u64 {
            u32::MAX
        } else {
            self.exact_total as u32
        };
        ClusterExhaustiveMatch {
            summary: ExhaustiveSummary {
                exact_total: self.exact_total,
                chunk_count: self.next_sequence,
                checksum: self.checksum,
            },
            stats: MatchStats { matches },
            routed_shards: self.finished,
            placement_generation: generation,
            num_shards,
        }
    }
}

// ---- laws ----

/// The sink after a run of accepted chunks, each with the matches given.
pub open spec fn delivered_all(s: SinkView, chunks: Seq<Seq<Member>>) -> SinkView
    decreases chunks.len(),
{
    if chunks.len() == 0 {
        s
    } else {
        chunk_delivered(delivered_all(s, chunks.drop_last()), chunks.last())
    }
}

/// How many matches there are in a run of chunks.
pub open spec fn members_in(chunks: Seq<Seq<Member>>) -> nat
    decreases chunks.len(),
{
    if chunks.len() == 0 {
        0
    } else {
        members_in(chunks.drop_last()) + chunks.last().len()
    }
}

/// The chunks of a shard are passed on under consecutive numbers, and none is left out of the
/// count: after `n` chunks the next number is `n` further, and the total is the number of matches.
pub proof fn law_resequenced_stream_is_contiguous(s: SinkView, chunks: Seq<Seq<Member>>)
    requires
        s.next_global + chunks.len() <= u64::MAX,
        s.next_local + chunks.len() <= u64::MAX,
        s.observed_total + members_in(chunks) <= u64::MAX,
    ensures
        delivered_all(s, chunks).next_global == s.next_global + chunks.len(),
        delivered_all(s, chunks).next_local == s.next_local + chunks.len(),
        delivered_all(s, chunks).observed_total == s.observed_total + members_in(chunks),
        delivered_all(s, chunks).protocol_error == s.protocol_error,
    decreases chunks.len(),
{
    if chunks.len() > 0 {
        law_resequenced_stream_is_contiguous(s, chunks.drop_last());
    }
}

/// A summary is accepted only if it says what was delivered.
pub proof fn law_accepted_summary_is_what_was_delivered(s: SinkView, expected: ExhaustiveSummary)
    requires
        summary_refusal(s, expected) is None,
    ensures
        expected.chunk_count == s.next_local,
        expected.exact_total == s.observed_total,
        expected.checksum == s.observed_checksum,
        s.protocol_error is None,
{
}

/// The checksum does not depend on the order in which matches are delivered.
pub proof fn law_checksum_ignores_order(c: DeliveryChecksum, s: Seq<Member>, a: Member, b: Member)
    ensures
        observed(c, s.push(a).push(b)) == observed(c, s.push(b).push(a)),
{
    assert(s.push(a).push(b).drop_last() =~= s.push(a));
    assert(s.push(b).push(a).drop_last() =~= s.push(b));
    assert(s.push(a).drop_last() =~= s);
    assert(s.push(b).drop_last() =~= s);
    assert(observed(c, s.push(a)).0 == wrap_sum(observed(c, s).0, member_hash(a)));
    assert(observed(c, s.push(b)).0 == wrap_sum(observed(c, s).0, member_hash(b)));
    assert(observed(c, s.push(a).push(b)).0 == wrap_sum(
        observed(c, s.push(a)).0,
        member_hash(b),
    ));
    assert(observed(c, s.push(b).push(a)).0 == wrap_sum(
        observed(c, s.push(b)).0,
        member_hash(a),
    ));
    lemma_wrap_commutes(observed(c, s).0, member_hash(a), member_hash(b));
}

proof fn lemma_wrap_commutes(x: u64, p: u64, q: u64)
    ensures
        wrap_sum(wrap_sum(x, p), q) == wrap_sum(wrap_sum(x, q), p),
{
    lemma_wrap_sum(x, p);
    lemma_wrap_sum(x, q);
    lemma_wrap_sum(wrap_sum(x, p), q);
    lemma_wrap_sum(wrap_sum(x, q), p);
}

proof fn lemma_wrap_sum(a: u64, b: u64)
    ensures
        wrap_sum(a, b) == if a + b > u64::MAX {
            a + b - 0x1_0000_0000_0000_0000
        } else {
            a + b
        },
{
}

/// An exact delivery goes ahead exactly where remote shards are held exclusively, the directory
/// holds the whole corpus, and no repair is pending.
pub proof fn law_exact_delivery_needs_agreement(c: Convergence)
    ensures
        convergence_refusal(c) is None <==> (c.movable ==> c.exclusive) && c.authoritative
            && c.pending == 0,
{
}

/// A chunk is passed on exactly where it is the shard's next and holds at least one match and no
/// more than allowed.
pub proof fn law_only_the_next_chunk_is_passed_on(s: SinkView, sequence: u64, members: nat)
    ensures
        chunk_fault(s, sequence, members) is None <==> sequence == s.next_local && 1 <= members
            <= s.max_members,
{
}

/// A summary that says what was delivered is accepted, where no chunk was refused.
pub proof fn law_a_true_summary_is_accepted(s: SinkView, expected: ExhaustiveSummary)
    requires
        s.protocol_error is None,
        expected.chunk_count == s.next_local,
        expected.exact_total == s.observed_total,
        expected.checksum == s.observed_checksum,
    ensures
        summary_refusal(s, expected) is None,
{
}

/// A match changes the checksum by its hash, wherever in the stream it comes; so how matches are
/// cut into chunks does not matter, and the checksums of two parts add up to that of the whole.
pub proof fn law_checksums_add_up(c: DeliveryChecksum, a: Seq<Member>, b: Seq<Member>, m: Member)
    ensures
        observed(c, Seq::<Member>::empty()) == c,
        observed(c, a.push(m)).0 == (observed(c, a).0 + member_hash(m)) % 0x1_0000_0000_0000_0000,
        observed(observed(c, a), b) == observed(c, a + b),
        wrap_sum(observed(c, a).0, observed(DeliveryChecksum(0), b).0) == observed(c, a + b).0,
    decreases b.len(),
{
    assert(a.push(m).drop_last() =~= a);
    if b.len() == 0 {
        assert(a + b =~= a);
        assert(observed(c, a).0 as int % 0x1_0000_0000_0000_0000 == observed(c, a).0);
    } else {
        let d = b.drop_last();
        assert((a + b).drop_last() =~= a + d);
        assert((a + b).last() == b.last());
        law_checksums_add_up(c, a, d, m);
        let x = observed(c, a).0 as int;
        let y = observed(DeliveryChecksum(0), d).0 as int;
        let h = member_hash(b.last()) as int;
        let n = 0x1_0000_0000_0000_0000int;
        assert((x + (y + h) % n) % n == ((x + y) % n + h) % n) by {
            vstd::arithmetic::div_mod::lemma_add_mod_noop_right(x, y + h, n);
            vstd::arithmetic::div_mod::lemma_add_mod_noop_right(h, x + y, n);
        }
    }
}

/// A shard's part is taken exactly where its summary is accepted and the total still fits; the job
/// then goes on behind the shard's last chunk, and its total and checksum are with the part's.
pub proof fn law_parts_add_up(job: ExhaustiveJob, s: SinkView, part: ExhaustiveSummary)
    requires
        job.finished < usize::MAX,
    ensures
        part_refusal(job, s, part) is None <==> summary_refusal(s, part) is None && job.exact_total
            + part.exact_total <= u64::MAX,
        part_refusal(job, s, part) is None ==> {
            let n = job_with(job, s, part);
            &&& n.next_sequence == s.next_global
            &&& n.exact_total == job.exact_total + part.exact_total
            &&& n.checksum.0 == (job.checksum.0 + part.checksum.0) % 0x1_0000_0000_0000_0000
            &&& n.finished == job.finished + 1
        },
{
}

/// A completion says what was counted: the number of chunks is that of the next one.
pub proof fn law_an_outcome_says_what_was_counted(
    job: ExhaustiveJob,
    generation: PlacementGeneration,
    num_shards: u32,
)
    ensures
        ({
            let m = job_outcome(job, generation, num_shards);
            &&& m.summary.exact_total == job.exact_total
            &&& m.summary.chunk_count == job.next_sequence
            &&& m.summary.checksum == job.checksum
            &&& m.routed_shards == job.finished
            &&& m.placement_generation == generation && m.num_shards == num_shards
            &&& job.exact_total <= u32::MAX ==> m.stats.matches == job.exact_total
            &&& job.exact_total > u32::MAX ==> m.stats.matches == u32::MAX
        }),
{
}

/// The hash of a match is that of sixteen bytes: its id in the first eight, its score in the others.
pub proof fn law_a_match_is_hashed_by_its_id_and_its_score(m: Member, b: Seq<u8>)
    requires
        b.len() == 16,
        crate::codec::le_value(b.take(8)) == m.logical_id,
        crate::codec::le_value(b.skip(8)) == m.score,
    ensures
        member_hash(m) == fnv1a64_spec(b),
{
    crate::codec::lemma_le_bytes_of_value(b.take(8));
    crate::codec::lemma_le_bytes_of_value(b.skip(8));
    assert(b =~= b.take(8) + b.skip(8));
}

} // verus!
