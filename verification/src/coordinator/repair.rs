//! Mutations that some of their shards did not apply: what is kept of them, and how they are
//! driven again until every shard agrees.
use crate::clog::{ClusterMutation, MutationView};
use crate::coordinator::logical_ids::LogicalIdDirectory;
use crate::order::{
    key_of, lemma_put, lemma_put_map, lemma_strictly_ascending_unique, lemma_without,
    lemma_without_map, put, put_in, strictly_ascending, take_out, without, Keyed,
};
use crate::shard::{ShardError, ShardErrorView};
use crate::text::{decimal, list_of, list_text, push_decimal};
use vstd::prelude::*;

verus! {

/// A mutation and the shards that did not apply it.
pub struct PendingRepair {
    pub logical: u64,
    pub mutation: ClusterMutation,
    pub failed_shards: Vec<usize>,
}

/// A pending mutation, as a mathematical value.
pub ghost struct RepairView {
    pub logical: u64,
    pub mutation: MutationView,
    pub failed_shards: Seq<usize>,
}

impl View for PendingRepair {
    type V = RepairView;

    open spec fn view(&self) -> RepairView {
        RepairView {
            logical: self.logical,
            mutation: self.mutation@,
            failed_shards: self.failed_shards@,
        }
    }
}

impl Keyed for PendingRepair {
    open spec fn key(&self) -> int {
        self.logical as int
    }

    fn sort_key(&self) -> (k: u128) {
        self.logical as u128
    }
}

/// The sort key of pending mutations.
pub open spec fn repair_key() -> spec_fn(RepairView) -> int {
    |r: RepairView| r.logical as int
}

/// Pending mutations as mathematical values.
pub open spec fn repair_views(s: Seq<PendingRepair>) -> Seq<RepairView> {
    s.map_values(|p: PendingRepair| p@)
}

/// Whether a mutation of this logical id is pending.
pub open spec fn queued(q: Seq<RepairView>, logical: u64) -> bool {
    exists|i: int| 0 <= i < q.len() && (#[trigger] q[i]).logical == logical
}

/// What is reported of a mutation that did not reach every shard.
pub struct RepairNotice {
    pub detail: String,
    pub error: String,
}

/// The message of the first error, where it is known.
pub open spec fn first_error(e: Option<Seq<char>>) -> Seq<char> {
    match e {
        Some(e) => e,
        None => "unknown shard error"@,
    }
}

/// The texts of the errors among the outcomes, shard by shard; none where the shard applied.
pub open spec fn outcome_views(v: Seq<Option<String>>) -> Seq<Option<Seq<char>>> {
    v.map_values(|e: Option<String>| crate::text::opt_text(e))
}

/// The shards that failed again.
pub open spec fn still_failing(shards: Seq<usize>, outcomes: Seq<Option<Seq<char>>>) -> Seq<usize>
    decreases shards.len(),
{
    if shards.len() == 0 || outcomes.len() != shards.len() {
        Seq::empty()
    } else {
        let before = still_failing(shards.drop_last(), outcomes.drop_last());
        if outcomes.last() is Some {
            before.push(shards.last())
        } else {
            before
        }
    }
}

/// The shards that applied.
pub open spec fn passed_on(shards: Seq<usize>, outcomes: Seq<Option<Seq<char>>>) -> Seq<usize>
    decreases shards.len(),
{
    if shards.len() == 0 || outcomes.len() != shards.len() {
        Seq::empty()
    } else {
        let before = passed_on(shards.drop_last(), outcomes.drop_last());
        if outcomes.last() is None {
            before.push(shards.last())
        } else {
            before
        }
    }
}

/// The first error among the outcomes.
pub open spec fn first_outcome(outcomes: Seq<Option<Seq<char>>>) -> Option<Seq<char>>
    decreases outcomes.len(),
{
    if outcomes.len() == 0 {
        None
    } else {
        match first_outcome(outcomes.drop_last()) {
            Some(e) => Some(e),
            None => outcomes.last(),
        }
    }
}

/// The queue after a pending mutation was driven again: gone where every shard applied it, else
/// queued for the shards that are left, unless a fresher mutation of its id is queued.
pub open spec fn redriven(
    q: Seq<RepairView>,
    r: RepairView,
    outcomes: Seq<Option<Seq<char>>>,
) -> Seq<RepairView> {
    let left = still_failing(r.failed_shards, outcomes);
    if left.len() == 0 || queued(q, r.logical) {
        q
    } else {
        put(q, repair_key(), RepairView { failed_shards: left, ..r })
    }
}

/// How driving a pending mutation again ended.
pub enum RedriveEnd {
    /// A fresher mutation of its id is queued; this one is dropped.
    Superseded,
    /// Every shard applied it. The id is free again where the mutation removed it.
    Repaired { frees_id: bool },
    /// Some shard failed again.
    StillPending(RepairNotice),
}

/// How many pending mutations reached every shard, and how many did not.
#[derive(Clone, Copy, Debug, PartialEq, Eq, Structural)]
pub struct ResyncReport {
    pub repaired: usize,
    pub still_pending: usize,
}

impl Default for ResyncReport {
    fn default() -> (r: Self)
        ensures
            r == (ResyncReport { repaired: 0, still_pending: 0 }),
    {
        ResyncReport { repaired: 0, still_pending: 0 }
    }
}

/// The pending mutations, at most one per logical id.
pub struct RepairQueue {
    pending: Vec<PendingRepair>,
}

impl RepairQueue {
    /// The pending mutations in the order of their id.
    pub closed spec fn pending(self) -> Seq<RepairView> {
        repair_views(self.pending@)
    }

    /// No id is queued twice and the mutations are in order.
    pub open spec fn wf(self) -> bool {
        strictly_ascending(self.pending(), repair_key())
    }

    /// A queue without mutations.
    pub fn new() -> (r: Self)
        ensures
            r.wf(),
            r.pending() == Seq::<RepairView>::empty(),
    {
        let r = RepairQueue { pending: Vec::new() };
        assert(r.pending() =~= Seq::<RepairView>::empty());
        r
    }

    /// How many mutations are pending.
    pub fn pending_repairs(&self) -> (r: usize)
        ensures
            r == self.pending().len(),
    {
        self.pending.len()
    }

    fn enqueue(&mut self, p: PendingRepair)
        requires
            old(self).wf(),
        ensures
            final(self).wf(),
            final(self).pending() == put(old(self).pending(), repair_key(), p@),
    {
        let ghost before = self.pending@;
        let ghost view = |p: PendingRepair| p@;
        let ghost added = p;
        put_in(&mut self.pending, p);
        proof {
            lemma_put_map(before, key_of::<PendingRepair>(), view, repair_key(), added);
            lemma_put(repair_views(before), repair_key(), added@);
        }
    }

    /// Records a mutation that `failed` did not apply, in place of any pending one of its id. What
    /// comes back is the error for the caller and the notice.
    pub fn note_partial(
        &mut self,
        mutation: ClusterMutation,
        logical: u64,
        applied: Vec<usize>,
        failed: Vec<usize>,
        first: Option<String>,
    ) -> (r: (ShardError, RepairNotice))
        requires
            old(self).wf(),
        ensures
            final(self).wf(),
            final(self).pending() == put(
                old(self).pending(),
                repair_key(),
                RepairView { logical, mutation: mutation@, failed_shards: failed@ },
            ),
            r.0@ == (ShardErrorView::PartiallyApplied {
                logical,
                applied: applied@,
                failed: failed@,
                detail: first_error(crate::text::opt_text(first)),
            }),
            r.1.detail@ == "logical "@ + decimal(logical as nat) + ": applied on "@ + list_text(
                applied@,
            ) + ", failed on "@ + list_text(failed@),
            r.1.error@ == first_error(crate::text::opt_text(first)),
    {
        let error = match first {
            Some(e) => e,
            None => String::from_str("unknown shard error"),
        };
        let mut detail = String::from_str("logical ");
        push_decimal(&mut detail, logical);
        detail.append(": applied on ");
        detail.append(list_of(&applied).as_str());
        detail.append(", failed on ");
        detail.append(list_of(&failed).as_str());
        let kept = copy_shards(&failed);
        self.enqueue(PendingRepair { logical, mutation, failed_shards: kept });
        (
            ShardError::PartiallyApplied { logical, applied, failed, detail: error.clone() },
            RepairNotice { detail, error },
        )
    }

    /// Records how handing a mutation to its shards went, given for each the error that it answered,
    /// if any. Where every shard applied it, nothing of its id is pending any more; else it is
    /// pending for the shards that failed, and the error for the caller and the notice come back.
    pub fn record_apply(
        &mut self,
        mutation: ClusterMutation,
        logical: u64,
        shards: &Vec<usize>,
        outcomes: &Vec<Option<String>>,
    ) -> (r: Option<(ShardError, RepairNotice)>)
        requires
            old(self).wf(),
            shards@.len() == outcomes@.len(),
        ensures
            final(self).wf(),
            ({
                let oc = outcome_views(outcomes@);
                let failed = still_failing(shards@, oc);
                if failed.len() == 0 {
                    r is None && final(self).pending() == without(
                        old(self).pending(),
                        repair_key(),
                        logical as int,
                    )
                } else {
                    &&& final(self).pending() == put(
                        old(self).pending(),
                        repair_key(),
                        RepairView { logical, mutation: mutation@, failed_shards: failed },
                    )
                    &&& r matches Some((e, n)) && e@ == (ShardErrorView::PartiallyApplied {
                        logical,
                        applied: passed_on(shards@, oc),
                        failed,
                        detail: first_error(first_outcome(oc)),
                    }) && n.error@ == first_error(first_outcome(oc)) && n.detail@ == "logical "@
                        + decimal(logical as nat) + ": applied on "@ + list_text(
                        passed_on(shards@, oc),
                    ) + ", failed on "@ + list_text(failed)
                }
            }),
    {
        let ghost oc = outcome_views(outcomes@);
        let n: usize = shards.len();
        let mut applied: Vec<usize> = Vec::new();
        let mut failed: Vec<usize> = Vec::new();
        let mut first: Option<String> = None;
        let mut i: usize = 0;
        while i < n
            invariant
                n == shards@.len(),
                n == outcomes@.len(),
                oc == outcome_views(outcomes@),
                i <= n,
                applied@ == passed_on(shards@.take(i as int), oc.take(i as int)),
                failed@ == still_failing(shards@.take(i as int), oc.take(i as int)),
                crate::text::opt_text(first) == first_outcome(oc.take(i as int)),
            decreases n - i,
        {
            proof {
                assert(shards@.take(i + 1).drop_last() =~= shards@.take(i as int));
                assert(oc.take(i + 1).drop_last() =~= oc.take(i as int));
                assert(oc.take(i + 1).last() == crate::text::opt_text(outcomes@[i as int]));
            }
            match &outcomes[i] {
                Some(e) => {
                    failed.push(shards[i]);
                    if first.is_none() {
                        first = Some(e.clone());
                    }
                },
                None => {
                    applied.push(shards[i]);
                },
            }
            i = i + 1;
        }
        proof {
            assert(shards@.take(n as int) =~= shards@);
            assert(oc.take(n as int) =~= oc);
        }
        if failed.len() == 0 {
            self.clear_pending(logical);
            None
        } else {
            Some(self.note_partial(mutation, logical, applied, failed, first))
        }
    }

    /// Drops the pending mutation of an id: a later one reached every shard.
    pub fn clear_pending(&mut self, logical: u64)
        requires
            old(self).wf(),
        ensures
            final(self).wf(),
            final(self).pending() == without(old(self).pending(), repair_key(), logical as int),
    {
        let ghost before = self.pending@;
        let ghost view = |p: PendingRepair| p@;
        take_out(&mut self.pending, logical as u128);
        proof {
            lemma_without_map(
                before,
                key_of::<PendingRepair>(),
                view,
                repair_key(),
                logical as int,
            );
            lemma_without(repair_views(before), repair_key(), logical as int);
        }
    }

    /// Takes every pending mutation out, in the order of their id.
    pub fn drain(&mut self) -> (r: Vec<PendingRepair>)
        ensures
            repair_views(r@) == old(self).pending(),
            final(self).wf(),
            final(self).pending() == Seq::<RepairView>::empty(),
    {
        let mut r: Vec<PendingRepair> = Vec::new();
        std::mem::swap(&mut r, &mut self.pending);
        assert(self.pending() =~= Seq::<RepairView>::empty());
        r
    }

    /// Whether a mutation of this id is pending. One that was taken out is then stale and must not
    /// be driven again.
    pub fn is_queued(&self, logical: u64) -> (r: bool)
        ensures
            r == queued(self.pending(), logical),
    {
        let n: usize = self.pending.len();
        let ghost all = self.pending();
        let mut i: usize = 0;
        while i < n
            invariant
                n == self.pending@.len(),
                all == repair_views(self.pending@),
                i <= n,
                forall|k: int| 0 <= k < i ==> (#[trigger] all[k]).logical != logical,
            decreases n - i,
        {
            assert(all[i as int] == self.pending@[i as int]@);
            if self.pending[i].logical == logical {
                return true;
            }
            i = i + 1;
        }
        false
    }

    /// Settles a mutation that was driven again on its failed shards, given for each the error
    /// that it answered, if any.
    pub fn settle(&mut self, p: PendingRepair, outcomes: &Vec<Option<String>>) -> (r: RedriveEnd)
        requires
            old(self).wf(),
            outcomes@.len() == p.failed_shards@.len(),
        ensures
            final(self).wf(),
            final(self).pending() == redriven(old(self).pending(), p@, outcome_views(outcomes@)),
            match r {
                RedriveEnd::Superseded => false,
                RedriveEnd::Repaired { frees_id } => still_failing(
                    p.failed_shards@,
                    outcome_views(outcomes@),
                ).len() == 0 && frees_id == (p@.mutation is Remove),
                RedriveEnd::StillPending(notice) => {
                    let left = still_failing(p.failed_shards@, outcome_views(outcomes@));
                    &&& left.len() > 0
                    &&& notice.detail@ == "resync: logical "@ + decimal(p.logical as nat)
                        + " still failing on "@ + list_text(left)
                    &&& notice.error@ == first_error(first_outcome(outcome_views(outcomes@)))
                },
            },
    {
        let ghost pv = p@;
        let ghost shards = p.failed_shards@;
        let ghost oc = outcome_views(outcomes@);
        let n: usize = outcomes.len();
        let mut left: Vec<usize> = Vec::new();
        let mut first: Option<String> = None;
        let mut i: usize = 0;
        while i < n
            invariant
                n == outcomes@.len(),
                n == p.failed_shards@.len(),
                shards == p.failed_shards@,
                oc == outcome_views(outcomes@),
                i <= n,
                left@ == still_failing(shards.take(i as int), oc.take(i as int)),
                crate::text::opt_text(first) == first_outcome(oc.take(i as int)),
            decreases n - i,
        {
            proof {
                assert(shards.take(i + 1).drop_last() =~= shards.take(i as int));
                assert(oc.take(i + 1).drop_last() =~= oc.take(i as int));
                assert(oc.take(i + 1).last() == crate::text::opt_text(outcomes@[i as int]));
            }
            match &outcomes[i] {
                Some(e) => {
                    left.push(p.failed_shards[i]);
                    if first.is_none() {
                        first = Some(e.clone());
                    }
                },
                None => {},
            }
            i = i + 1;
        }
        proof {
            assert(shards.take(n as int) =~= shards);
            assert(oc.take(n as int) =~= oc);
        }
        if left.len() == 0 {
            let frees_id = match &p.mutation {
                ClusterMutation::Remove { .. } => true,
                _ => false,
            };
            return RedriveEnd::Repaired { frees_id };
        }
        let mut detail = String::from_str("resync: logical ");
        push_decimal(&mut detail, p.logical);
        detail.append(" still failing on ");
        detail.append(list_of(&left).as_str());
        let error = match first {
            Some(e) => e,
            None => String::from_str("unknown shard error"),
        };
        if !self.is_queued(p.logical) {
            let again = PendingRepair {
                logical: p.logical,
                mutation: p.mutation,
                failed_shards: left,
            };
            assert(again@ == (RepairView { failed_shards: left@, ..pv }));
            self.enqueue(again);
        }
        RedriveEnd::StillPending(RepairNotice { detail, error })
    }
}

fn copy_shards(s: &Vec<usize>) -> (r: Vec<usize>)
    ensures
        r@ == s@,
{
    let mut r: Vec<usize> = Vec::new();
    let n: usize = s.len();
    let mut i: usize = 0;
    while i < n
        invariant
            n == s@.len(),
            i <= n,
            r@ =~= s@.take(i as int),
        decreases n - i,
    {
        r.push(s[i]);
        i = i + 1;
    }
    assert(s@.take(n as int) =~= s@);
    r
}

/// How many ended with every shard in agreement.
pub open spec fn repaired_count(ends: Seq<RedriveEnd>) -> nat {
    ends.filter(|e: RedriveEnd| e is Repaired).len()
}

/// The report of a pass over the pending mutations: one that was dropped for a fresher one counts
/// as pending.
pub fn resync_report(ends: &Vec<RedriveEnd>) -> (r: ResyncReport)
    ensures
        r.repaired == repaired_count(ends@),
        r.repaired + r.still_pending == ends@.len(),
{
    let ghost all = ends@;
    let ghost done = |e: RedriveEnd| e is Repaired;
    let n: usize = ends.len();
    let mut repaired: usize = 0;
    let mut i: usize = 0;
    proof {
        reveal(Seq::filter);
        assert(all.take(0).filter(done) =~= Seq::empty());
    }
    while i < n
        invariant
            n == ends@.len(),
            all == ends@,
            done == (|e: RedriveEnd| e is Repaired),
            i <= n,
            repaired <= i,
            repaired == all.take(i as int).filter(done).len(),
        decreases n - i,
    {
        proof {
            crate::seqs::lemma_filter_step(all, done, i as int);
        }
        match &ends[i] {
            RedriveEnd::Repaired { .. } => {
                repaired = repaired + 1;
            },
            _ => {},
        }
        i = i + 1;
    }
    assert(all.take(n as int) =~= all);
    ResyncReport { repaired, still_pending: n - repaired }
}

/// The ids in use after a mutation reached its shards.
pub open spec fn ids_after(ids: Set<u64>, m: MutationView) -> Set<u64> {
    match m {
        MutationView::Add(row) => ids.insert(row.logical),
        MutationView::Remove(logical) => ids.remove(logical),
        MutationView::Upsert(row) => ids.insert(row.logical),
    }
}

/// Takes the id of a mutation that is replayed, before it is applied: an added id must be free, a
/// replaced one need not be. A removed id stays taken until it is gone from every shard.
pub fn replay_admit(ids: &mut LogicalIdDirectory, m: &ClusterMutation) -> (r: Result<
    (),
    ShardError,
>)
    requires
        old(ids).wf(),
    ensures
        final(ids).wf(),
        final(ids).authoritative == old(ids).authoritative,
        match m@ {
            MutationView::Add(row) => final(ids).ids() == old(ids).ids().insert(row.logical) && (r
                == if old(ids).ids().contains(row.logical) {
                Err::<(), ShardError>(ShardError::DuplicateLogicalId(row.logical))
            } else {
                Ok::<(), ShardError>(())
            }),
            MutationView::Remove(_) => final(ids).ids() == old(ids).ids() && r is Ok,
            MutationView::Upsert(row) => final(ids).ids() == old(ids).ids().insert(row.logical)
                && r is Ok,
        },
{
    match m {
        ClusterMutation::Add { logical, .. } => {
            if ids.insert(*logical) {
                Ok(())
            } else {
                Err(ShardError::DuplicateLogicalId(*logical))
            }
        },
        ClusterMutation::Remove { .. } => Ok(()),
        ClusterMutation::Upsert { logical, .. } => {
            ids.insert(*logical);
            Ok(())
        },
    }
}

/// Frees the id of a removal that was applied. For any other mutation the id was taken before.
pub fn replay_applied(ids: &mut LogicalIdDirectory, m: &ClusterMutation)
    requires
        old(ids).wf(),
    ensures
        final(ids).wf(),
        final(ids).authoritative == old(ids).authoritative,
        final(ids).ids() == match m@ {
            MutationView::Remove(logical) => old(ids).ids().remove(logical),
            _ => old(ids).ids(),
        },
        m@ is Remove || old(ids).ids().contains(mutated_id(m@))
            ==> final(ids).ids() == ids_after(old(ids).ids(), m@),
{
    match m {
        ClusterMutation::Remove { logical } => {
            ids.remove(*logical);
        },
        _ => {
            assert(ids.ids().contains(mutated_id(m@)) ==> ids.ids().insert(mutated_id(m@))
                =~= ids.ids());
        },
    }
}

/// The later of two failures of one id is the one that is pending, and no other id is touched.
pub proof fn law_latest_failure_is_pending(q: Seq<RepairView>, r: RepairView, other: RepairView)
    requires
        strictly_ascending(q, repair_key()),
        other.logical != r.logical,
    ensures
        put(q, repair_key(), r).contains(r),
        queued(put(q, repair_key(), r), r.logical),
        put(q, repair_key(), r).contains(other) <==> q.contains(other),
        forall|x: RepairView|
            x.logical == r.logical && #[trigger] put(q, repair_key(), r).contains(x) ==> x == r,
{
    lemma_put(q, repair_key(), r);
    let after = put(q, repair_key(), r);
    assert(after.contains(r));
    let i = choose|i: int| 0 <= i < after.len() && after[i] == r;
    assert(after[i].logical == r.logical);
}

/// What was cleared is not driven again, and no other id is touched.
pub proof fn law_cleared_is_not_driven_again(q: Seq<RepairView>, logical: u64, other: RepairView)
    requires
        strictly_ascending(q, repair_key()),
        other.logical != logical,
    ensures
        !queued(without(q, repair_key(), logical as int), logical),
        without(q, repair_key(), logical as int).contains(other) <==> q.contains(other),
{
    lemma_without(q, repair_key(), logical as int);
    let after = without(q, repair_key(), logical as int);
    if queued(after, logical) {
        let i = choose|i: int| 0 <= i < after.len() && (#[trigger] after[i]).logical == logical;
        assert(after.contains(after[i]));
    }
}

/// A mutation that some shard still lacks stays pending, or a fresher one of its id is.
pub proof fn law_resync_forgets_nothing(
    q: Seq<RepairView>,
    r: RepairView,
    outcomes: Seq<Option<Seq<char>>>,
)
    requires
        strictly_ascending(q, repair_key()),
        still_failing(r.failed_shards, outcomes).len() > 0,
    ensures
        queued(redriven(q, r, outcomes), r.logical),
{
    if !queued(q, r.logical) {
        let again = RepairView { failed_shards: still_failing(r.failed_shards, outcomes), ..r };
        lemma_put(q, repair_key(), again);
        let after = put(q, repair_key(), again);
        assert(after.contains(again));
        let i = choose|i: int| 0 <= i < after.len() && after[i] == again;
        assert(after[i].logical == r.logical);
    }
}

/// A fresher mutation is never replaced by the one that was driven again.
pub proof fn law_resync_keeps_the_fresher(
    q: Seq<RepairView>,
    r: RepairView,
    outcomes: Seq<Option<Seq<char>>>,
)
    requires
        queued(q, r.logical),
    ensures
        redriven(q, r, outcomes) == q,
{
}

/// The queue after a pass over mutations that were taken out of it.
pub open spec fn passed(
    q: Seq<RepairView>,
    drained: Seq<RepairView>,
    outcomes: Seq<Seq<Option<Seq<char>>>>,
) -> Seq<RepairView>
    decreases drained.len(),
{
    if drained.len() == 0 || outcomes.len() != drained.len() {
        q
    } else {
        redriven(
            passed(q, drained.drop_last(), outcomes.drop_last()),
            drained.last(),
            outcomes.last(),
        )
    }
}

/// Where every shard applies what it lacked, a pass leaves nothing pending.
pub proof fn law_resync_converges(
    drained: Seq<RepairView>,
    outcomes: Seq<Seq<Option<Seq<char>>>>,
)
    requires
        drained.len() == outcomes.len(),
        forall|i: int|
            0 <= i < drained.len() ==> still_failing(
                (#[trigger] drained[i]).failed_shards,
                outcomes[i],
            ).len() == 0,
    ensures
        passed(Seq::empty(), drained, outcomes) == Seq::<RepairView>::empty(),
    decreases drained.len(),
{
    if drained.len() > 0 {
        let d = drained.drop_last();
        let o = outcomes.drop_last();
        assert forall|i: int| 0 <= i < d.len() implies still_failing(
            (#[trigger] d[i]).failed_shards,
            o[i],
        ).len() == 0 by {
            assert(d[i] == drained[i]);
            assert(o[i] == outcomes[i]);
        }
        law_resync_converges(d, o);
        assert(drained.last() == drained[drained.len() - 1]);
    }
}

/// The mutations of a pass that some shard still lacks, each with the shards that lack it.
pub open spec fn lagging(
    drained: Seq<RepairView>,
    outcomes: Seq<Seq<Option<Seq<char>>>>,
) -> Seq<RepairView>
    decreases drained.len(),
{
    if drained.len() == 0 || outcomes.len() != drained.len() {
        Seq::empty()
    } else {
        let before = lagging(drained.drop_last(), outcomes.drop_last());
        let r = drained.last();
        let left = still_failing(r.failed_shards, outcomes.last());
        if left.len() == 0 {
            before
        } else {
            before.push(RepairView { failed_shards: left, ..r })
        }
    }
}

proof fn lemma_lagging(drained: Seq<RepairView>, outcomes: Seq<Seq<Option<Seq<char>>>>)
    requires
        drained.len() == outcomes.len(),
        strictly_ascending(drained, repair_key()),
    ensures
        strictly_ascending(lagging(drained, outcomes), repair_key()),
        forall|i: int|
            0 <= i < lagging(drained, outcomes).len() ==> exists|j: int|
                0 <= j < drained.len() && (#[trigger] drained[j]).logical == (#[trigger] lagging(
                    drained,
                    outcomes,
                )[i]).logical,
        passed(Seq::empty(), drained, outcomes) == lagging(drained, outcomes),
    decreases drained.len(),
{
    if drained.len() > 0 {
        let d = drained.drop_last();
        let o = outcomes.drop_last();
        let r = drained.last();
        let key = repair_key();
        lemma_lagging(d, o);
        let before = lagging(d, o);
        let after = lagging(drained, outcomes);
        let left = still_failing(r.failed_shards, outcomes.last());
        assert forall|i: int| 0 <= i < before.len() implies (#[trigger] before[i]).logical
            < r.logical by {
            let j = choose|j: int| 0 <= j < d.len() && (#[trigger] d[j]).logical == before[i].logical;
            assert(d[j] == drained[j]);
            assert(key(drained[j]) < key(drained[drained.len() - 1]));
        }
        assert(!queued(before, r.logical));
        assert forall|i: int| 0 <= i < after.len() implies exists|j: int|
            0 <= j < drained.len() && (#[trigger] drained[j]).logical == (
            #[trigger] after[i]).logical by {
            if i < before.len() {
                let j = choose|j: int|
                    0 <= j < d.len() && (#[trigger] d[j]).logical == before[i].logical;
                assert(drained[j].logical == after[i].logical);
            } else {
                assert(drained[drained.len() - 1].logical == after[i].logical);
            }
        }
        if left.len() > 0 {
            let x = RepairView { failed_shards: left, ..r };
            assert(strictly_ascending(after, key)) by {
                assert forall|i: int, j: int| 0 <= i < j < after.len() implies key(
                    #[trigger] after[i],
                ) < key(#[trigger] after[j]) by {
                    if j == before.len() {
                        assert(before[i].logical < r.logical);
                    }
                }
            }
            lemma_put(before, key, x);
            let p = put(before, key, x);
            assert forall|y: RepairView| #[trigger] p.contains(y) <==> after.contains(y) by {
                assert(p.contains(y) <==> (y == x || (before.contains(y) && key(y) != key(x))));
                if before.contains(y) {
                    let i = choose|i: int| 0 <= i < before.len() && before[i] == y;
                    assert(after[i] == y);
                }
                if after.contains(y) {
                    let i = choose|i: int| 0 <= i < after.len() && after[i] == y;
                    if i < before.len() {
                        assert(before[i] == y);
                    }
                }
                assert(after[before.len() as int] == x);
            }
            lemma_strictly_ascending_unique(p, after, key);
        }
    }
}

/// A whole pass over what was pending, with nothing new in between, accounts for all of it: what
/// was repaired and what is still pending add up to what was queued, and what is queued afterwards
/// is exactly what is still pending, each for the shards that still lack it.
pub proof fn law_resync_pass_accounts_for_everything(
    drained: Seq<RepairView>,
    outcomes: Seq<Seq<Option<Seq<char>>>>,
    ends: Seq<RedriveEnd>,
)
    requires
        strictly_ascending(drained, repair_key()),
        drained.len() == outcomes.len(),
        drained.len() == ends.len(),
        forall|i: int|
            0 <= i < drained.len() ==> (#[trigger] ends[i] is Repaired <==> still_failing(
                drained[i].failed_shards,
                outcomes[i],
            ).len() == 0),
    ensures
        passed(Seq::empty(), drained, outcomes) == lagging(drained, outcomes),
        repaired_count(ends) + lagging(drained, outcomes).len() == drained.len(),
{
    lemma_lagging(drained, outcomes);
    lemma_counts(drained, outcomes, ends);
}

proof fn lemma_counts(
    drained: Seq<RepairView>,
    outcomes: Seq<Seq<Option<Seq<char>>>>,
    ends: Seq<RedriveEnd>,
)
    requires
        drained.len() == outcomes.len(),
        drained.len() == ends.len(),
        forall|i: int|
            0 <= i < drained.len() ==> (#[trigger] ends[i] is Repaired <==> still_failing(
                drained[i].failed_shards,
                outcomes[i],
            ).len() == 0),
    ensures
        repaired_count(ends) + lagging(drained, outcomes).len() == drained.len(),
    decreases drained.len(),
{
    reveal(Seq::filter);
    if drained.len() > 0 {
        let d = drained.drop_last();
        let o = outcomes.drop_last();
        let e = ends.drop_last();
        assert forall|i: int| 0 <= i < d.len() implies (#[trigger] e[i] is Repaired
            <==> still_failing(d[i].failed_shards, o[i]).len() == 0) by {
            assert(e[i] == ends[i] && d[i] == drained[i] && o[i] == outcomes[i]);
        }
        lemma_counts(d, o, e);
        let n = drained.len() - 1;
        assert(ends[n] is Repaired <==> still_failing(drained[n].failed_shards, outcomes[n]).len()
            == 0);
    }
}

/// Only shards that lacked a mutation are driven again.
pub proof fn law_only_failed_shards_are_left(
    shards: Seq<usize>,
    outcomes: Seq<Option<Seq<char>>>,
    s: usize,
)
    requires
        still_failing(shards, outcomes).contains(s),
    ensures
        shards.contains(s),
    decreases shards.len(),
{
    if shards.len() > 0 && outcomes.len() == shards.len() {
        let before = still_failing(shards.drop_last(), outcomes.drop_last());
        if before.contains(s) {
            law_only_failed_shards_are_left(shards.drop_last(), outcomes.drop_last(), s);
            let i = choose|i: int| 0 <= i < shards.drop_last().len() && shards.drop_last()[i] == s;
            assert(shards[i] == s);
        } else {
            let all = still_failing(shards, outcomes);
            let i = choose|i: int| 0 <= i < all.len() && all[i] == s;
            if i < before.len() {
                assert(before[i] == s);
            }
            assert(shards[shards.len() - 1] == s);
        }
    }
}

/// The logical id that a mutation is about.
pub open spec fn mutated_id(m: MutationView) -> u64 {
    match m {
        MutationView::Add(row) => row.logical,
        MutationView::Remove(logical) => logical,
        MutationView::Upsert(row) => row.logical,
    }
}

/// The ids in use after a log was replayed.
pub open spec fn ids_replayed(ids: Set<u64>, log: Seq<MutationView>) -> Set<u64>
    decreases log.len(),
{
    if log.len() == 0 {
        ids
    } else {
        ids_after(ids_replayed(ids, log.drop_last()), log.last())
    }
}

/// The last mutation of an id in a log.
pub open spec fn last_of(log: Seq<MutationView>, id: u64) -> Option<MutationView>
    decreases log.len(),
{
    if log.len() == 0 {
        None
    } else if mutated_id(log.last()) == id {
        Some(log.last())
    } else {
        last_of(log.drop_last(), id)
    }
}

/// After a replay an id is in use exactly where its last mutation is not a removal; one that the
/// log does not name is as it was.
pub proof fn law_replay_leaves_the_live_ids(ids: Set<u64>, log: Seq<MutationView>, id: u64)
    ensures
        ids_replayed(ids, log).contains(id) <==> match last_of(log, id) {
            Some(m) => !(m is Remove),
            None => ids.contains(id),
        },
    decreases log.len(),
{
    if log.len() > 0 {
        law_replay_leaves_the_live_ids(ids, log.drop_last(), id);
    }
}

/// The shards that applied and the shards that did not are told apart by what each answered, and
/// none is lost: a shard is left exactly where it answered an error, and counted as done exactly
/// where it did not.
pub proof fn law_each_shard_failed_or_applied(
    shards: Seq<usize>,
    outcomes: Seq<Option<Seq<char>>>,
    s: usize,
)
    requires
        shards.len() == outcomes.len(),
    ensures
        still_failing(shards, outcomes).contains(s) <==> exists|i: int|
            0 <= i < shards.len() && #[trigger] shards[i] == s && outcomes[i] is Some,
        passed_on(shards, outcomes).contains(s) <==> exists|i: int|
            0 <= i < shards.len() && #[trigger] shards[i] == s && outcomes[i] is None,
        still_failing(shards, outcomes).len() + passed_on(shards, outcomes).len() == shards.len(),
        still_failing(shards, outcomes).len() == outcomes.filter(
            |e: Option<Seq<char>>| e is Some,
        ).len(),
    decreases shards.len(),
{
    reveal(Seq::filter);
    if shards.len() > 0 {
        let d = shards.drop_last();
        let o = outcomes.drop_last();
        let n = shards.len() - 1;
        law_each_shard_failed_or_applied(d, o, s);
        let fd = still_failing(d, o);
        let f = still_failing(shards, outcomes);
        let pd = passed_on(d, o);
        let p = passed_on(shards, outcomes);
        lemma_gained(fd, f, shards.last(), s);
        lemma_gained(pd, p, shards.last(), s);
        assert(shards[n] == shards.last() && outcomes[n] == outcomes.last());
        assert forall|i: int| 0 <= i < n implies #[trigger] shards[i] == d[i] && outcomes[i]
            == o[i] by {}
        if fd.contains(s) {
            let i = choose|i: int| 0 <= i < d.len() && #[trigger] d[i] == s && o[i] is Some;
            assert(shards[i] == s);
        }
        if pd.contains(s) {
            let i = choose|i: int| 0 <= i < d.len() && #[trigger] d[i] == s && o[i] is None;
            assert(shards[i] == s);
        }
        if exists|i: int| 0 <= i < shards.len() && #[trigger] shards[i] == s && outcomes[i] is Some {
            let i = choose|i: int|
                0 <= i < shards.len() && #[trigger] shards[i] == s && outcomes[i] is Some;
            if i < n {
                assert(d[i] == s);
            }
        }
        if exists|i: int| 0 <= i < shards.len() && #[trigger] shards[i] == s && outcomes[i] is None {
            let i = choose|i: int|
                0 <= i < shards.len() && #[trigger] shards[i] == s && outcomes[i] is None;
            if i < n {
                assert(d[i] == s);
            }
        }
    }
}

proof fn lemma_gained<A>(b: Seq<A>, r: Seq<A>, x: A, y: A)
    requires
        r == b || r == b.push(x),
    ensures
        r == b.push(x) ==> (r.contains(y) <==> b.contains(y) || x == y),
        r == b ==> (r.contains(y) <==> b.contains(y)),
{
    let p = b.push(x);
    if b.contains(y) {
        let i = choose|i: int| 0 <= i < b.len() && b[i] == y;
        assert(p[i] == y);
    }
    assert(p[b.len() as int] == x);
    if p.contains(y) && x != y {
        let i = choose|i: int| 0 <= i < p.len() && p[i] == y;
        assert(b[i] == y);
    }
}

/// The error that is reported is the first that came; there is none only where no shard failed.
pub proof fn law_the_first_error_is_reported(outcomes: Seq<Option<Seq<char>>>, i: int)
    requires
        0 <= i < outcomes.len(),
        outcomes[i] is Some,
        forall|j: int| 0 <= j < i ==> (#[trigger] outcomes[j]) is None,
    ensures
        first_outcome(outcomes) == outcomes[i],
    decreases outcomes.len(),
{
    let d = outcomes.drop_last();
    if i < d.len() {
        assert forall|j: int| 0 <= j < i implies (#[trigger] d[j]) is None by {
            assert(outcomes[j] is None);
        }
        law_the_first_error_is_reported(d, i);
    } else {
        assert forall|j: int| 0 <= j < d.len() implies (#[trigger] d[j]) is None by {
            assert(outcomes[j] is None);
        }
        lemma_no_outcome(d);
    }
}

proof fn lemma_no_outcome(outcomes: Seq<Option<Seq<char>>>)
    requires
        forall|j: int| 0 <= j < outcomes.len() ==> (#[trigger] outcomes[j]) is None,
    ensures
        first_outcome(outcomes) is None,
    decreases outcomes.len(),
{
    if outcomes.len() > 0 {
        let d = outcomes.drop_last();
        assert forall|j: int| 0 <= j < d.len() implies (#[trigger] d[j]) is None by {
            assert(outcomes[j] is None);
        }
        lemma_no_outcome(d);
        assert(outcomes[outcomes.len() - 1] is None);
    }
}

/// Driving a mutation again leaves exactly what is due: where every shard applied it, the queue as
/// it was; else the same mutation of the same id, for exactly the shards that failed again, and
/// every other id as it was.
pub proof fn law_what_is_left_is_queued_for_the_shards_that_lack_it(
    q: Seq<RepairView>,
    r: RepairView,
    outcomes: Seq<Option<Seq<char>>>,
    x: RepairView,
)
    requires
        strictly_ascending(q, repair_key()),
        r.failed_shards.len() == outcomes.len(),
        !queued(q, r.logical),
    ensures
        (forall|i: int| 0 <= i < outcomes.len() ==> (#[trigger] outcomes[i]) is None) ==> redriven(
            q,
            r,
            outcomes,
        ) == q,
        redriven(q, r, outcomes).contains(x) && x.logical == r.logical ==> {
            &&& x.mutation == r.mutation
            &&& forall|s: usize| #[trigger]
                x.failed_shards.contains(s) <==> exists|i: int|
                    0 <= i < r.failed_shards.len() && #[trigger] r.failed_shards[i] == s
                        && outcomes[i] is Some
        },
        x.logical != r.logical ==> (redriven(q, r, outcomes).contains(x) <==> q.contains(x)),
{
    let left = still_failing(r.failed_shards, outcomes);
    let again = RepairView { failed_shards: left, ..r };
    lemma_put(q, repair_key(), again);
    assert forall|s: usize| #[trigger] left.contains(s) <==> exists|i: int|
        0 <= i < r.failed_shards.len() && #[trigger] r.failed_shards[i] == s && outcomes[i]
            is Some by {
        law_each_shard_failed_or_applied(r.failed_shards, outcomes, s);
    }
    if left.len() > 0 && forall|i: int|
        0 <= i < outcomes.len() ==> (#[trigger] outcomes[i]) is None {
        assert(left.contains(left[0]));
        let i = choose|i: int|
            0 <= i < r.failed_shards.len() && #[trigger] r.failed_shards[i] == left[0]
                && outcomes[i] is Some;
        assert(outcomes[i] is None);
    }
    if q.contains(x) && x.logical == r.logical {
        let i = choose|i: int| 0 <= i < q.len() && q[i] == x;
        assert(q[i].logical == r.logical);
    }
}

} // verus!
