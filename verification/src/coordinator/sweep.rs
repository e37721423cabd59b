//! Sweeps over many positions: how each target is moved, and what is reported.
use crate::allocator::{entry, find_position};
use crate::control::{ClusterState, NodeId, ShardAssignment};
use crate::coordinator::reassign::ReassignOutcome;
use crate::order::{insertion_sort, key_of, lemma_stable_sort_map, stable_sort, Keyed};
use crate::seqs::lemma_filter_step;
use vstd::prelude::*;

verus! {

/// How one target is moved.
#[derive(Debug, Clone, Copy, PartialEq, Eq, Structural)]
pub enum MoveShape {
    /// As one shard: neither the committed nor the desired group has replicas.
    Single,
    /// As a group.
    Group,
}

/// Decides how a target is moved.
pub fn move_shape(state: &ClusterState, position: u32, desired: &ShardAssignment) -> (r: MoveShape)
    ensures
        r == (if desired.replicas@.len() == 0 && match entry(state@.assignments, position) {
            Some(c) => c.replicas.len() == 0,
            None => true,
        } {
            MoveShape::Single
        } else {
            MoveShape::Group
        }),
{
    let committed_bare: bool = match find_position(&state.assignments, position) {
        Some(i) => state.assignments[i].replicas.len() == 0,
        None => true,
    };
    if committed_bare && desired.replicas.len() == 0 {
        MoveShape::Single
    } else {
        MoveShape::Group
    }
}

/// What became of one target: an outcome, or the message of a failure that rolled back.
pub type MoveResult = Result<ReassignOutcome, String>;

/// The result of one target, as a mathematical value.
pub ghost enum ResultView {
    Outcome(ReassignOutcome),
    Failed(Seq<char>),
}

/// The results as mathematical values.
pub open spec fn result_views(v: Seq<(u32, MoveResult)>) -> Seq<(u32, ResultView)> {
    v.map_values(
        |x: (u32, MoveResult)|
            (
                x.0,
                match x.1 {
                    Ok(o) => ResultView::Outcome(o),
                    Err(m) => ResultView::Failed(m@),
                },
            ),
    )
}

/// Moved or reconciled, and committed.
pub open spec fn is_moved(r: ResultView) -> bool {
    r matches ResultView::Outcome(o) && (o is Moved || o is Reconciled)
}

/// Failed, or moved without a commit.
pub open spec fn is_failure(r: ResultView) -> bool {
    match r {
        ResultView::Outcome(o) => o is MovedButNotCommitted,
        ResultView::Failed(_) => true,
    }
}

pub open spec fn moved_result() -> spec_fn((u32, ResultView)) -> bool {
    |x: (u32, ResultView)| is_moved(x.1)
}

pub open spec fn failed_result() -> spec_fn((u32, ResultView)) -> bool {
    |x: (u32, ResultView)| is_failure(x.1)
}

pub open spec fn result_position() -> spec_fn((u32, ResultView)) -> u32 {
    |x: (u32, ResultView)| x.0
}

/// What a failure is reported as.
pub open spec fn failure_text(r: ResultView) -> Seq<char> {
    match r {
        ResultView::Failed(m) => m,
        ResultView::Outcome(_) =>
            "data moved but committing the new owner failed (see the emitted event); stopped the rebalance so the durable map stays reconcilable — re-run to resume"@,
    }
}

// ---- rebalancing: stop at the first wave that fails ----

/// What a rebalance did.
#[derive(Debug, Clone, PartialEq, Eq)]
pub struct RebalanceMoveReport {
    /// The positions that are committed where they belong, sorted.
    pub moved: Vec<u32>,
    /// The first failure.
    pub failed: Option<(u32, String)>,
    /// The positions that are left for a later run, sorted.
    pub not_attempted: Vec<u32>,
}

impl Default for RebalanceMoveReport {
    fn default() -> (r: Self)
        ensures
            r.moved@.len() == 0,
            r.failed is None,
            r.not_attempted@.len() == 0,
    {
        RebalanceMoveReport { moved: Vec::new(), failed: None, not_attempted: Vec::new() }
    }
}

/// Whether a wave failed, so that the sweep stops behind it.
pub fn wave_failed(results: &Vec<(u32, MoveResult)>) -> (r: bool)
    ensures
        r == exists|i: int|
            0 <= i < results@.len() && is_failure((#[trigger] result_views(results@)[i]).1),
{
    let n: usize = results.len();
    let ghost v = result_views(results@);
    let mut i: usize = 0;
    while i < n
        invariant
            n == results@.len(),
            v == result_views(results@),
            i <= n,
            forall|k: int| 0 <= k < i ==> !is_failure((#[trigger] v[k]).1),
        decreases n - i,
    {
        if failing(&results[i].1) {
            assert(is_failure(v[i as int].1));
            return true;
        }
        assert(!is_failure(v[i as int].1));
        i = i + 1;
    }
    false
}

fn failing(r: &MoveResult) -> (b: bool)
    ensures
        b == is_failure(
            match r {
                Ok(o) => ResultView::Outcome(*o),
                Err(m) => ResultView::Failed(m@),
            },
        ),
{
    match r {
        Ok(ReassignOutcome::MovedButNotCommitted { .. }) => true,
        Ok(_) => false,
        Err(_) => true,
    }
}

/// The report of a rebalance: what was moved, the first failure, and what is left.
pub open spec fn rebalance_reported(
    r: RebalanceMoveReport,
    v: Seq<(u32, ResultView)>,
    left: Seq<u32>,
) -> bool {
    let failures = v.filter(failed_result());
    &&& r.moved@ == stable_sort(
        v.filter(moved_result()).map_values(result_position()),
        key_of::<u32>(),
    )
    &&& match r.failed {
        Some((p, m)) => failures.len() > 0 && p == failures[0].0 && m@ == failure_text(
            failures[0].1,
        ),
        None => failures.len() == 0,
    }
    &&& r.not_attempted@ == stable_sort(
        (if failures.len() > 0 {
            failures.skip(1)
        } else {
            failures
        }).map_values(result_position()) + left,
        key_of::<u32>(),
    )
}

/// Reports a rebalance from the results of the waves that ran, in order, and the positions of the
/// waves that did not.
pub fn rebalance_report(results: Vec<(u32, MoveResult)>, left: Vec<u32>) -> (r: RebalanceMoveReport)
    ensures
        rebalance_reported(r, result_views(results@), left@),
{
    let ghost all = results@;
    let ghost v = result_views(all);
    let ghost pos = result_position();
    let mut moved: Vec<u32> = Vec::new();
    let mut failed: Option<(u32, String)> = None;
    let mut rest: Vec<u32> = Vec::new();
    proof {
        reveal(Seq::filter);
        assert(moved@ =~= v.take(0).filter(moved_result()).map_values(pos));
        assert(v.take(0).filter(failed_result()).len() == 0);
        assert(rest@ =~= v.take(0).filter(failed_result()).map_values(pos));
    }
    for x in it: results.into_iter()
        invariant
            it.seq() == all,
            v == result_views(all),
            pos == result_position(),
            moved@ == v.take(it.index()).filter(moved_result()).map_values(pos),
            match failed {
                Some((p, m)) => v.take(it.index()).filter(failed_result()).len() > 0 && p == v.take(
                    it.index(),
                ).filter(failed_result())[0].0 && m@ == failure_text(
                    v.take(it.index()).filter(failed_result())[0].1,
                ) && rest@ == v.take(it.index()).filter(failed_result()).skip(1).map_values(pos),
                None => v.take(it.index()).filter(failed_result()).len() == 0 && rest@.len() == 0,
            },
    {
        let ghost i = it.index();
        let ghost f0 = v.take(i).filter(failed_result());
        let ghost m0 = v.take(i).filter(moved_result());
        proof {
            lemma_filter_step(v, moved_result(), i);
            lemma_filter_step(v, failed_result(), i);
            assert(v[i].0 == x.0);
            assert(m0.push(v[i]).map_values(pos) =~= m0.map_values(pos).push(x.0));
        }
        let p: u32 = x.0;
        match x.1 {
            Ok(ReassignOutcome::Moved { .. }) => {
                moved.push(p);
            },
            Ok(ReassignOutcome::Reconciled { .. }) => {
                moved.push(p);
            },
            Ok(ReassignOutcome::NoChange { .. }) => {},
            Ok(ReassignOutcome::MovedButNotCommitted { .. }) => {
                proof {
                    assert(f0.push(v[i]).skip(1) =~= if f0.len() > 0 {
                        f0.skip(1).push(v[i])
                    } else {
                        Seq::empty()
                    });
                    assert(f0.skip(1).push(v[i]).map_values(pos) =~= f0.skip(1).map_values(
                        pos,
                    ).push(p));
                }
                if failed.is_none() {
                    failed =
                    Some(
                        (
                            p,
                            String::from_str(
                                "data moved but committing the new owner failed (see the emitted event); stopped the rebalance so the durable map stays reconcilable — re-run to resume",
                            ),
                        ),
                    );
                    assert(rest@ =~= f0.push(v[i]).skip(1).map_values(pos));
                } else {
                    rest.push(p);
                }
            },
            Err(m) => {
                proof {
                    assert(f0.push(v[i]).skip(1) =~= if f0.len() > 0 {
                        f0.skip(1).push(v[i])
                    } else {
                        Seq::empty()
                    });
                    assert(f0.skip(1).push(v[i]).map_values(pos) =~= f0.skip(1).map_values(
                        pos,
                    ).push(p));
                }
                if failed.is_none() {
                    failed = Some((p, m));
                    assert(rest@ =~= f0.push(v[i]).skip(1).map_values(pos));
                } else {
                    rest.push(p);
                }
            },
        }
    }
    proof {
        assert(v.take(all.len() as int) =~= v);
        let failures = v.filter(failed_result());
        if failures.len() == 0 {
            assert(rest@ =~= failures.map_values(pos));
        }
    }
    let ghost before = rest@;
    let mut left = left;
    let ghost l = left@;
    rest.append(&mut left);
    assert(rest@ =~= before + l);
    insertion_sort(&mut moved);
    insertion_sort(&mut rest);
    RebalanceMoveReport { moved, failed, not_attempted: rest }
}

// ---- reconciling: every target is tried ----

/// What a reconcile pass did. Every list is sorted by position.
#[derive(Debug, Clone, PartialEq, Eq)]
pub struct ReconcileReport {
    /// Committed where they belong.
    pub reconciled: Vec<u32>,
    /// Already in place.
    pub skipped: Vec<u32>,
    /// Moved, but not committed: position, old and new primary.
    pub uncommitted: Vec<(u32, NodeId, NodeId)>,
    /// Rolled back, with the error.
    pub failed: Vec<(u32, String)>,
}

impl Default for ReconcileReport {
    fn default() -> (r: Self)
        ensures
            r.reconciled@.len() == 0,
            r.skipped@.len() == 0,
            r.uncommitted@.len() == 0,
            r.failed@.len() == 0,
    {
        ReconcileReport {
            reconciled: Vec::new(),
            skipped: Vec::new(),
            uncommitted: Vec::new(),
            failed: Vec::new(),
        }
    }
}

impl Keyed for (u32, NodeId, NodeId) {
    open spec fn key(&self) -> int {
        self.0 as int
    }

    fn sort_key(&self) -> (k: u128) {
        self.0 as u128
    }
}

impl Keyed for (u32, String) {
    open spec fn key(&self) -> int {
        self.0 as int
    }

    fn sort_key(&self) -> (k: u128) {
        self.0 as u128
    }
}

pub open spec fn skipped_result() -> spec_fn((u32, ResultView)) -> bool {
    |x: (u32, ResultView)| x.1 matches ResultView::Outcome(o) && o is NoChange
}

pub open spec fn uncommitted_result() -> spec_fn((u32, ResultView)) -> bool {
    |x: (u32, ResultView)| x.1 matches ResultView::Outcome(o) && o is MovedButNotCommitted
}

pub open spec fn error_result() -> spec_fn((u32, ResultView)) -> bool {
    |x: (u32, ResultView)| x.1 is Failed
}

/// The position and the primaries of an uncommitted result.
pub open spec fn uncommitted_entry() -> spec_fn((u32, ResultView)) -> (u32, NodeId, NodeId) {
    |x: (u32, ResultView)|
        match x.1 {
            ResultView::Outcome(ReassignOutcome::MovedButNotCommitted { from, to, .. }) => (
                x.0,
                from,
                to,
            ),
            _ => (x.0, NodeId(0), NodeId(0)),
        }
}

/// The position and the message of a failed result.
pub open spec fn error_entry() -> spec_fn((u32, ResultView)) -> (u32, Seq<char>) {
    |x: (u32, ResultView)|
        match x.1 {
            ResultView::Failed(m) => (x.0, m),
            _ => (x.0, Seq::empty()),
        }
}

/// The failures as mathematical values.
pub open spec fn failure_views(v: Seq<(u32, String)>) -> Seq<(u32, Seq<char>)> {
    v.map_values(|x: (u32, String)| (x.0, x.1@))
}

/// The key of a failure.
pub open spec fn failure_key() -> spec_fn((u32, Seq<char>)) -> int {
    |x: (u32, Seq<char>)| x.0 as int
}

/// The report of a reconcile pass.
pub open spec fn reconcile_reported(r: ReconcileReport, v: Seq<(u32, ResultView)>) -> bool {
    &&& r.reconciled@ == stable_sort(
        v.filter(moved_result()).map_values(result_position()),
        key_of::<u32>(),
    )
    &&& r.skipped@ == stable_sort(
        v.filter(skipped_result()).map_values(result_position()),
        key_of::<u32>(),
    )
    &&& r.uncommitted@ == stable_sort(
        v.filter(uncommitted_result()).map_values(uncommitted_entry()),
        key_of::<(u32, NodeId, NodeId)>(),
    )
    &&& failure_views(r.failed@) == stable_sort(
        v.filter(error_result()).map_values(error_entry()),
        failure_key(),
    )
}

/// Reports a reconcile pass from the results of all its targets.
pub fn reconcile_report(results: Vec<(u32, MoveResult)>) -> (r: ReconcileReport)
    ensures
        reconcile_reported(r, result_views(results@)),
{
    let ghost all = results@;
    let ghost v = result_views(all);
    let mut r = ReconcileReport::default();
    proof {
        reveal(Seq::filter);
        assert(r.reconciled@ =~= v.take(0).filter(moved_result()).map_values(result_position()));
        assert(r.skipped@ =~= v.take(0).filter(skipped_result()).map_values(result_position()));
        assert(r.uncommitted@ =~= v.take(0).filter(uncommitted_result()).map_values(
            uncommitted_entry(),
        ));
        assert(failure_views(r.failed@) =~= v.take(0).filter(error_result()).map_values(
            error_entry(),
        ));
    }
    for x in it: results.into_iter()
        invariant
            it.seq() == all,
            v == result_views(all),
            r.reconciled@ == v.take(it.index()).filter(moved_result()).map_values(
                result_position(),
            ),
            r.skipped@ == v.take(it.index()).filter(skipped_result()).map_values(result_position()),
            r.uncommitted@ == v.take(it.index()).filter(uncommitted_result()).map_values(
                uncommitted_entry(),
            ),
            failure_views(r.failed@) == v.take(it.index()).filter(error_result()).map_values(
                error_entry(),
            ),
    {
        let ghost i = it.index();
        proof {
            lemma_filter_step(v, moved_result(), i);
            lemma_filter_step(v, skipped_result(), i);
            lemma_filter_step(v, uncommitted_result(), i);
            lemma_filter_step(v, error_result(), i);
            lemma_push_map(v.take(i).filter(moved_result()), v[i], result_position());
            lemma_push_map(v.take(i).filter(skipped_result()), v[i], result_position());
            lemma_push_map(v.take(i).filter(uncommitted_result()), v[i], uncommitted_entry());
            lemma_push_map(v.take(i).filter(error_result()), v[i], error_entry());
        }
        let p: u32 = x.0;
        match x.1 {
            Ok(ReassignOutcome::Moved { .. }) => {
                r.reconciled.push(p);
            },
            Ok(ReassignOutcome::Reconciled { .. }) => {
                r.reconciled.push(p);
            },
            Ok(ReassignOutcome::NoChange { .. }) => {
                r.skipped.push(p);
            },
            Ok(ReassignOutcome::MovedButNotCommitted { from, to, .. }) => {
                r.uncommitted.push((p, from, to));
            },
            Err(m) => {
                let ghost before = r.failed@;
                let ghost mv = m@;
                r.failed.push((p, m));
                assert(failure_views(r.failed@) =~= failure_views(before).push((p, mv)));
            },
        }
    }
    assert(v.take(all.len() as int) =~= v);
    insertion_sort(&mut r.reconciled);
    insertion_sort(&mut r.skipped);
    insertion_sort(&mut r.uncommitted);
    let ghost fails = r.failed@;
    insertion_sort(&mut r.failed);
    proof {
        lemma_stable_sort_map(
            fails,
            key_of::<(u32, String)>(),
            |x: (u32, String)| (x.0, x.1@),
            failure_key(),
        );
    }
    r
}

proof fn lemma_push_map<A, B>(s: Seq<A>, x: A, f: spec_fn(A) -> B)
    ensures
        s.push(x).map_values(f) == s.map_values(f).push(f(x)),
{
    assert(s.push(x).map_values(f) =~= s.map_values(f).push(f(x)));
}

impl ReconcileReport {
    /// Whether nothing is pending.
    pub fn is_converged(&self) -> (r: bool)
        ensures
            r == (self.uncommitted@.len() == 0 && self.failed@.len() == 0),
    {
        self.uncommitted.len() == 0 && self.failed.len() == 0
    }

    /// How many positions were committed where they belong.
    pub fn moved_count(&self) -> (r: usize)
        ensures
            r == self.reconciled@.len(),
    {
        self.reconciled.len()
    }
}

/// A length of time in milliseconds.
#[derive(Clone, Copy, Debug, PartialEq, Eq, Structural)]
pub struct Millis(pub u64);

/// How the unattended reconciler is driven.
#[derive(Clone, Debug)]
pub struct ReconcileConfig {
    /// Whether it runs at all.
    pub enabled: bool,
    /// The replication factor to plan with.
    pub rf: usize,
    /// The least time between two passes.
    pub min_interval: Millis,
    /// How many moves may run at once.
    pub max_parallel_moves: usize,
    /// Whether a pass that leaves the map converged is followed by a sweep of orphaned slots.
    pub gc_orphans: bool,
}

impl Default for ReconcileConfig {
    /// Off; thirty seconds between passes, one move at a time, without copies.
    fn default() -> (r: Self)
        ensures
            !r.enabled,
            r.rf == 1,
            r.min_interval == Millis(30000),
            r.max_parallel_moves == 1,
            !r.gc_orphans,
    {
        ReconcileConfig {
            enabled: false,
            rf: 1,
            min_interval: Millis(30000),
            max_parallel_moves: 1,
            gc_orphans: false,
        }
    }
}

// ---- laws ----

/// A pass that found nothing to do is converged.
pub proof fn law_empty_pass_reports_nothing(v: Seq<(u32, ResultView)>)
    requires
        v.len() == 0,
    ensures
        v.filter(moved_result()).len() == 0,
        v.filter(skipped_result()).len() == 0,
        v.filter(uncommitted_result()).len() == 0,
        v.filter(error_result()).len() == 0,
{
    reveal(Seq::filter);
}

/// Every target of a pass is reported exactly once.
pub proof fn law_every_target_is_reported_once(v: Seq<(u32, ResultView)>)
    ensures
        v.filter(moved_result()).len() + v.filter(skipped_result()).len() + v.filter(
            uncommitted_result(),
        ).len() + v.filter(error_result()).len() == v.len(),
        v.filter(moved_result()).len() + v.filter(skipped_result()).len() + v.filter(
            failed_result(),
        ).len() == v.len(),
    decreases v.len(),
{
    reveal(Seq::filter);
    if v.len() > 0 {
        law_every_target_is_reported_once(v.drop_last());
        let o = v.last().1;
        match o {
            ResultView::Outcome(x) => {
                match x {
                    ReassignOutcome::NoChange { .. } => {},
                    ReassignOutcome::Moved { .. } => {},
                    ReassignOutcome::Reconciled { .. } => {},
                    ReassignOutcome::MovedButNotCommitted { .. } => {},
                }
            },
            ResultView::Failed(_) => {},
        }
    }
}

proof fn lemma_picked(v: Seq<(u32, ResultView)>, q: spec_fn((u32, ResultView)) -> bool, p: u32)
    ensures
        stable_sort(v.filter(q).map_values(result_position()), key_of::<u32>()).contains(p)
            <==> exists|i: int| 0 <= i < v.len() && q(#[trigger] v[i]) && v[i].0 == p,
        crate::order::ascending(
            stable_sort(v.filter(q).map_values(result_position()), key_of::<u32>()),
            key_of::<u32>(),
        ),
{
    let f = v.filter(q);
    let m = f.map_values(result_position());
    crate::order::lemma_stable_sort(m, key_of::<u32>());
    crate::seqs::lemma_filter_members(v, q);
    if m.contains(p) {
        let k = choose|k: int| 0 <= k < m.len() && m[k] == p;
        assert(f.contains(f[k]));
        let i = choose|i: int| 0 <= i < v.len() && v[i] == f[k];
        assert(q(v[i]) && v[i].0 == p);
    }
    if exists|i: int| 0 <= i < v.len() && q(#[trigger] v[i]) && v[i].0 == p {
        let i = choose|i: int| 0 <= i < v.len() && q(#[trigger] v[i]) && v[i].0 == p;
        assert(v.contains(v[i]));
        assert(f.contains(v[i]));
        let k = choose|k: int| 0 <= k < f.len() && f[k] == v[i];
        assert(m[k] == p);
    }
}

/// What counts as moved and as failed: a committed move or reconciliation is moved; an error and a
/// move without a commit are failures; a position that was in place is neither.
pub proof fn law_what_counts_as_moved_and_as_failed(o: ReassignOutcome, m: Seq<char>)
    ensures
        is_moved(ResultView::Outcome(o)) <==> o is Moved || o is Reconciled,
        is_failure(ResultView::Outcome(o)) <==> o is MovedButNotCommitted,
        !is_moved(ResultView::Failed(m)),
        is_failure(ResultView::Failed(m)),
        failure_text(ResultView::Failed(m)) == m,
{
}

/// A rebalance reports as moved exactly the positions that were, sorted; as failed the first
/// failure, with its message; and as left every other failure and every position that was not
/// tried.
pub proof fn law_a_rebalance_reports_what_happened(
    r: RebalanceMoveReport,
    v: Seq<(u32, ResultView)>,
    left: Seq<u32>,
    p: u32,
    f: int,
)
    requires
        rebalance_reported(r, v, left),
    ensures
        r.moved@.contains(p) <==> exists|i: int|
            0 <= i < v.len() && is_moved((#[trigger] v[i]).1) && v[i].0 == p,
        crate::order::ascending(r.moved@, key_of::<u32>()),
        r.failed is None <==> forall|i: int| 0 <= i < v.len() ==> !is_failure((#[trigger] v[i]).1),
        0 <= f < v.len() && is_failure(v[f].1) && (forall|i: int|
            0 <= i < f ==> !is_failure((#[trigger] v[i]).1)) ==> (r.failed matches Some((q, m)) && q
            == v[f].0 && m@ == failure_text(v[f].1)),
        0 <= f < v.len() && is_failure(v[f].1) && (forall|i: int|
            0 <= i < f ==> !is_failure((#[trigger] v[i]).1)) ==> (r.not_attempted@.contains(p) <==> (
        left.contains(p) || exists|i: int|
            f < i < v.len() && is_failure((#[trigger] v[i]).1) && v[i].0 == p)),
        r.failed is None ==> (r.not_attempted@.contains(p) <==> left.contains(p)),
        crate::order::ascending(r.not_attempted@, key_of::<u32>()),
{
    let q = failed_result();
    let fs = v.filter(q);
    lemma_picked(v, moved_result(), p);
    crate::seqs::lemma_filter_members(v, q);
    assert(r.moved@.contains(p) <==> exists|i: int|
        0 <= i < v.len() && is_moved((#[trigger] v[i]).1) && v[i].0 == p) by {
        if r.moved@.contains(p) {
            let i = choose|i: int| 0 <= i < v.len() && moved_result()(#[trigger] v[i]) && v[i].0
                == p;
            assert(is_moved(v[i].1));
        }
        if exists|i: int| 0 <= i < v.len() && is_moved((#[trigger] v[i]).1) && v[i].0 == p {
            let i = choose|i: int| 0 <= i < v.len() && is_moved((#[trigger] v[i]).1) && v[i].0 == p;
            assert(moved_result()(v[i]));
        }
    }
    if fs.len() > 0 {
        assert(fs.contains(fs[0]));
        let i = choose|i: int| 0 <= i < v.len() && v[i] == fs[0];
        assert(is_failure(v[i].1));
    } else {
        assert forall|i: int| 0 <= i < v.len() implies !is_failure((#[trigger] v[i]).1) by {
            if is_failure(v[i].1) {
                assert(v.contains(v[i]) && q(v[i]));
                assert(fs.contains(v[i]));
            }
        }
    }
    let rest = (if fs.len() > 0 {
        fs.skip(1)
    } else {
        fs
    }).map_values(result_position());
    crate::order::lemma_stable_sort(rest + left, key_of::<u32>());
    assert(r.not_attempted@.contains(p) <==> rest.contains(p) || left.contains(p)) by {
        let all = rest + left;
        if all.contains(p) {
            let k = choose|k: int| 0 <= k < all.len() && all[k] == p;
            if k < rest.len() {
                assert(rest[k] == p);
            } else {
                assert(left[k - rest.len()] == p);
            }
        }
        if rest.contains(p) {
            let k = choose|k: int| 0 <= k < rest.len() && rest[k] == p;
            assert(all[k] == p);
        }
        if left.contains(p) {
            let k = choose|k: int| 0 <= k < left.len() && left[k] == p;
            assert(all[rest.len() + k] == p);
        }
    }
    if 0 <= f < v.len() && is_failure(v[f].1) && (forall|i: int|
        0 <= i < f ==> !is_failure((#[trigger] v[i]).1)) {
        assert(q(v[f]));
        assert forall|i: int| 0 <= i < f implies !q(#[trigger] v[i]) by {
            assert(!is_failure(v[i].1));
        }
        lemma_first_filtered(v, q, f);
        let tail = v.skip(f + 1);
        let ft = tail.filter(q);
        assert(fs =~= seq![v[f]] + ft);
        assert(fs.skip(1) =~= ft);
        crate::seqs::lemma_filter_members(tail, q);
        if rest.contains(p) {
            let k = choose|k: int| 0 <= k < rest.len() && rest[k] == p;
            assert(ft.contains(ft[k]));
            let i = choose|i: int| 0 <= i < tail.len() && tail[i] == ft[k];
            assert(v[f + 1 + i] == ft[k]);
            assert(is_failure(v[f + 1 + i].1));
        }
        if exists|i: int| f < i < v.len() && is_failure((#[trigger] v[i]).1) && v[i].0 == p {
            let i = choose|i: int| f < i < v.len() && is_failure((#[trigger] v[i]).1) && v[i].0
                == p;
            assert(tail[i - f - 1] == v[i]);
            assert(tail.contains(v[i]) && q(v[i]));
            assert(ft.contains(v[i]));
            let k = choose|k: int| 0 <= k < ft.len() && ft[k] == v[i];
            assert(rest[k] == p);
        }
    }
}

/// What is filtered out of a sequence begins with its first element that passes.
proof fn lemma_first_filtered<A>(s: Seq<A>, q: spec_fn(A) -> bool, f: int)
    requires
        0 <= f < s.len(),
        q(s[f]),
        forall|i: int| 0 <= i < f ==> !q(#[trigger] s[i]),
    ensures
        s.filter(q) == seq![s[f]] + s.skip(f + 1).filter(q),
    decreases s.len(),
{
    reveal(Seq::filter);
    let d = s.drop_last();
    if f < d.len() {
        assert(d[f] == s[f]);
        assert forall|i: int| 0 <= i < f implies !q(#[trigger] d[i]) by {
            assert(!q(s[i]));
        }
        lemma_first_filtered(d, q, f);
        assert(s.skip(f + 1).drop_last() =~= d.skip(f + 1));
        assert(s.skip(f + 1).last() == s.last());
        assert(s.filter(q) =~= seq![s[f]] + s.skip(f + 1).filter(q));
    } else {
        assert forall|i: int| 0 <= i < d.len() implies !q(#[trigger] d[i]) by {
            assert(!q(s[i]));
        }
        lemma_none_filtered(d, q);
        assert(s.skip(f + 1).len() == 0);
        assert(s.filter(q) =~= seq![s[f]] + s.skip(f + 1).filter(q));
    }
}

proof fn lemma_none_filtered<A>(s: Seq<A>, q: spec_fn(A) -> bool)
    requires
        forall|i: int| 0 <= i < s.len() ==> !q(#[trigger] s[i]),
    ensures
        s.filter(q).len() == 0,
    decreases s.len(),
{
    reveal(Seq::filter);
    if s.len() > 0 {
        let d = s.drop_last();
        assert forall|i: int| 0 <= i < d.len() implies !q(#[trigger] d[i]) by {
            assert(!q(s[i]));
        }
        lemma_none_filtered(d, q);
        assert(!q(s[s.len() - 1]));
    }
}

/// A reconcile pass reports each target under what became of it: committed, in place already, moved
/// without a commit with the old and the new primary, or failed with its message.
pub proof fn law_a_pass_reports_what_happened(
    r: ReconcileReport,
    v: Seq<(u32, ResultView)>,
    p: u32,
    from: NodeId,
    to: NodeId,
    m: Seq<char>,
)
    requires
        reconcile_reported(r, v),
    ensures
        r.reconciled@.contains(p) <==> exists|i: int|
            0 <= i < v.len() && is_moved((#[trigger] v[i]).1) && v[i].0 == p,
        r.skipped@.contains(p) <==> exists|i: int|
            0 <= i < v.len() && ((#[trigger] v[i]).1 matches ResultView::Outcome(o) && o
                is NoChange) && v[i].0 == p,
        r.uncommitted@.contains((p, from, to)) <==> exists|i: int|
            0 <= i < v.len() && ((#[trigger] v[i]).1 matches ResultView::Outcome(
                ReassignOutcome::MovedButNotCommitted { from: x, to: y, .. },
            ) && x == from && y == to) && v[i].0 == p,
        failure_views(r.failed@).contains((p, m)) <==> exists|i: int|
            0 <= i < v.len() && (#[trigger] v[i]) == (p, ResultView::Failed(m)),
        crate::order::ascending(r.reconciled@, key_of::<u32>()),
        crate::order::ascending(r.skipped@, key_of::<u32>()),
        crate::order::ascending(r.uncommitted@, key_of::<(u32, NodeId, NodeId)>()),
{
    lemma_picked(v, moved_result(), p);
    lemma_picked(v, skipped_result(), p);
    if r.reconciled@.contains(p) {
        let i = choose|i: int| 0 <= i < v.len() && moved_result()(#[trigger] v[i]) && v[i].0 == p;
        assert(is_moved(v[i].1));
    }
    if exists|i: int| 0 <= i < v.len() && is_moved((#[trigger] v[i]).1) && v[i].0 == p {
        let i = choose|i: int| 0 <= i < v.len() && is_moved((#[trigger] v[i]).1) && v[i].0 == p;
        assert(moved_result()(v[i]));
    }
    if r.skipped@.contains(p) {
        let i = choose|i: int| 0 <= i < v.len() && skipped_result()(#[trigger] v[i]) && v[i].0 == p;
        assert(v[i].1 is Outcome);
    }
    if exists|i: int|
        0 <= i < v.len() && ((#[trigger] v[i]).1 matches ResultView::Outcome(o) && o is NoChange)
            && v[i].0 == p {
        let i = choose|i: int|
            0 <= i < v.len() && ((#[trigger] v[i]).1 matches ResultView::Outcome(o) && o
                is NoChange) && v[i].0 == p;
        assert(skipped_result()(v[i]));
    }
    let u = v.filter(uncommitted_result());
    let um = u.map_values(uncommitted_entry());
    crate::order::lemma_stable_sort(um, key_of::<(u32, NodeId, NodeId)>());
    crate::seqs::lemma_filter_members(v, uncommitted_result());
    if um.contains((p, from, to)) {
        let k = choose|k: int| 0 <= k < um.len() && um[k] == (p, from, to);
        assert(u.contains(u[k]));
        let i = choose|i: int| 0 <= i < v.len() && v[i] == u[k];
        assert(v[i].1 is Outcome);
    }
    if exists|i: int|
        0 <= i < v.len() && ((#[trigger] v[i]).1 matches ResultView::Outcome(
            ReassignOutcome::MovedButNotCommitted { from: x, to: y, .. },
        ) && x == from && y == to) && v[i].0 == p {
        let i = choose|i: int|
            0 <= i < v.len() && ((#[trigger] v[i]).1 matches ResultView::Outcome(
                ReassignOutcome::MovedButNotCommitted { from: x, to: y, .. },
            ) && x == from && y == to) && v[i].0 == p;
        assert(v.contains(v[i]) && uncommitted_result()(v[i]));
        assert(u.contains(v[i]));
        let k = choose|k: int| 0 <= k < u.len() && u[k] == v[i];
        assert(um[k] == (p, from, to));
    }
    let e = v.filter(error_result());
    let em = e.map_values(error_entry());
    crate::order::lemma_stable_sort(em, failure_key());
    crate::seqs::lemma_filter_members(v, error_result());
    if em.contains((p, m)) {
        let k = choose|k: int| 0 <= k < em.len() && em[k] == (p, m);
        assert(e.contains(e[k]));
        let i = choose|i: int| 0 <= i < v.len() && v[i] == e[k];
        assert(v[i] == (p, ResultView::Failed(m)));
    }
    if exists|i: int| 0 <= i < v.len() && (#[trigger] v[i]) == (p, ResultView::Failed(m)) {
        let i = choose|i: int| 0 <= i < v.len() && (#[trigger] v[i]) == (p, ResultView::Failed(m));
        assert(v.contains(v[i]) && error_result()(v[i]));
        assert(e.contains(v[i]));
        let k = choose|k: int| 0 <= k < e.len() && e[k] == v[i];
        assert(em[k] == (p, m));
    }
}

} // verus!
