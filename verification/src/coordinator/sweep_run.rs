//! A sweep over the positions that are not where they belong: wave after wave of moves, and what
//! is reported in the end.
use crate::control::{ClusterState, ShardAssignment};
use crate::coordinator::group_plan::{
    group_targets, keyed_by_position, rebalance_group_targets, target_views,
};
use crate::coordinator::sweep::{
    is_failure, rebalance_report, reconcile_report, result_views, wave_failed, MoveResult,
    RebalanceMoveReport, ReconcileReport, ResultView,
};
use crate::coordinator::waves::{
    law_waves_are_a_conflict_free_schedule, plan_waves, scheduled, wave_views, waves,
};
use crate::shard::{ShardError, ShardErrorView};
use crate::text::{decimal, with_number};
use vstd::prelude::*;

verus! {

/// A sweep on its way.
pub struct Sweep {
    targets: Vec<(u32, ShardAssignment)>,
    waves: Vec<Vec<usize>>,
    next: usize,
    stops: bool,
    stopped: bool,
    results: Vec<(u32, MoveResult)>,
}

/// The positions of the targets in waves from one on.
pub open spec fn positions_from(
    targets: Seq<(u32, ShardAssignment)>,
    waves: Seq<Seq<usize>>,
    from: int,
) -> Seq<u32> {
    scheduled(waves.skip(from)).map_values(|i: usize| targets[i as int].0)
}

/// Some result of a wave is a failure.
pub open spec fn any_failed(results: Seq<(u32, ResultView)>) -> bool {
    exists|i: int| 0 <= i < results.len() && is_failure((#[trigger] results[i]).1)
}

impl Sweep {
    /// The targets: each position and the group it should have.
    pub closed spec fn targets(self) -> Seq<(u32, ShardAssignment)> {
        self.targets@
    }

    /// The waves, as places among the targets.
    pub closed spec fn waves(self) -> Seq<Seq<usize>> {
        wave_views(self.waves@)
    }

    /// How many waves ran.
    pub closed spec fn ran(self) -> nat {
        self.next as nat
    }

    /// Whether a failure ends the sweep.
    pub closed spec fn stops(self) -> bool {
        self.stops
    }

    /// Whether a failure ended it.
    pub closed spec fn stopped(self) -> bool {
        self.stopped
    }

    /// The results so far, in the order of the waves.
    pub closed spec fn results(self) -> Seq<(u32, ResultView)> {
        result_views(self.results@)
    }

    /// The waves name targets; a sweep that does not stop was not stopped.
    pub open spec fn wf(self) -> bool {
        &&& self.ran() <= self.waves().len()
        &&& forall|w: int, i: int|
            0 <= w < self.waves().len() && 0 <= i < self.waves()[w].len() ==> (
            #[trigger] self.waves()[w][i]) < self.targets().len()
        &&& self.stopped() ==> self.stops()
    }

    /// The sweep is over: every wave ran, or a failure ended it.
    pub open spec fn is_over(self) -> bool {
        self.stopped() || self.ran() == self.waves().len()
    }

    fn plan(state: &ClusterState, rf: usize, max_parallel: usize, stops: bool) -> (r: Self)
        ensures
            r.wf(),
            target_views(r.targets()) == group_targets(state@, rf as nat),
            keyed_by_position(r.targets()),
            r.waves() == waves(state@, group_targets(state@, rf as nat), max_parallel as nat),
            r.ran() == 0,
            r.stops() == stops,
            !r.stopped(),
            r.results() == Seq::<(u32, ResultView)>::empty(),
    {
        let targets = rebalance_group_targets(state, rf);
        let planned = plan_waves(state, &targets, max_parallel);
        let r = Sweep {
            targets,
            waves: planned,
            next: 0,
            stops,
            stopped: false,
            results: Vec::new(),
        };
        proof {
            let t = target_views(r.targets@);
            let all = waves(state@, t, max_parallel as nat);
            law_waves_are_a_conflict_free_schedule(state@, t, max_parallel as nat);
            assert(t.len() == r.targets@.len());
            assert forall|w: int, i: int|
                0 <= w < r.waves().len() && 0 <= i < r.waves()[w].len() implies (
            #[trigger] r.waves()[w][i]) < r.targets().len() by {
                lemma_scheduled_contains(all, w, i);
                lemma_of_range(scheduled(all), t.len(), all[w][i]);
            }
            assert(r.results() =~= Seq::empty());
        }
        r
    }

    /// A sweep that stops behind the first wave with a failure, so that an operator can resume it.
    /// A cluster without members has no placement.
    pub fn rebalance(state: &ClusterState, rf: usize, max_parallel: usize) -> (r: Result<
        Self,
        ShardError,
    >)
        ensures
            match r {
                Ok(s) => {
                    &&& state@.nodes.len() > 0
                    &&& s.wf()
                    &&& target_views(s.targets()) == group_targets(state@, rf as nat)
                    &&& keyed_by_position(s.targets())
                    &&& s.waves() == waves(
                        state@,
                        group_targets(state@, rf as nat),
                        max_parallel as nat,
                    )
                    &&& s.ran() == 0
                    &&& s.stops()
                    &&& !s.stopped()
                    &&& s.results() == Seq::<(u32, ResultView)>::empty()
                },
                Err(e) => state@.nodes.len() == 0 && e@ == ShardErrorView::ControlPlane(
                    "rebalance_and_move: the cluster has no nodes to place shards on"@,
                ),
            },
    {
        assert(state@.nodes.len() == state.nodes@.len());
        if state.nodes.len() == 0 {
            return Err(
                ShardError::ControlPlane(
                    String::from_str(
                        "rebalance_and_move: the cluster has no nodes to place shards on",
                    ),
                ),
            );
        }
        Ok(Sweep::plan(state, rf, max_parallel, true))
    }

    /// A sweep that goes on past failures: the next one tries them again.
    pub fn reconcile(state: &ClusterState, rf: usize, max_parallel: usize) -> (r: Self)
        ensures
            r.wf(),
            target_views(r.targets()) == group_targets(state@, rf as nat),
            keyed_by_position(r.targets()),
            r.waves() == waves(state@, group_targets(state@, rf as nat), max_parallel as nat),
            r.ran() == 0,
            !r.stops(),
            !r.stopped(),
            r.results() == Seq::<(u32, ResultView)>::empty(),
    {
        Sweep::plan(state, rf, max_parallel, false)
    }

    /// The next wave, as places among the targets; nothing once the sweep is over.
    pub fn wave(&self) -> (r: Option<&Vec<usize>>)
        requires
            self.wf(),
        ensures
            match r {
                Some(w) => !self.is_over() && w@ == self.waves()[self.ran() as int],
                None => self.is_over(),
            },
    {
        assert(self.waves().len() == self.waves@.len());
        if self.stopped || self.next >= self.waves.len() {
            None
        } else {
            Some(&self.waves[self.next])
        }
    }

    /// A target: its position and the group it should have.
    pub fn target(&self, place: usize) -> (r: &(u32, ShardAssignment))
        requires
            place < self.targets().len(),
        ensures
            *r == self.targets()[place as int],
    {
        &self.targets[place]
    }

    /// Takes the results of the wave that ran.
    pub fn finish_wave(&mut self, results: Vec<(u32, MoveResult)>)
        requires
            old(self).wf(),
            !old(self).is_over(),
        ensures
            final(self).wf(),
            final(self).targets() == old(self).targets(),
            final(self).waves() == old(self).waves(),
            final(self).ran() == old(self).ran() + 1,
            final(self).stops() == old(self).stops(),
            final(self).stopped() == (old(self).stops() && any_failed(result_views(results@))),
            final(self).results() == old(self).results() + result_views(results@),
    {
        let failed = wave_failed(&results);
        let ghost more = results@;
        let ghost before = self.results@;
        assert(failed == any_failed(result_views(more)));
        assert(self.waves().len() == self.waves@.len());
        let mut results = results;
        self.results.append(&mut results);
        assert(self.results@ =~= before + more);
        assert(result_views(self.results@) =~= result_views(before) + result_views(more));
        if self.next < self.waves.len() {
            self.next = self.next + 1;
        }
        self.stopped = self.stops && failed;
    }

    /// The positions of the waves that did not run.
    fn left(&self) -> (r: Vec<u32>)
        requires
            self.wf(),
        ensures
            r@ == positions_from(self.targets(), self.waves(), self.ran() as int),
    {
        let ghost wv = self.waves();
        let ghost pos = |i: usize| self.targets@[i as int].0;
        let n: usize = self.waves.len();
        let mut r: Vec<u32> = Vec::new();
        let mut w: usize = self.next;
        proof {
            assert(wv.len() == n);
            assert(wv.skip(self.next as int).take(0) =~= Seq::empty());
            assert(scheduled(Seq::<Seq<usize>>::empty()).map_values(pos) =~= Seq::empty());
        }
        while w < n
            invariant
                n == self.waves@.len(),
                wv == self.waves(),
                wv.len() == n,
                self.wf(),
                pos == (|i: usize| self.targets@[i as int].0),
                self.next <= w <= n,
                r@ == scheduled(wv.skip(self.next as int).take(w - self.next)).map_values(pos),
            decreases n - w,
        {
            let ghost done = wv.skip(self.next as int).take(w - self.next);
            let ghost one = wv[w as int];
            let ghost before = r@;
            let m: usize = self.waves[w].len();
            assert(one == self.waves@[w as int]@);
            let mut i: usize = 0;
            assert(one.take(0).map_values(pos) =~= Seq::empty());
            assert(before + one.take(0).map_values(pos) =~= before);
            while i < m
                invariant
                    m == self.waves@[w as int]@.len(),
                    w < n,
                    n == self.waves@.len(),
                    wv == self.waves(),
                    wv.len() == n,
                    one == self.waves@[w as int]@,
                    one == wv[w as int],
                    self.wf(),
                    pos == (|i: usize| self.targets@[i as int].0),
                    i <= m,
                    r@ == before + one.take(i as int).map_values(pos),
                decreases m - i,
            {
                assert(self.waves()[w as int][i as int] < self.targets().len());
                let place: usize = self.waves[w][i];
                r.push(self.targets[place].0);
                proof {
                    assert(one.take(i + 1) =~= one.take(i as int).push(one[i as int]));
                    assert(r@ =~= before + one.take(i + 1).map_values(pos));
                }
                i = i + 1;
            }
            proof {
                assert(one.take(m as int) =~= one);
                let next_done = wv.skip(self.next as int).take(w + 1 - self.next);
                assert(next_done =~= done.push(one));
                lemma_scheduled_push(done, one);
                assert(r@ =~= scheduled(next_done).map_values(pos));
            }
            w = w + 1;
        }
        proof {
            assert(wv.skip(self.next as int).take(n - self.next) =~= wv.skip(self.next as int));
            assert(r@ =~= positions_from(self.targets(), self.waves(), self.ran() as int));
        }
        r
    }

    /// The report of a sweep that stops at a failure.
    pub fn rebalanced(self) -> (r: RebalanceMoveReport)
        requires
            self.wf(),
            self.is_over(),
        ensures
            crate::coordinator::sweep::rebalance_reported(
                r,
                self.results(),
                positions_from(self.targets(), self.waves(), self.ran() as int),
            ),
    {
        let left = self.left();
        rebalance_report(self.results, left)
    }

    /// The report of a sweep that goes on past failures.
    pub fn reconciled(self) -> (r: ReconcileReport)
        requires
            self.wf(),
            self.is_over(),
        ensures
            crate::coordinator::sweep::reconcile_reported(r, self.results()),
    {
        reconcile_report(self.results)
    }
}

/// The error of a move whose thread died.
pub fn panicked_error(position: u32) -> (r: ShardError)
    ensures
        r@ == ShardErrorView::Remote(
            "parallel move of shard "@ + decimal(position as nat)
                + " panicked; the position was rolled back per the move's own abort path and is retried next pass"@,
        ),
{
    ShardError::Remote(
        with_number(
            "parallel move of shard ",
            position as u64,
            " panicked; the position was rolled back per the move's own abort path and is retried next pass",
        ),
    )
}

/// The notice that a move has no thread of its own.
pub fn spawn_failed_detail(position: u32) -> (r: String)
    ensures
        r@ == "spawning a parallel-move thread for shard "@ + decimal(position as nat)
            + " failed; running the move inline (a narrower wave — same guarantees, less overlap)"@,
{
    with_number(
        "spawning a parallel-move thread for shard ",
        position as u64,
        " failed; running the move inline (a narrower wave — same guarantees, less overlap)",
    )
}

proof fn lemma_scheduled_contains(all: Seq<Seq<usize>>, w: int, i: int)
    requires
        0 <= w < all.len(),
        0 <= i < all[w].len(),
    ensures
        scheduled(all).contains(all[w][i]),
    decreases all.len(),
{
    lemma_scheduled_last(all);
    let init = scheduled(all.drop_last());
    if w < all.len() - 1 {
        lemma_scheduled_contains(all.drop_last(), w, i);
        let k = choose|k: int| 0 <= k < init.len() && init[k] == all[w][i];
        assert(scheduled(all)[k] == all[w][i]);
    } else {
        assert(scheduled(all)[init.len() + i] == all[w][i]);
    }
}

proof fn lemma_scheduled_last(all: Seq<Seq<usize>>)
    requires
        all.len() > 0,
    ensures
        scheduled(all) == scheduled(all.drop_last()) + all.last(),
{
    lemma_scheduled_push(all.drop_last(), all.last());
    assert(all.drop_last().push(all.last()) =~= all);
}

proof fn lemma_scheduled_push(done: Seq<Seq<usize>>, one: Seq<usize>)
    ensures
        scheduled(done.push(one)) == scheduled(done) + one,
    decreases done.len(),
{
    let all = done.push(one);
    assert(all.flatten() == all.first() + all.drop_first().flatten());
    if done.len() == 0 {
        assert(all.drop_first() =~= Seq::empty());
        assert(Seq::<Seq<usize>>::empty().flatten() =~= Seq::empty());
        assert(done =~= Seq::empty());
    } else {
        assert(done.flatten() == done.first() + done.drop_first().flatten());
        assert(all.drop_first() =~= done.drop_first().push(one));
        lemma_scheduled_push(done.drop_first(), one);
    }
    assert(scheduled(all) =~= scheduled(done) + one);
}

proof fn lemma_of_range(s: Seq<usize>, n: nat, x: usize)
    requires
        s.to_multiset() == Seq::new(n, |i: int| i as usize).to_multiset(),
        s.contains(x),
        n <= usize::MAX,
    ensures
        x < n,
{
    broadcast use vstd::seq_lib::group_to_multiset_ensures;

    let range = Seq::new(n, |i: int| i as usize);
    assert(s.to_multiset().count(x) > 0);
    assert(range.to_multiset().count(x) > 0);
    assert(range.contains(x));
    let k = choose|k: int| 0 <= k < range.len() && range[k] == x;
    assert(range[k] == k as usize);
}

/// A sweep that goes on past failures tries every target; one that stops leaves those of the waves
/// it did not run, and reports them.
pub proof fn law_sweep_leaves_nothing_unsaid(s: Sweep)
    requires
        s.wf(),
        s.is_over(),
        !s.stopped(),
    ensures
        s.ran() == s.waves().len(),
        positions_from(s.targets(), s.waves(), s.ran() as int) == Seq::<u32>::empty(),
{
    let rest = s.waves().skip(s.ran() as int);
    assert(rest =~= Seq::empty());
    assert(Seq::<Seq<usize>>::empty().flatten() =~= Seq::empty());
    assert(positions_from(s.targets(), s.waves(), s.ran() as int) =~= Seq::empty());
}

/// The targets of the waves that did not run are exactly those that are left.
pub proof fn law_the_waves_that_did_not_run_are_left(
    targets: Seq<(u32, ShardAssignment)>,
    waves: Seq<Seq<usize>>,
    from: int,
    p: u32,
)
    requires
        0 <= from <= waves.len(),
    ensures
        positions_from(targets, waves, from).contains(p) <==> exists|w: int, i: int|
            #![trigger waves[w][i]]
            from <= w < waves.len() && 0 <= i < waves[w].len() && targets[waves[w][i] as int].0
                == p,
    decreases waves.len() - from,
{
    let s = waves.skip(from);
    let all = positions_from(targets, waves, from);
    let f = |i: usize| targets[i as int].0;
    if from < waves.len() {
        let next = waves.skip(from + 1);
        let rest = positions_from(targets, waves, from + 1);
        law_the_waves_that_did_not_run_are_left(targets, waves, from + 1, p);
        assert(s.drop_first() =~= next);
        assert(s.first() == waves[from]);
        let head = waves[from].map_values(f);
        assert(scheduled(s) == waves[from] + scheduled(next));
        assert(all =~= head + rest);
        if all.contains(p) {
            let k = choose|k: int| 0 <= k < all.len() && all[k] == p;
            if k < head.len() {
                assert(head[k] == p);
                assert(targets[waves[from][k] as int].0 == p);
            } else {
                assert(rest[k - head.len()] == p);
                assert(rest.contains(p));
            }
        }
        if exists|w: int, i: int|
            #![trigger waves[w][i]]
            from <= w < waves.len() && 0 <= i < waves[w].len() && targets[waves[w][i] as int].0
                == p {
            let (w, i) = choose|w: int, i: int|
                #![trigger waves[w][i]]
                from <= w < waves.len() && 0 <= i < waves[w].len() && targets[waves[w][i] as int].0
                    == p;
            if w == from {
                assert(head[i] == p);
                assert(all[i] == p);
            } else {
                assert(rest.contains(p));
                let k = choose|k: int| 0 <= k < rest.len() && rest[k] == p;
                assert(all[head.len() + k] == p);
            }
        }
    } else {
        assert(s.len() == 0);
        assert(scheduled(s) =~= Seq::<usize>::empty());
        assert(all.len() == 0);
    }
}

/// A wave counts as failed exactly where one of its moves ended in an error or moved without a
/// commit.
pub proof fn law_what_stops_a_sweep(results: Seq<(u32, ResultView)>)
    ensures
        any_failed(results) <==> exists|i: int|
            0 <= i < results.len() && match (#[trigger] results[i]).1 {
                ResultView::Failed(_) => true,
                ResultView::Outcome(o) => o is MovedButNotCommitted,
            },
{
    if any_failed(results) {
        let i = choose|i: int| 0 <= i < results.len() && is_failure((#[trigger] results[i]).1);
        assert(match results[i].1 {
            ResultView::Failed(_) => true,
            ResultView::Outcome(o) => o is MovedButNotCommitted,
        });
    }
    if exists|i: int|
        0 <= i < results.len() && match (#[trigger] results[i]).1 {
            ResultView::Failed(_) => true,
            ResultView::Outcome(o) => o is MovedButNotCommitted,
        } {
        let i = choose|i: int|
            0 <= i < results.len() && match (#[trigger] results[i]).1 {
                ResultView::Failed(_) => true,
                ResultView::Outcome(o) => o is MovedButNotCommitted,
            };
        assert(is_failure(results[i].1));
    }
}

} // verus!
