//! The ledger of endpoints that a data move is using.
//!
//! Two moves that share a server must not run at once. A move reserves all its endpoints together
//! or none; waiting for a conflicting move to end, and the clock, belong to the caller.
use crate::endpoint::{has_text, insert_text, normalized, normalized_spec, text_sorted};
use crate::text::texts;
use vstd::prelude::*;

verus! {

/// The endpoints in use, under their normalized spelling.
#[derive(Debug)]
pub struct MoveLedger {
    busy: Vec<String>,
}

/// A reservation. It stands until it is handed back to [`MoveLedger::release`].
#[derive(Debug)]
pub struct MoveTicket {
    eps: Vec<String>,
}

impl MoveTicket {
    /// The endpoints that are reserved.
    pub closed spec fn holds(self) -> Set<Seq<char>> {
        texts(self.eps@).to_set()
    }
}

/// How the last wait for a conflicting move ended.
#[derive(Clone, Copy, PartialEq, Eq, Debug, Structural)]
pub enum WaitOutcome {
    /// A move ended before the deadline.
    Woken,
    /// The deadline passed while waiting.
    TimedOut,
    /// The deadline had passed before the wait began.
    Elapsed,
}

/// What a reservation with a deadline does next.
#[derive(Debug)]
pub enum ReserveStep {
    /// Everything is reserved.
    Granted(MoveTicket),
    /// Something is in use: wait for a move to end or for the deadline, then step again.
    Wait,
    /// The deadline passed; nothing is reserved.
    GaveUp,
}

/// The normalized spellings of a list of endpoints.
pub open spec fn footprint(eps: Seq<String>) -> Set<Seq<char>> {
    texts(eps).map_values(|t: Seq<char>| normalized_spec(t)).to_set()
}

impl MoveLedger {
    /// The endpoints in use.
    pub closed spec fn in_use(self) -> Set<Seq<char>> {
        texts(self.busy@).to_set()
    }

    /// A ledger with nothing in use.
    pub fn new() -> (r: Self)
        ensures
            r.in_use() == Set::<Seq<char>>::empty(),
    {
        let r = MoveLedger { busy: Vec::new() };
        assert(r.in_use() =~= Set::<Seq<char>>::empty());
        r
    }

    /// Whether one of the endpoints is in use.
    fn conflicts(&self, want: &Vec<String>) -> (r: bool)
        ensures
            r == !self.in_use().disjoint(texts(want@).to_set()),
    {
        let n: usize = want.len();
        let ghost w = texts(want@);
        let mut i: usize = 0;
        while i < n
            invariant
                n == want@.len(),
                w == texts(want@),
                i <= n,
                forall|k: int| 0 <= k < i ==> !texts(self.busy@).contains(#[trigger] w[k]),
            decreases n - i,
        {
            assert(w[i as int] == want@[i as int]@);
            if has_text(&self.busy, &want[i]) {
                proof {
                    assert(w.contains(w[i as int]));
                    assert(self.in_use().contains(w[i as int]));
                    assert(w.to_set().contains(w[i as int]));
                }
                return true;
            }
            i = i + 1;
        }
        proof {
            assert forall|x: Seq<char>| #[trigger] w.to_set().contains(x) implies !self.in_use().contains(
                x,
            ) by {
                let k = choose|k: int| 0 <= k < w.len() && w[k] == x;
                assert(!texts(self.busy@).contains(w[k]));
            }
        }
        false
    }

    /// Reserves every endpoint if none is in use, without waiting.
    pub fn reserve(&mut self, eps: &Vec<String>) -> (r: Option<MoveTicket>)
        ensures
            match r {
                Some(t) => old(self).in_use().disjoint(footprint(eps@)) && t.holds() == footprint(
                    eps@,
                ) && final(self).in_use() == old(self).in_use().union(footprint(eps@)),
                None => !old(self).in_use().disjoint(footprint(eps@)) && final(self).in_use()
                    == old(self).in_use(),
            },
    {
        let want = normalize_all(eps);
        if self.conflicts(&want) {
            return None;
        }
        let n: usize = want.len();
        let ghost w = texts(want@);
        let ghost before = texts(self.busy@);
        let mut i: usize = 0;
        assert(texts(self.busy@).to_set() =~= before.to_set().union(w.take(0).to_set()));
        while i < n
            invariant
                n == want@.len(),
                w == texts(want@),
                i <= n,
                texts(self.busy@).to_set() == before.to_set().union(w.take(i as int).to_set()),
            decreases n - i,
        {
            let ghost b = texts(self.busy@);
            let ghost e = want@[i as int]@;
            self.busy.push(want[i].clone());
            proof {
                assert(texts(self.busy@) =~= b.push(e));
                assert(w.take(i + 1) =~= w.take(i as int).push(e));
                b.lemma_push_to_set_commute(e);
                w.take(i as int).lemma_push_to_set_commute(e);
                assert(texts(self.busy@).to_set() =~= before.to_set().union(
                    w.take(i + 1).to_set(),
                ));
            }
            i = i + 1;
        }
        assert(w.take(n as int) =~= w);
        Some(MoveTicket { eps: want })
    }

    /// One step of a reservation with a deadline: `last` is how the previous wait ended, none for
    /// the first step. A deadline that has already passed still gets one attempt.
    pub fn reserve_until(&mut self, eps: &Vec<String>, last: Option<WaitOutcome>) -> (r:
        ReserveStep)
        ensures
            match r {
                ReserveStep::Granted(t) => {
                    &&& last != Some(WaitOutcome::Elapsed)
                    &&& old(self).in_use().disjoint(footprint(eps@))
                    &&& t.holds() == footprint(eps@)
                    &&& final(self).in_use() == old(self).in_use().union(footprint(eps@))
                },
                ReserveStep::Wait => {
                    &&& last is None || last == Some(WaitOutcome::Woken)
                    &&& !old(self).in_use().disjoint(footprint(eps@))
                    &&& final(self).in_use() == old(self).in_use()
                },
                ReserveStep::GaveUp => {
                    &&& last == Some(WaitOutcome::Elapsed) || (last == Some(WaitOutcome::TimedOut)
                        && !old(self).in_use().disjoint(footprint(eps@)))
                    &&& final(self).in_use() == old(self).in_use()
                },
            },
    {
        if let Some(WaitOutcome::Elapsed) = last {
            return ReserveStep::GaveUp;
        }
        match self.reserve(eps) {
            Some(t) => ReserveStep::Granted(t),
            None => match last {
                Some(WaitOutcome::TimedOut) => ReserveStep::GaveUp,
                _ => ReserveStep::Wait,
            },
        }
    }

    /// Hands a reservation back.
    pub fn release(&mut self, ticket: MoveTicket)
        ensures
            final(self).in_use() == old(self).in_use().difference(ticket.holds()),
    {
        let ghost all = self.busy@;
        let ghost before = texts(self.busy@);
        let ghost gone = texts(ticket.eps@);
        let mut kept: Vec<String> = Vec::new();
        let n: usize = self.busy.len();
        let mut i: usize = 0;
        assert(texts(kept@).to_set() =~= before.take(0).to_set().difference(gone.to_set()));
        while i < n
            invariant
                n == self.busy@.len(),
                self.busy@ == all,
                before == texts(all),
                gone == texts(ticket.eps@),
                i <= n,
                texts(kept@).to_set() == before.take(i as int).to_set().difference(gone.to_set()),
            decreases n - i,
        {
            let ghost e = all[i as int]@;
            let ghost k = texts(kept@);
            proof {
                assert(before.take(i + 1) =~= before.take(i as int).push(e));
                before.take(i as int).lemma_push_to_set_commute(e);
            }
            if !has_text(&ticket.eps, &self.busy[i]) {
                kept.push(self.busy[i].clone());
                proof {
                    assert(texts(kept@) =~= k.push(e));
                    k.lemma_push_to_set_commute(e);
                }
            }
            proof {
                assert(texts(kept@).to_set() =~= before.take(i + 1).to_set().difference(
                    gone.to_set(),
                ));
            }
            i = i + 1;
        }
        assert(before.take(n as int) =~= before);
        self.busy = kept;
    }
}

/// The normalized endpoints, sorted, none twice.
fn normalize_all(eps: &Vec<String>) -> (r: Vec<String>)
    ensures
        text_sorted(texts(r@)),
        texts(r@).to_set() == footprint(eps@),
{
    let mut out: Vec<String> = Vec::new();
    let n: usize = eps.len();
    let ghost f = |t: Seq<char>| normalized_spec(t);
    let ghost e = texts(eps@).map_values(f);
    let mut i: usize = 0;
    while i < n
        invariant
            n == eps@.len(),
            i <= n,
            f == (|t: Seq<char>| normalized_spec(t)),
            e == texts(eps@).map_values(f),
            text_sorted(texts(out@)),
            forall|x: Seq<char>| #[trigger]
                texts(out@).contains(x) <==> e.take(i as int).contains(x),
        decreases n - i,
    {
        let t = normalized(eps[i].as_str());
        let ghost tv = t@;
        let ghost before = texts(out@);
        insert_text(&mut out, t);
        proof {
            assert(e.take(i + 1) =~= e.take(i as int).push(tv));
            assert forall|x: Seq<char>| #[trigger] texts(out@).contains(x) <==> e.take(
                i + 1,
            ).contains(x) by {
                let a = e.take(i as int);
                assert(before.contains(x) <==> a.contains(x));
                if a.push(tv).contains(x) && x != tv {
                    let k = choose|k: int| 0 <= k < a.push(tv).len() && a.push(tv)[k] == x;
                    assert(a[k] == x);
                }
                if a.contains(x) {
                    let k = choose|k: int| 0 <= k < a.len() && a[k] == x;
                    assert(a.push(tv)[k] == x);
                }
                assert(a.push(tv)[a.len() as int] == tv);
            }
        }
        i = i + 1;
    }
    proof {
        assert(e.take(n as int) =~= e);
        assert(texts(out@).to_set() =~= footprint(eps@));
    }
    out
}

// ---- laws ----

/// Moves that share a server never hold reservations at the same time: while one is held, a
/// reservation of any of its endpoints, however spelled, is refused.
pub proof fn law_shared_endpoints_conflict(in_use: Set<Seq<char>>, held: Seq<String>, want: Seq<
    String,
>, i: int, j: int)
    requires
        footprint(held).subset_of(in_use),
        0 <= i < held.len(),
        0 <= j < want.len(),
        normalized_spec(held[i]@) == normalized_spec(want[j]@),
    ensures
        !in_use.disjoint(footprint(want)),
{
    let f = |t: Seq<char>| normalized_spec(t);
    let h = texts(held).map_values(f);
    let w = texts(want).map_values(f);
    assert(h[i] == w[j]);
    assert(h.contains(h[i]));
    assert(w.contains(w[j]));
    assert(footprint(held).contains(w[j]));
}

/// Handing a reservation back restores the ledger: what was free before is free again.
pub proof fn law_release_undoes_reserve(in_use: Set<Seq<char>>, want: Set<Seq<char>>)
    requires
        in_use.disjoint(want),
    ensures
        in_use.union(want).difference(want) == in_use,
{
    assert(in_use.union(want).difference(want) =~= in_use);
}

/// Reservations over disjoint sets of servers do not exclude each other.
pub proof fn law_disjoint_moves_run_together(in_use: Set<Seq<char>>, a: Set<Seq<char>>, b: Set<
    Seq<char>,
>)
    requires
        in_use.disjoint(a),
        in_use.disjoint(b),
        a.disjoint(b),
    ensures
        in_use.union(a).disjoint(b),
{
}

/// A reservation takes the servers of its endpoints, all of them and no other.
pub proof fn law_a_reservation_takes_its_servers(eps: Seq<String>, server: Seq<char>)
    ensures
        footprint(eps).contains(server) <==> exists|i: int|
            0 <= i < eps.len() && normalized_spec((#[trigger] eps[i])@) == server,
{
    let e = texts(eps).map_values(|t: Seq<char>| normalized_spec(t));
    if footprint(eps).contains(server) {
        let i = choose|i: int| 0 <= i < e.len() && e[i] == server;
        assert(normalized_spec(eps[i]@) == server);
    }
    if exists|i: int| 0 <= i < eps.len() && normalized_spec((#[trigger] eps[i])@) == server {
        let i = choose|i: int|
            0 <= i < eps.len() && normalized_spec((#[trigger] eps[i])@) == server;
        assert(e[i] == server);
        assert(e.contains(server));
    }
}

/// Moves over different servers do not wait for each other.
pub proof fn law_different_servers_do_not_conflict(held: Seq<String>, want: Seq<String>)
    requires
        forall|i: int, j: int|
            0 <= i < held.len() && 0 <= j < want.len() ==> normalized_spec((#[trigger] held[i])@)
                != normalized_spec((#[trigger] want[j])@),
    ensures
        footprint(held).disjoint(footprint(want)),
{
    assert forall|x: Seq<char>| footprint(held).contains(x) implies !footprint(want).contains(x) by {
        law_a_reservation_takes_its_servers(held, x);
        law_a_reservation_takes_its_servers(want, x);
    }
}

} // verus!
