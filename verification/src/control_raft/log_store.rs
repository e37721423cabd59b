//! The consensus log: entries in the order of their index, and the bound up to which it was
//! purged.
use crate::order::{
    key_differs, key_of, lemma_put, put, put_in, strictly_ascending, without, Keyed,
};
use crate::seqs::{lemma_filter_all, lemma_filter_members, lemma_filter_step, lemma_filter_strict};
use vstd::prelude::*;

verus! {

/// The id of an entry: the leader that proposed it, and its place in the log.
#[derive(Clone, Copy, Debug, PartialEq, Eq, Structural)]
pub struct LogId {
    pub term: u64,
    pub node: u64,
    pub index: u64,
}

/// An entry: its id and what it carries.
pub struct LogEntry<T> {
    pub id: LogId,
    pub payload: T,
}

impl<T> Keyed for LogEntry<T> {
    open spec fn key(&self) -> int {
        self.id.index as int
    }

    fn sort_key(&self) -> (k: u128) {
        self.id.index as u128
    }
}

/// Whether the entry's index is below `bound`.
pub open spec fn index_below<T>(bound: u64) -> spec_fn(LogEntry<T>) -> bool {
    |e: LogEntry<T>| e.id.index < bound
}

/// Whether the entry's index is above `bound`.
pub open spec fn index_above<T>(bound: u64) -> spec_fn(LogEntry<T>) -> bool {
    |e: LogEntry<T>| e.id.index > bound
}

/// Whether the entry's index is at least `from` and, where there is an end, below it.
pub open spec fn index_within<T>(from: u64, end: Option<u64>) -> spec_fn(LogEntry<T>) -> bool {
    |e: LogEntry<T>| e.id.index >= from && (end matches Some(x) ==> e.id.index < x)
}

/// Entries put into a log one after the other; a later one replaces the earlier of its index.
pub open spec fn put_all<T>(log: Seq<LogEntry<T>>, more: Seq<LogEntry<T>>) -> Seq<LogEntry<T>>
    decreases more.len(),
{
    if more.len() == 0 {
        log
    } else {
        put(put_all(log, more.drop_last()), key_of::<LogEntry<T>>(), more.last())
    }
}

/// The last entry's id; where there is none, that of the last entry purged.
pub open spec fn last_id<T>(log: Seq<LogEntry<T>>, last_purged: Option<LogId>) -> Option<LogId> {
    if log.len() == 0 {
        last_purged
    } else {
        Some(log.last().id)
    }
}

/// The log of one node.
pub struct RaftLog<T> {
    entries: Vec<LogEntry<T>>,
    last_purged: Option<LogId>,
}

impl<T> RaftLog<T> {
    /// The entries, in the order of their index.
    pub closed spec fn entries(self) -> Seq<LogEntry<T>> {
        self.entries@
    }

    /// The id of the last entry purged.
    pub closed spec fn purged(self) -> Option<LogId> {
        self.last_purged
    }

    /// No index occurs twice and the entries are in order.
    pub open spec fn wf(self) -> bool {
        strictly_ascending(self.entries(), key_of::<LogEntry<T>>())
    }

    /// A log without entries.
    pub fn in_memory() -> (r: Self)
        ensures
            r.wf(),
            r.entries() == Seq::<LogEntry<T>>::empty(),
            r.purged() is None,
    {
        let r = RaftLog { entries: Vec::new(), last_purged: None };
        assert(r.entries() =~= Seq::<LogEntry<T>>::empty());
        r
    }

    /// The log of a node that starts again, from the records of its file and the bound it kept.
    pub fn open(records: Vec<LogEntry<T>>, last_purged: Option<LogId>) -> (r: Self)
        ensures
            r.wf(),
            r.entries() == put_all(Seq::empty(), records@),
            r.purged() == last_purged,
    {
        let mut r = RaftLog { entries: Vec::new(), last_purged };
        assert(r.entries@ =~= Seq::<LogEntry<T>>::empty());
        r.append(records);
        r
    }

    /// Adds entries; one that has the index of an entry in the log replaces it.
    pub fn append(&mut self, entries: Vec<LogEntry<T>>)
        requires
            old(self).wf(),
        ensures
            final(self).wf(),
            final(self).entries() == put_all(old(self).entries(), entries@),
            final(self).purged() == old(self).purged(),
    {
        let ghost all = entries@;
        let ghost start = self.entries@;
        let ghost bound = self.last_purged;
        assert(all.take(0) =~= Seq::empty());
        for e in it: entries.into_iter()
            invariant
                it.seq() == all,
                self.wf(),
                self.last_purged == bound,
                self.entries@ == put_all(start, all.take(it.index())),
        {
            proof {
                let i = it.index();
                lemma_put(self.entries@, key_of::<LogEntry<T>>(), e);
                assert(all.take(i + 1).drop_last() =~= all.take(i));
            }
            put_in(&mut self.entries, e);
        }
        assert(all.take(all.len() as int) =~= all);
    }

    /// Drops the entries from `index` on.
    pub fn truncate(&mut self, index: u64)
        requires
            old(self).wf(),
        ensures
            final(self).wf(),
            final(self).entries() == old(self).entries().filter(index_below(index)),
            final(self).purged() == old(self).purged(),
    {
        let ghost all = self.entries@;
        let ghost keep = index_below::<T>(index);
        let mut before: Vec<LogEntry<T>> = Vec::new();
        std::mem::swap(&mut before, &mut self.entries);
        let mut kept: Vec<LogEntry<T>> = Vec::new();
        proof {
            reveal(Seq::filter);
            assert(kept@ =~= all.take(0).filter(keep));
        }
        for x in it: before.into_iter()
            invariant
                it.seq() == all,
                keep == index_below::<T>(index),
                kept@ == all.take(it.index()).filter(keep),
        {
            proof {
                lemma_filter_step(all, keep, it.index());
            }
            if x.id.index < index {
                kept.push(x);
            }
        }
        proof {
            assert(all.take(all.len() as int) =~= all);
            lemma_filter_strict(all, keep, key_of::<LogEntry<T>>());
        }
        self.entries = kept;
    }

    /// Drops the entries up to `id`, which becomes the log's lower bound.
    pub fn purge(&mut self, id: LogId)
        requires
            old(self).wf(),
        ensures
            final(self).wf(),
            final(self).entries() == old(self).entries().filter(index_above(id.index)),
            final(self).purged() == Some(id),
    {
        let ghost all = self.entries@;
        let ghost keep = index_above::<T>(id.index);
        let mut before: Vec<LogEntry<T>> = Vec::new();
        std::mem::swap(&mut before, &mut self.entries);
        let mut kept: Vec<LogEntry<T>> = Vec::new();
        proof {
            reveal(Seq::filter);
            assert(kept@ =~= all.take(0).filter(keep));
        }
        for x in it: before.into_iter()
            invariant
                it.seq() == all,
                keep == index_above::<T>(id.index),
                kept@ == all.take(it.index()).filter(keep),
        {
            proof {
                lemma_filter_step(all, keep, it.index());
            }
            if x.id.index > id.index {
                kept.push(x);
            }
        }
        proof {
            assert(all.take(all.len() as int) =~= all);
            lemma_filter_strict(all, keep, key_of::<LogEntry<T>>());
        }
        self.entries = kept;
        self.last_purged = Some(id);
    }

    /// The entries from index `from` on and, where there is an end, before it.
    pub fn range(&self, from: u64, end: Option<u64>) -> (r: Vec<&LogEntry<T>>)
        ensures
            r@.map_values(|e: &LogEntry<T>| *e) == self.entries().filter(index_within(from, end)),
    {
        let ghost all = self.entries@;
        let ghost keep = index_within::<T>(from, end);
        let ghost whole = |e: &LogEntry<T>| *e;
        let n: usize = self.entries.len();
        let mut r: Vec<&LogEntry<T>> = Vec::new();
        let mut i: usize = 0;
        proof {
            reveal(Seq::filter);
            assert(r@.map_values(whole) =~= all.take(0).filter(keep));
        }
        while i < n
            invariant
                n == all.len(),
                all == self.entries@,
                i <= n,
                keep == index_within::<T>(from, end),
                whole == (|e: &LogEntry<T>| *e),
                r@.map_values(whole) == all.take(i as int).filter(keep),
            decreases n - i,
        {
            proof {
                lemma_filter_step(all, keep, i as int);
            }
            let e = &self.entries[i];
            let before_end = match end {
                Some(x) => e.id.index < x,
                None => true,
            };
            let ghost old_r = r@;
            if e.id.index >= from && before_end {
                r.push(e);
                assert(r@.map_values(whole) =~= old_r.map_values(whole).push(*e));
            }
            i = i + 1;
        }
        assert(all.take(n as int) =~= all);
        r
    }

    /// The entries in the order of their index: what the file is rewritten with.
    pub fn records(&self) -> (r: &Vec<LogEntry<T>>)
        ensures
            r@ == self.entries(),
    {
        &self.entries
    }

    /// The last entry purged and the last entry known.
    pub fn log_state(&self) -> (r: (Option<LogId>, Option<LogId>))
        ensures
            r.0 == self.purged(),
            r.1 == last_id(self.entries(), self.purged()),
    {
        let n: usize = self.entries.len();
        if n == 0 {
            (self.last_purged, self.last_purged)
        } else {
            (self.last_purged, Some(self.entries[n - 1].id))
        }
    }
}

/// Entries in order that are put into an empty log are the log.
pub proof fn law_rewritten_log_is_restored<T>(log: Seq<LogEntry<T>>)
    requires
        strictly_ascending(log, key_of::<LogEntry<T>>()),
    ensures
        put_all(Seq::empty(), log) == log,
    decreases log.len(),
{
    if log.len() > 0 {
        let init = log.drop_last();
        let e = log.last();
        let key = key_of::<LogEntry<T>>();
        assert(strictly_ascending(init, key)) by {
            assert forall|i: int, j: int| 0 <= i < j < init.len() implies key(#[trigger] init[i])
                < key(#[trigger] init[j]) by {
                assert(init[i] == log[i] && init[j] == log[j]);
            }
        }
        law_rewritten_log_is_restored(init);
        let keep = key_differs(key, key(e));
        assert forall|i: int| 0 <= i < init.len() implies keep(#[trigger] init[i]) by {
            assert(key(log[i]) < key(log[log.len() - 1]));
        }
        lemma_filter_all(init, keep);
        assert(without(init, key, key(e)) =~= init);
        assert(init.push(e) =~= log);
        crate::order::lemma_ascending_strict(log, key);
        crate::order::lemma_stable_sort_fixed(log, key);
    } else {
        assert(log =~= Seq::empty());
    }
}

/// The file and the log agree: if reading the file's records gives the log, it still does after
/// records are appended to both.
pub proof fn law_appended_log_is_restored<T>(
    file: Seq<LogEntry<T>>,
    log: Seq<LogEntry<T>>,
    more: Seq<LogEntry<T>>,
)
    requires
        put_all(Seq::empty(), file) == log,
    ensures
        put_all(Seq::empty(), file + more) == put_all(log, more),
    decreases more.len(),
{
    if more.len() == 0 {
        assert(file + more =~= file);
    } else {
        law_appended_log_is_restored(file, log, more.drop_last());
        assert((file + more).drop_last() =~= file + more.drop_last());
    }
}

/// Dropping a suffix keeps every entry below it and none from it on.
pub proof fn law_truncate_keeps_the_prefix<T>(log: Seq<LogEntry<T>>, index: u64)
    requires
        strictly_ascending(log, key_of::<LogEntry<T>>()),
    ensures
        forall|e: LogEntry<T>| #[trigger]
            log.filter(index_below(index)).contains(e) <==> log.contains(e) && e.id.index < index,
{
    lemma_filter_members(log, index_below::<T>(index));
}

/// Dropping a prefix keeps every entry above the bound and none up to it.
pub proof fn law_purge_keeps_the_suffix<T>(log: Seq<LogEntry<T>>, index: u64)
    requires
        strictly_ascending(log, key_of::<LogEntry<T>>()),
    ensures
        forall|e: LogEntry<T>| #[trigger]
            log.filter(index_above(index)).contains(e) <==> log.contains(e) && e.id.index > index,
{
    lemma_filter_members(log, index_above::<T>(index));
}

/// An appended entry is in the log, in place of one that had its index; every entry with another
/// index stays.
pub proof fn law_an_appended_entry_replaces_its_index<T>(
    log: Seq<LogEntry<T>>,
    more: Seq<LogEntry<T>>,
    x: LogEntry<T>,
    e: LogEntry<T>,
)
    requires
        strictly_ascending(log, key_of::<LogEntry<T>>()),
    ensures
        strictly_ascending(put_all(log, more), key_of::<LogEntry<T>>()),
        put_all(log, Seq::<LogEntry<T>>::empty()) == log,
        put_all(log, more.push(x)).contains(e) <==> (e == x || (put_all(log, more).contains(e)
            && e.id.index != x.id.index)),
    decreases more.len(),
{
    let key = key_of::<LogEntry<T>>();
    if more.len() > 0 {
        law_an_appended_entry_replaces_its_index(log, more.drop_last(), more.last(), e);
        lemma_put(put_all(log, more.drop_last()), key, more.last());
    }
    assert(more.push(x).drop_last() =~= more);
    lemma_put(put_all(log, more), key, x);
}

/// A range holds exactly the entries from its start on and before its end, in their order.
pub proof fn law_a_range_holds_what_is_within<T>(
    log: Seq<LogEntry<T>>,
    from: u64,
    end: Option<u64>,
    e: LogEntry<T>,
)
    requires
        strictly_ascending(log, key_of::<LogEntry<T>>()),
    ensures
        log.filter(index_within(from, end)).contains(e) <==> log.contains(e) && from <= e.id.index
            && (end matches Some(x) ==> e.id.index < x),
        strictly_ascending(log.filter(index_within(from, end)), key_of::<LogEntry<T>>()),
{
    crate::seqs::lemma_filter_members(log, index_within(from, end));
    crate::seqs::lemma_filter_strict(log, index_within(from, end), key_of::<LogEntry<T>>());
}

/// The last entry known has the highest index of the log; where the log holds none it is the last
/// one purged.
pub proof fn law_the_last_id_is_the_highest<T>(
    log: Seq<LogEntry<T>>,
    last_purged: Option<LogId>,
    i: int,
)
    requires
        strictly_ascending(log, key_of::<LogEntry<T>>()),
    ensures
        log.len() == 0 ==> last_id(log, last_purged) == last_purged,
        0 <= i < log.len() ==> (last_id(log, last_purged) matches Some(id) && log[i].id.index
            <= id.index && exists|k: int| 0 <= k < log.len() && (#[trigger] log[k]).id == id),
{
    if 0 <= i < log.len() {
        let n = log.len() - 1;
        let key = key_of::<LogEntry<T>>();
        assert(log[n].id == last_id(log, last_purged)->0);
        if i < n {
            assert(key(log[i]) < key(log[n]));
        }
    }
}

} // verus!
