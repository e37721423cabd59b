//! The directory of logical ids that are taken.
//!
//! The committed ids are a sorted column; ids that came or went since are kept beside it until the
//! directory is compacted.
use crate::order::{
    ascending, key_of, lemma_ascending_strict, lemma_exact, lemma_stable_sort, merge_sort,
    stable_sort, strictly_ascending,
};
use crate::shard::{ShardError, ShardErrorView};
use std::collections::HashSet;
use vstd::prelude::*;

verus! {

broadcast use vstd::std_specs::hash::group_hash_axioms;

/// How many locks writers of single ids are spread over.
pub const LOGICAL_WRITE_STRIPES: usize = 256;

/// The ids that are taken.
#[derive(Debug)]
pub struct LogicalIdDirectory {
    /// The committed ids, sorted, none twice.
    pub base: Vec<u64>,
    /// Ids that are taken and not in the column.
    pub added: HashSet<u64>,
    /// Ids of the column that are free again.
    pub removed: HashSet<u64>,
    /// Whether the directory is known to hold the whole corpus.
    pub authoritative: bool,
}

impl LogicalIdDirectory {
    /// The column is sorted, and the two sets are what they say.
    pub open spec fn wf(self) -> bool {
        &&& strictly_ascending(self.base@, key_of::<u64>())
        &&& forall|x: u64| #[trigger] self.added@.contains(x) ==> !self.base@.contains(x)
        &&& forall|x: u64| #[trigger] self.removed@.contains(x) ==> self.base@.contains(x)
        &&& self.added@.finite()
        &&& self.removed@.finite()
    }

    /// The ids that are taken.
    pub open spec fn ids(self) -> Set<u64> {
        Set::new(
            |x: u64|
                self.added@.contains(x) || (self.base@.contains(x) && !self.removed@.contains(x)),
        )
    }
}

impl Default for LogicalIdDirectory {
    /// An empty directory that does not claim to hold the whole corpus.
    fn default() -> (r: Self)
        ensures
            r.wf(),
            r.ids() == Set::<u64>::empty(),
            !r.authoritative,
            r.base@.len() == 0,
    {
        let r = LogicalIdDirectory {
            base: Vec::new(),
            added: HashSet::new(),
            removed: HashSet::new(),
            authoritative: false,
        };
        assert(r.ids() =~= Set::<u64>::empty());
        r
    }
}

/// `x` occurs at two places of `s`.
pub open spec fn occurs_twice(s: Seq<u64>, x: u64) -> bool {
    exists|i: int, j: int| 0 <= i < j < s.len() && #[trigger] s[i] == x && #[trigger] s[j] == x
}

/// Sorts the ids and refuses one that occurs twice: the lowest such.
pub fn sort_and_check_unique(ids: &mut Vec<u64>) -> (r: Result<(), ShardError>)
    ensures
        final(ids)@ == stable_sort(old(ids)@, key_of::<u64>()),
        match r {
            Ok(_) => strictly_ascending(final(ids)@, key_of::<u64>()) && old(ids)@.no_duplicates(),
            Err(ShardError::DuplicateLogicalId(d)) => occurs_twice(old(ids)@, d) && forall|x: u64|
                #[trigger] occurs_twice(old(ids)@, x) ==> d <= x,
            Err(_) => false,
        },
{
    let ghost s = ids@;
    let sorted = merge_sort(ids);
    let ghost t = sorted@;
    proof {
        lemma_exact(s);
    }
    let n: usize = sorted.len();
    let mut i: usize = 1;
    while i < n
        invariant
            1 <= i,
            n == sorted@.len(),
            t == sorted@,
            i <= n || n == 0,
            s == old(ids)@,
            s.to_multiset() == t.to_multiset(),
            t == stable_sort(s, key_of::<u64>()),
            ascending(t, key_of::<u64>()),
            forall|k: int| 0 < k < i && k < n ==> t[k - 1] < #[trigger] t[k],
        decreases n - i,
    {
        assert(key_of::<u64>()(t[i - 1]) <= key_of::<u64>()(t[i as int]));
        if sorted[i - 1] == sorted[i] {
            let d: u64 = sorted[i];
            proof {
                lemma_first_duplicate(s, t, i as int);
            }
            *ids = sorted;
            return Err(ShardError::DuplicateLogicalId(d));
        }
        i = i + 1;
    }
    proof {
        lemma_all_rise(s, t);
    }
    *ids = sorted;
    Ok(())
}

/// The first equal neighbours of a sorted sequence are its lowest duplicate.
proof fn lemma_first_duplicate(s: Seq<u64>, t: Seq<u64>, k: int)
    requires
        s.to_multiset() == t.to_multiset(),
        ascending(t, key_of::<u64>()),
        0 < k < t.len(),
        t[k - 1] == t[k],
        forall|q: int| 0 < q < k ==> t[q - 1] < #[trigger] t[q],
    ensures
        occurs_twice(s, t[k]),
        forall|x: u64| #[trigger] occurs_twice(s, x) ==> t[k] <= x,
{
    let d = t[k];
    assert(t[k - 1] == d && t[k] == d);
    assert(occurs_twice(t, d));
    lemma_twice_transfer(t, s, d);
    assert forall|x: u64| #[trigger] occurs_twice(s, x) implies d <= x by {
        lemma_twice_transfer(s, t, x);
        let (a, b) = choose|a: int, b: int|
            0 <= a < b < t.len() && #[trigger] t[a] == x && #[trigger] t[b] == x;
        if b < k {
            lemma_rising(t, a, b, k);
        } else {
            assert(key_of::<u64>()(t[k]) <= key_of::<u64>()(t[b]));
        }
    }
}

/// A sorted sequence whose neighbours all rise has no duplicates.
proof fn lemma_all_rise(s: Seq<u64>, t: Seq<u64>)
    requires
        s.to_multiset() == t.to_multiset(),
        forall|q: int| 0 < q < t.len() ==> t[q - 1] < #[trigger] t[q],
    ensures
        strictly_ascending(t, key_of::<u64>()),
        s.no_duplicates(),
{
    assert forall|a: int, b: int| 0 <= a < b < t.len() implies key_of::<u64>()(#[trigger] t[a])
        < key_of::<u64>()(#[trigger] t[b]) by {
        lemma_rising(t, a, b, t.len() as int);
    }
    assert forall|a: int, b: int| 0 <= a < t.len() && 0 <= b < t.len() && a != b implies t[a]
        != t[b] by {
        if a < b {
            assert(key_of::<u64>()(t[a]) < key_of::<u64>()(t[b]));
        } else {
            assert(key_of::<u64>()(t[b]) < key_of::<u64>()(t[a]));
        }
    }
    assert(t.no_duplicates());
    t.lemma_multiset_has_no_duplicates();
    s.lemma_multiset_has_no_duplicates_conv();
}

/// Neighbours that rise up to `k` rise over any distance below it.
proof fn lemma_rising(t: Seq<u64>, a: int, b: int, k: int)
    requires
        0 <= a < b < k <= t.len(),
        forall|q: int| 0 < q < k ==> t[q - 1] < #[trigger] t[q],
    ensures
        t[a] < t[b],
    decreases b - a,
{
    assert(t[b - 1] < t[b]);
    if a < b - 1 {
        lemma_rising(t, a, b - 1, k);
    }
}

/// Occurring twice depends on the elements, not on their order.
proof fn lemma_twice_transfer(s: Seq<u64>, t: Seq<u64>, x: u64)
    requires
        s.to_multiset() == t.to_multiset(),
        occurs_twice(s, x),
    ensures
        occurs_twice(t, x),
{
    broadcast use vstd::seq_lib::group_to_multiset_ensures;

    let (i, j) = choose|i: int, j: int|
        0 <= i < j < s.len() && #[trigger] s[i] == x && #[trigger] s[j] == x;
    let s1 = s.remove(j);
    assert(s1[i] == x);
    assert(s1.contains(x));
    assert(s1.to_multiset().count(x) > 0);
    assert(s1.to_multiset() =~= s.to_multiset().remove(x));
    assert(t.to_multiset().count(x) > 1);
    assert(t.contains(x));
    let a = choose|a: int| 0 <= a < t.len() && t[a] == x;
    let t1 = t.remove(a);
    assert(t1.to_multiset() =~= t.to_multiset().remove(x));
    assert(t1.to_multiset().count(x) > 0);
    assert(t1.contains(x));
    let b = choose|b: int| 0 <= b < t1.len() && t1[b] == x;
    if b < a {
        assert(t[b] == x && t[a] == x);
    } else {
        assert(t[b + 1] == x && t[a] == x);
    }
}

/// Whether a sorted column holds `x`.
fn column_has(base: &Vec<u64>, x: u64) -> (r: bool)
    requires
        strictly_ascending(base@, key_of::<u64>()),
    ensures
        r == base@.contains(x),
{
    let mut lo: usize = 0;
    let mut hi: usize = base.len();
    while lo < hi
        invariant
            lo <= hi <= base@.len(),
            strictly_ascending(base@, key_of::<u64>()),
            forall|k: int| 0 <= k < lo ==> #[trigger] base@[k] < x,
            forall|k: int| hi <= k < base@.len() ==> #[trigger] base@[k] > x,
        decreases hi - lo,
    {
        let mid: usize = lo + (hi - lo) / 2;
        let y: u64 = base[mid];
        if y == x {
            assert(base@.contains(x));
            return true;
        }
        if y < x {
            assert forall|k: int| 0 <= k < mid + 1 implies #[trigger] base@[k] < x by {
                if k < mid {
                    assert(key_of::<u64>()(base@[k]) < key_of::<u64>()(base@[mid as int]));
                }
            }
            lo = mid + 1;
        } else {
            assert forall|k: int| mid <= k < base@.len() implies #[trigger] base@[k] > x by {
                if k > mid {
                    assert(key_of::<u64>()(base@[mid as int]) < key_of::<u64>()(base@[k]));
                }
            }
            hi = mid;
        }
    }
    false
}

impl LogicalIdDirectory {
    /// A directory that holds exactly these ids, and the whole corpus.
    pub fn from_ids(ids: Vec<u64>) -> (r: Result<Self, ShardError>)
        ensures
            match r {
                Ok(d) => d.wf() && d.authoritative && ids@.no_duplicates() && d.ids()
                    == ids@.to_set() && d.base@ == stable_sort(ids@, key_of::<u64>()),
                Err(ShardError::DuplicateLogicalId(d)) => occurs_twice(ids@, d) && forall|x: u64|
                    #[trigger] occurs_twice(ids@, x) ==> d <= x,
                Err(_) => false,
            },
    {
        let mut ids = ids;
        let ghost given = ids@;
        match sort_and_check_unique(&mut ids) {
            Ok(_) => {
                let r = LogicalIdDirectory {
                    base: ids,
                    added: HashSet::new(),
                    removed: HashSet::new(),
                    authoritative: true,
                };
                proof {
                    lemma_stable_sort(given, key_of::<u64>());
                    assert(r.ids() =~= given.to_set()) by {
                        assert forall|x: u64| r.ids().contains(x) <==> given.to_set().contains(
                            x,
                        ) by {
                            assert(stable_sort(given, key_of::<u64>()).contains(x)
                                <==> given.contains(x));
                        }
                    }
                }
                Ok(r)
            },
            Err(e) => Err(e),
        }
    }

    /// Whether an id is taken.
    pub fn contains(&self, logical: u64) -> (r: bool)
        requires
            self.wf(),
        ensures
            r == self.ids().contains(logical),
    {
        self.added.contains(&logical) || (!self.removed.contains(&logical) && column_has(
            &self.base,
            logical,
        ))
    }

    /// Takes an id; tells whether it was free.
    pub fn insert(&mut self, logical: u64) -> (r: bool)
        requires
            old(self).wf(),
        ensures
            final(self).wf(),
            r == !old(self).ids().contains(logical),
            final(self).ids() == old(self).ids().insert(logical),
            final(self).authoritative == old(self).authoritative,
    {
        if self.contains(logical) {
            assert(self.ids() =~= old(self).ids().insert(logical));
            return false;
        }
        if column_has(&self.base, logical) {
            self.removed.remove(&logical);
        } else {
            self.added.insert(logical);
        }
        assert(self.ids() =~= old(self).ids().insert(logical));
        true
    }

    /// Frees an id; tells whether it was taken.
    pub fn remove(&mut self, logical: u64) -> (r: bool)
        requires
            old(self).wf(),
        ensures
            final(self).wf(),
            r == old(self).ids().contains(logical),
            final(self).ids() == old(self).ids().remove(logical),
            final(self).authoritative == old(self).authoritative,
    {
        if self.added.remove(&logical) {
            assert(self.ids() =~= old(self).ids().remove(logical));
            return true;
        }
        if self.removed.contains(&logical) || !column_has(&self.base, logical) {
            assert(self.ids() =~= old(self).ids().remove(logical));
            return false;
        }
        self.removed.insert(logical);
        assert(self.ids() =~= old(self).ids().remove(logical));
        true
    }

    /// Folds the ids that came and went into the column. Which ids are taken does not change.
    pub fn compact(&mut self)
        requires
            old(self).wf(),
        ensures
            final(self).wf(),
            final(self).ids() == old(self).ids(),
            final(self).added@.is_empty(),
            final(self).removed@.is_empty(),
            final(self).authoritative == old(self).authoritative,
            forall|x: u64| #[trigger] final(self).base@.contains(x) <==> old(self).ids().contains(x),
    {
        if self.added.is_empty() && self.removed.is_empty() {
            assert(self.added@ =~= Set::<u64>::empty());
            return ;
        }
        let ghost ids = self.ids();
        let ghost base = self.base@;
        let mut all: Vec<u64> = Vec::new();
        let n: usize = self.base.len();
        let mut i: usize = 0;
        while i < n
            invariant
                n == self.base@.len(),
                self.base@ == base,
                *self == *old(self),
                self.wf(),
                i <= n,
                forall|x: u64| #[trigger]
                    all@.contains(x) <==> (base.take(i as int).contains(x)
                        && !self.removed@.contains(x)),
                all@.no_duplicates(),
            decreases n - i,
        {
            let x: u64 = self.base[i];
            let ghost before = all@;
            let ghost t = base.take(i as int);
            proof {
                assert(base.take(i + 1) =~= t.push(x));
                assert(!t.contains(x)) by {
                    if t.contains(x) {
                        let k = choose|k: int| 0 <= k < t.len() && t[k] == x;
                        assert(key_of::<u64>()(base[k]) < key_of::<u64>()(base[i as int]));
                    }
                }
            }
            proof {
                assert(!before.contains(x));
            }
            if !self.removed.contains(&x) {
                all.push(x);
            }
            proof {
                assert forall|y: u64| #[trigger] all@.contains(y) <==> (base.take(i + 1).contains(y)
                    && !self.removed@.contains(y)) by {
                    lemma_push_contains(t, x, y);
                    lemma_push_contains(before, x, y);
                }
            }
            i = i + 1;
        }
        assert(base.take(n as int) =~= base);
        let ghost kept = all@;
        for x in it: self.added.iter()
            invariant
                it.seq().unref().to_set() == self.added@,
                it.seq().unref().no_duplicates(),
                *self == *old(self),
                self.wf(),
                base == self.base@,
                kept.no_duplicates(),
                forall|y: u64| #[trigger]
                    kept.contains(y) <==> (base.contains(y) && !self.removed@.contains(y)),
                all@ == kept + it.seq().unref().take(it.index()),
                it.seq().unref().take(it.seq().len() as int) == it.seq().unref(),
        {
            let ghost added = it.seq().unref();
            all.push(*x);
            proof {
                assert(added.take(it.index() + 1) =~= added.take(it.index()).push(*x));
                assert(all@ =~= kept + added.take(it.index() + 1));
            }
        }
        let ghost gathered = all@;
        proof {
            lemma_gathered(*self, kept, gathered);
        }
        let sorted = merge_sort(&all);
        proof {
            broadcast use vstd::seq_lib::group_to_multiset_ensures;

            gathered.lemma_multiset_has_no_duplicates();
            sorted@.lemma_multiset_has_no_duplicates_conv();
            assert forall|a: int, b: int| 0 <= a < b < sorted@.len() implies key_of::<u64>()(
                #[trigger] sorted@[a],
            ) != key_of::<u64>()(#[trigger] sorted@[b]) by {
                assert(sorted@[a] != sorted@[b]);
            }
            lemma_ascending_strict(sorted@, key_of::<u64>());
            assert forall|x: u64| #[trigger] sorted@.contains(x) <==> ids.contains(x) by {
                assert(sorted@.contains(x) <==> sorted@.to_multiset().count(x) > 0);
                assert(gathered.contains(x) <==> gathered.to_multiset().count(x) > 0);
            }
        }
        self.base = sorted;
        self.added.clear();
        self.removed.clear();
        assert(self.ids() =~= ids);
    }
}

proof fn lemma_push_contains(s: Seq<u64>, x: u64, y: u64)
    ensures
        s.push(x).contains(y) <==> (y == x || s.contains(y)),
{
    if s.contains(y) {
        let k = choose|k: int| 0 <= k < s.len() && s[k] == y;
        assert(s.push(x)[k] == y);
    }
    if s.push(x).contains(y) && y != x {
        let k = choose|k: int| 0 <= k < s.push(x).len() && s.push(x)[k] == y;
        assert(s[k] == y);
    }
    assert(s.push(x)[s.len() as int] == x);
}

proof fn lemma_gathered(d: LogicalIdDirectory, kept: Seq<u64>, gathered: Seq<u64>)
    requires
        d.wf(),
        kept.no_duplicates(),
        forall|y: u64| #[trigger]
            kept.contains(y) <==> (d.base@.contains(y) && !d.removed@.contains(y)),
        exists|a: Seq<u64>|
            a.no_duplicates() && a.to_set() == d.added@ && gathered == #[trigger] (kept + a),
    ensures
        gathered.no_duplicates(),
        forall|x: u64| #[trigger] gathered.contains(x) <==> d.ids().contains(x),
{
    let a = choose|a: Seq<u64>|
        a.no_duplicates() && a.to_set() == d.added@ && gathered == #[trigger] (kept + a);
    assert forall|x: u64| #[trigger] gathered.contains(x) <==> d.ids().contains(x) by {
        if gathered.contains(x) {
            let k = choose|k: int| 0 <= k < gathered.len() && gathered[k] == x;
            if k < kept.len() {
                assert(kept[k] == x);
                assert(kept.contains(x));
            } else {
                assert(a[k - kept.len()] == x);
                assert(a.to_set().contains(x));
            }
        }
        if d.added@.contains(x) {
            assert(a.contains(x));
            let k = choose|k: int| 0 <= k < a.len() && a[k] == x;
            assert(gathered[kept.len() + k] == x);
        } else if d.ids().contains(x) {
            assert(kept.contains(x));
            let k = choose|k: int| 0 <= k < kept.len() && kept[k] == x;
            assert(gathered[k] == x);
        }
    }
    assert forall|i: int, j: int|
        0 <= i < gathered.len() && 0 <= j < gathered.len() && i != j implies gathered[i]
        != gathered[j] by {
        let n = kept.len() as int;
        if i < n && j >= n {
            assert(kept.contains(kept[i]));
            assert(a.to_set().contains(a[j - n]));
            assert(d.added@.contains(a[j - n]));
        } else if j < n && i >= n {
            assert(kept.contains(kept[j]));
            assert(a.to_set().contains(a[i - n]));
            assert(d.added@.contains(a[i - n]));
        }
    }
}

/// The lock that guards writers of one id.
pub fn logical_stripe(logical: u64, stripes: usize) -> (r: usize)
    requires
        stripes > 0,
    ensures
        r < stripes,
        r == (logical ^ (logical >> 32)) % (stripes as u64),
{
    let mixed: u64 = logical ^ (logical >> 32);
    (mixed % (stripes as u64)) as usize
}

/// Refuses to add an id that is taken, and any id at all where the directory does not hold the
/// whole corpus: an id that it lacks may be taken all the same.
pub fn check_free(directory: &LogicalIdDirectory, logical: u64) -> (r: Result<(), ShardError>)
    requires
        directory.wf(),
    ensures
        !directory.authoritative ==> r is Err,
        directory.authoritative ==> (r is Ok <==> !directory.ids().contains(logical)),
        r matches Err(e) ==> e@ == if directory.ids().contains(logical) {
            ShardErrorView::DuplicateLogicalId(logical)
        } else {
            ShardErrorView::Config(
                "adding a query requires an authoritative logical-id directory; replace it by an upsert, or rebuild the cluster from the authoritative corpus"@,
            )
        },
{
    if directory.contains(logical) {
        Err(ShardError::DuplicateLogicalId(logical))
    } else if !directory.authoritative {
        Err(
            ShardError::Config(
                String::from_str(
                    "adding a query requires an authoritative logical-id directory; replace it by an upsert, or rebuild the cluster from the authoritative corpus",
                ),
            ),
        )
    } else {
        Ok(())
    }
}

} // verus!
