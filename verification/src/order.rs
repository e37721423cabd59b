//! Sorting by an integer key.
//!
//! [`stable_sort`] is the mathematical meaning of a stable sort; the executable sorts below are
//! proved to compute it.
use vstd::prelude::*;

verus! {

/// `s` is in ascending order of `key`.
pub open spec fn ascending<A>(s: Seq<A>, key: spec_fn(A) -> int) -> bool {
    forall|i: int, j: int| 0 <= i <= j < s.len() ==> key(#[trigger] s[i]) <= key(#[trigger] s[j])
}

/// `s` is in strictly ascending order of `key`, so no key occurs twice.
pub open spec fn strictly_ascending<A>(s: Seq<A>, key: spec_fn(A) -> int) -> bool {
    forall|i: int, j: int| 0 <= i < j < s.len() ==> key(#[trigger] s[i]) < key(#[trigger] s[j])
}

/// No two different elements of `s` have the same key.
pub open spec fn injective_on<A>(s: Seq<A>, key: spec_fn(A) -> int) -> bool {
    forall|a: A, b: A| #[trigger]
        s.contains(a) && #[trigger] s.contains(b) && key(a) == key(b) ==> a == b
}

/// No key occurs twice in `s`, whatever its order.
pub open spec fn distinct_keys<A>(s: Seq<A>, key: spec_fn(A) -> int) -> bool {
    forall|i: int, j: int| 0 <= i < j < s.len() ==> key(#[trigger] s[i]) != key(#[trigger] s[j])
}

/// `s` with `x` placed behind the last element whose key is at most that of `x`, counted from the
/// end of `s`.
pub open spec fn sorted_insert<A>(s: Seq<A>, x: A, key: spec_fn(A) -> int) -> Seq<A>
    decreases s.len(),
{
    if s.len() == 0 || key(s.last()) <= key(x) {
        s.push(x)
    } else {
        sorted_insert(s.drop_last(), x, key).push(s.last())
    }
}

/// The elements of `s` in ascending order of `key`; elements with equal keys keep their order.
pub open spec fn stable_sort<A>(s: Seq<A>, key: spec_fn(A) -> int) -> Seq<A>
    decreases s.len(),
{
    if s.len() == 0 {
        s
    } else {
        sorted_insert(stable_sort(s.drop_last(), key), s.last(), key)
    }
}

/// Inserting into an ascending sequence keeps it ascending and adds exactly one element.
pub proof fn lemma_sorted_insert<A>(s: Seq<A>, x: A, key: spec_fn(A) -> int)
    requires
        ascending(s, key),
    ensures
        ascending(sorted_insert(s, x, key), key),
        sorted_insert(s, x, key).len() == s.len() + 1,
        sorted_insert(s, x, key).to_multiset() == s.to_multiset().insert(x),
    decreases s.len(),
{
    broadcast use vstd::seq_lib::group_to_multiset_ensures;

    let r = sorted_insert(s, x, key);
    if s.len() == 0 || key(s.last()) <= key(x) {
        assert(r == s.push(x));
    } else {
        let t = s.drop_last();
        lemma_sorted_insert(t, x, key);
        let u = sorted_insert(t, x, key);
        assert(s =~= t.push(s.last()));
        assert(r == u.push(s.last()));
        assert(s.to_multiset() =~= t.to_multiset().insert(s.last()));
        assert(r.to_multiset() =~= s.to_multiset().insert(x));
        assert forall|i: int, j: int| 0 <= i <= j < r.len() implies key(#[trigger] r[i]) <= key(
            #[trigger] r[j],
        ) by {
            if j == r.len() - 1 && i < j {
                assert(u.to_multiset().contains(u[i]));
                assert(t.to_multiset().insert(x).contains(u[i]));
                if u[i] != x {
                    assert(t.to_multiset().contains(u[i]));
                    assert(t.contains(u[i]));
                }
            }
        }
    }
}

/// The index at which an insertion happens determines its result.
pub proof fn lemma_sorted_insert_at<A>(s: Seq<A>, x: A, key: spec_fn(A) -> int, j: int)
    requires
        0 <= j <= s.len(),
        forall|i: int| j <= i < s.len() ==> key(#[trigger] s[i]) > key(x),
        j > 0 ==> key(s[j - 1]) <= key(x),
    ensures
        sorted_insert(s, x, key) == s.insert(j, x),
    decreases s.len(),
{
    if j == s.len() {
        assert(s.insert(j, x) =~= s.push(x));
    } else {
        assert(key(s[s.len() - 1]) > key(x));
        lemma_sorted_insert_at(s.drop_last(), x, key, j);
        assert(s.drop_last().insert(j, x).push(s.last()) =~= s.insert(j, x));
    }
}

/// A stable sort is ascending and holds exactly the elements it was given.
pub proof fn lemma_stable_sort<A>(s: Seq<A>, key: spec_fn(A) -> int)
    ensures
        ascending(stable_sort(s, key), key),
        stable_sort(s, key).len() == s.len(),
        stable_sort(s, key).to_multiset() == s.to_multiset(),
        forall|x: A| #[trigger] stable_sort(s, key).contains(x) <==> s.contains(x),
    decreases s.len(),
{
    broadcast use vstd::seq_lib::group_to_multiset_ensures;

    if s.len() > 0 {
        lemma_stable_sort(s.drop_last(), key);
        lemma_sorted_insert(stable_sort(s.drop_last(), key), s.last(), key);
        assert(s =~= s.drop_last().push(s.last()));
    }
    let r = stable_sort(s, key);
    assert(r.to_multiset() == s.to_multiset());
    assert forall|x: A| #[trigger] r.contains(x) <==> s.contains(x) by {
        assert(r.contains(x) <==> r.to_multiset().count(x) > 0);
        assert(s.contains(x) <==> s.to_multiset().count(x) > 0);
    }
}

/// Sorting an ascending sequence changes nothing.
pub proof fn lemma_stable_sort_fixed<A>(s: Seq<A>, key: spec_fn(A) -> int)
    requires
        ascending(s, key),
    ensures
        stable_sort(s, key) == s,
    decreases s.len(),
{
    if s.len() > 0 {
        lemma_stable_sort_fixed(s.drop_last(), key);
        assert(s =~= s.drop_last().push(s.last()));
        if s.len() > 1 {
            assert(s.drop_last().last() == s[s.len() - 2]);
        }
    }
}

/// Two ascending sequences with the same elements are equal if the key tells elements apart.
pub proof fn lemma_ascending_unique<A>(s: Seq<A>, t: Seq<A>, key: spec_fn(A) -> int)
    requires
        ascending(s, key),
        ascending(t, key),
        s.to_multiset() == t.to_multiset(),
        injective_on(s, key),
    ensures
        s == t,
    decreases s.len(),
{
    broadcast use vstd::seq_lib::group_to_multiset_ensures;

    assert(s.len() == s.to_multiset().len());
    assert(t.len() == t.to_multiset().len());
    if s.len() > 0 {
        let n = s.len() - 1;
        assert(s.to_multiset().contains(s[n]));
        assert(t.to_multiset().contains(t[n]));
        assert(t.contains(s[n]));
        assert(s.contains(t[n]));
        assert(s.contains(s[n]));
        let i = choose|i: int| 0 <= i < t.len() && t[i] == s[n];
        let j = choose|j: int| 0 <= j < s.len() && s[j] == t[n];
        assert(key(t[i]) <= key(t[n]));
        assert(key(s[j]) <= key(s[n]));
        assert(s[n] == t[n]);
        let s1 = s.drop_last();
        let t1 = t.drop_last();
        assert(s =~= s1.push(s[n]));
        assert(t =~= t1.push(t[n]));
        assert(s1.to_multiset() =~= s.to_multiset().remove(s[n]));
        assert(t1.to_multiset() =~= t.to_multiset().remove(t[n]));
        assert forall|a: A, b: A| #[trigger]
            s1.contains(a) && #[trigger] s1.contains(b) && key(a) == key(b) implies a == b by {
            let ia = choose|k: int| 0 <= k < s1.len() && s1[k] == a;
            let ib = choose|k: int| 0 <= k < s1.len() && s1[k] == b;
            assert(s[ia] == a && s[ib] == b);
            assert(s.contains(a) && s.contains(b));
        }
        lemma_ascending_unique(s1, t1, key);
    } else {
        assert(s =~= t);
    }
}

/// Two strictly ascending sequences with the same set of elements are equal.
pub proof fn lemma_strictly_ascending_unique<A>(s: Seq<A>, t: Seq<A>, key: spec_fn(A) -> int)
    requires
        strictly_ascending(s, key),
        strictly_ascending(t, key),
        forall|x: A| #[trigger] s.contains(x) <==> t.contains(x),
    ensures
        s == t,
    decreases s.len(),
{
    if s.len() == 0 {
        if t.len() > 0 {
            assert(t.contains(t[0]));
            assert(s.contains(t[0]));
        }
        assert(s =~= t);
    } else {
        let n = s.len() - 1;
        assert(s.contains(s[n]));
        assert(t.contains(s[n]));
        let m = t.len() - 1;
        assert(t.contains(t[m]));
        assert(s.contains(t[m]));
        let i = choose|i: int| 0 <= i < t.len() && t[i] == s[n];
        let j = choose|j: int| 0 <= j < s.len() && s[j] == t[m];
        assert(i == m) by {
            if i < m {
                assert(key(t[i]) < key(t[m]));
                if j < n {
                    assert(key(s[j]) < key(s[n]));
                }
            }
        }
        let s1 = s.drop_last();
        let t1 = t.drop_last();
        assert forall|x: A| #[trigger] s1.contains(x) <==> t1.contains(x) by {
            if s1.contains(x) {
                let a = choose|a: int| 0 <= a < s1.len() && s1[a] == x;
                assert(s[a] == x);
                assert(s.contains(x));
                assert(t.contains(x));
                let b = choose|b: int| 0 <= b < t.len() && t[b] == x;
                assert(key(s[a]) < key(s[n]));
                assert(b != m);
                assert(t1[b] == x);
            }
            if t1.contains(x) {
                let b = choose|b: int| 0 <= b < t1.len() && t1[b] == x;
                assert(t[b] == x);
                assert(t.contains(x));
                assert(s.contains(x));
                let a = choose|a: int| 0 <= a < s.len() && s[a] == x;
                assert(key(t[b]) < key(t[m]));
                assert(a != n);
                assert(s1[a] == x);
            }
        }
        lemma_strictly_ascending_unique(s1, t1, key);
        assert(s =~= s1.push(s[n]));
        assert(t =~= t1.push(t[m]));
    }
}

/// An ascending sequence whose keys are all different is strictly ascending.
pub proof fn lemma_ascending_strict<A>(s: Seq<A>, key: spec_fn(A) -> int)
    requires
        ascending(s, key),
        forall|i: int, j: int| 0 <= i < j < s.len() ==> key(#[trigger] s[i]) != key(#[trigger] s[j]),
    ensures
        strictly_ascending(s, key),
{
}

/// Sorting commutes with a map that keeps the keys.
pub proof fn lemma_stable_sort_map<A, B>(
    s: Seq<A>,
    key: spec_fn(A) -> int,
    f: spec_fn(A) -> B,
    image_key: spec_fn(B) -> int,
)
    requires
        forall|a: A| #[trigger] image_key(f(a)) == key(a),
    ensures
        stable_sort(s, key).map_values(f) == stable_sort(s.map_values(f), image_key),
    decreases s.len(),
{
    if s.len() == 0 {
        assert(stable_sort(s, key).map_values(f) =~= s.map_values(f));
    } else {
        lemma_stable_sort_map(s.drop_last(), key, f, image_key);
        lemma_sorted_insert_map(stable_sort(s.drop_last(), key), s.last(), key, f, image_key);
        assert(s.map_values(f).drop_last() =~= s.drop_last().map_values(f));
        assert(s.map_values(f).last() == f(s.last()));
    }
}

proof fn lemma_sorted_insert_map<A, B>(
    s: Seq<A>,
    x: A,
    key: spec_fn(A) -> int,
    f: spec_fn(A) -> B,
    image_key: spec_fn(B) -> int,
)
    requires
        forall|a: A| #[trigger] image_key(f(a)) == key(a),
    ensures
        sorted_insert(s, x, key).map_values(f) == sorted_insert(s.map_values(f), f(x), image_key),
    decreases s.len(),
{
    let m = s.map_values(f);
    assert(image_key(f(x)) == key(x));
    if s.len() == 0 || key(s.last()) <= key(x) {
        if s.len() > 0 {
            assert(m.last() == f(s.last()));
            assert(image_key(f(s.last())) == key(s.last()));
        }
        assert(s.push(x).map_values(f) =~= m.push(f(x)));
    } else {
        assert(m.last() == f(s.last()));
        assert(image_key(f(s.last())) == key(s.last()));
        lemma_sorted_insert_map(s.drop_last(), x, key, f, image_key);
        assert(m.drop_last() =~= s.drop_last().map_values(f));
        assert(sorted_insert(s.drop_last(), x, key).push(s.last()).map_values(f) =~= sorted_insert(
            s.drop_last(),
            x,
            key,
        ).map_values(f).push(f(s.last())));
    }
}

/// A value that is sorted by a key.
pub trait Keyed: Sized {
    /// The key.
    spec fn key(&self) -> int;

    /// The key, as a machine integer.
    fn sort_key(&self) -> (k: u128)
        ensures
            k as int == self.key(),
    ;
}

/// The key of a [`Keyed`] value, as a function.
pub open spec fn key_of<T: Keyed>() -> spec_fn(T) -> int {
    |t: T| t.key()
}

impl Keyed for u64 {
    open spec fn key(&self) -> int {
        *self as int
    }

    fn sort_key(&self) -> (k: u128) {
        *self as u128
    }
}

impl Keyed for u32 {
    open spec fn key(&self) -> int {
        *self as int
    }

    fn sort_key(&self) -> (k: u128) {
        *self as u128
    }
}

impl Keyed for usize {
    open spec fn key(&self) -> int {
        *self as int
    }

    fn sort_key(&self) -> (k: u128) {
        *self as u128
    }
}

/// Sorts in place by insertion; meant for short sequences.
pub fn insertion_sort<T: Keyed>(v: &mut Vec<T>)
    ensures
        final(v)@ == stable_sort(old(v)@, key_of::<T>()),
{
    let ghost s = v@;
    let ghost key = key_of::<T>();
    let n: usize = v.len();
    let mut i: usize = 0;
    assert(v@ =~= stable_sort(s.take(0), key) + s.skip(0));
    while i < n
        invariant
            n == s.len(),
            i <= n,
            key == key_of::<T>(),
            v@ == stable_sort(s.take(i as int), key) + s.skip(i as int),
        decreases n - i,
    {
        let ghost done = stable_sort(s.take(i as int), key);
        proof {
            lemma_stable_sort(s.take(i as int), key);
        }
        assert(v@.len() == n);
        let x = v.remove(i);
        assert(x == s[i as int]);
        let ghost rest = v@;
        assert(rest =~= done + s.skip(i + 1));
        let k: u128 = x.sort_key();
        let mut j: usize = i;
        while j > 0 && v[j - 1].sort_key() > k
            invariant
                j <= i < n,
                v@ == rest,
                rest == done + s.skip(i + 1),
                done.len() == i,
                k as int == x.key(),
                key == key_of::<T>(),
                forall|q: int| j <= q < i ==> key(#[trigger] done[q]) > key(x),
            decreases j,
        {
            j = j - 1;
        }
        proof {
            lemma_sorted_insert_at(done, x, key, j as int);
            assert(s.take(i + 1).drop_last() =~= s.take(i as int));
            assert(rest.insert(j as int, x) =~= done.insert(j as int, x) + s.skip(i + 1));
        }
        v.insert(j, x);
        i = i + 1;
    }
    assert(s.take(n as int) =~= s);
    assert(v@ =~= stable_sort(s, key));
}

fn merge<T: Keyed + Copy>(a: &Vec<T>, b: &Vec<T>) -> (r: Vec<T>)
    requires
        ascending(a@, key_of::<T>()),
        ascending(b@, key_of::<T>()),
    ensures
        ascending(r@, key_of::<T>()),
        r@.to_multiset() == (a@ + b@).to_multiset(),
{
    broadcast use vstd::seq_lib::group_to_multiset_ensures;

    let ghost key = key_of::<T>();
    let mut r: Vec<T> = Vec::new();
    let mut i: usize = 0;
    let mut j: usize = 0;
    assert(a@.take(0) + b@.take(0) =~= Seq::<T>::empty());
    while i < a.len() || j < b.len()
        invariant
            i <= a.len(),
            j <= b.len(),
            key == key_of::<T>(),
            ascending(a@, key),
            ascending(b@, key),
            ascending(r@, key),
            forall|p: int, q: int|
                0 <= p < r@.len() && i <= q < a@.len() ==> key(#[trigger] r@[p]) <= key(
                    #[trigger] a@[q],
                ),
            forall|p: int, q: int|
                0 <= p < r@.len() && j <= q < b@.len() ==> key(#[trigger] r@[p]) <= key(
                    #[trigger] b@[q],
                ),
            r@.to_multiset() == (a@.take(i as int) + b@.take(j as int)).to_multiset(),
        decreases a.len() - i + b.len() - j,
    {
        broadcast use vstd::seq_lib::group_to_multiset_ensures;

        let from_a: bool = if i == a.len() {
            false
        } else if j == b.len() {
            true
        } else {
            a[i].sort_key() <= b[j].sort_key()
        };
        if from_a {
            let ghost before = a@.take(i as int) + b@.take(j as int);
            proof {
                assert(a@.take(i + 1) + b@.take(j as int) =~= before.insert(i as int, a@[i as int]));
            }
            r.push(a[i]);
            i = i + 1;
        } else {
            let ghost before = a@.take(i as int) + b@.take(j as int);
            proof {
                assert(a@.take(i as int) + b@.take(j + 1) =~= before.push(b@[j as int]));
            }
            r.push(b[j]);
            j = j + 1;
        }
    }
    assert(a@.take(i as int) + b@.take(j as int) =~= a@ + b@);
    r
}

/// Sorts by merging; the result is the one ascending arrangement wherever keys tell the elements
/// apart.
pub fn merge_sort<T: Keyed + Copy>(v: &Vec<T>) -> (r: Vec<T>)
    ensures
        ascending(r@, key_of::<T>()),
        r@.to_multiset() == v@.to_multiset(),
        r@.len() == v@.len(),
        injective_on(v@, key_of::<T>()) ==> r@ == stable_sort(v@, key_of::<T>()),
{
    broadcast use vstd::seq_lib::group_to_multiset_ensures;

    let r = merge_sort_range(v, 0, v.len());
    assert(v@.subrange(0, v@.len() as int) =~= v@);
    proof {
        if injective_on(v@, key_of::<T>()) {
            lemma_stable_sort(v@, key_of::<T>());
            assert forall|x: T| #[trigger] r@.contains(x) implies v@.contains(x) by {
                assert(r@.to_multiset().count(x) > 0);
            }
            lemma_ascending_unique(r@, stable_sort(v@, key_of::<T>()), key_of::<T>());
        }
    }
    r
}

fn merge_sort_range<T: Keyed + Copy>(v: &Vec<T>, lo: usize, hi: usize) -> (r: Vec<T>)
    requires
        lo <= hi <= v.len(),
    ensures
        ascending(r@, key_of::<T>()),
        r@.to_multiset() == v@.subrange(lo as int, hi as int).to_multiset(),
        r@.len() == hi - lo,
    decreases hi - lo,
{
    broadcast use vstd::seq_lib::group_to_multiset_ensures;

    if hi - lo == 0 {
        let r: Vec<T> = Vec::new();
        assert(r@ =~= v@.subrange(lo as int, hi as int));
        r
    } else if hi - lo == 1 {
        let mut r: Vec<T> = Vec::new();
        r.push(v[lo]);
        assert(r@ =~= v@.subrange(lo as int, hi as int));
        r
    } else {
        let mid: usize = lo + (hi - lo) / 2;
        let a = merge_sort_range(v, lo, mid);
        let b = merge_sort_range(v, mid, hi);
        let r = merge(&a, &b);
        proof {
            let va = v@.subrange(lo as int, mid as int);
            let vb = v@.subrange(mid as int, hi as int);
            assert(v@.subrange(lo as int, hi as int) =~= va + vb);
            vstd::seq_lib::lemma_multiset_commutative(va, vb);
            vstd::seq_lib::lemma_multiset_commutative(a@, b@);
            assert(r@.len() == r@.to_multiset().len());
            assert((va + vb).len() == (va + vb).to_multiset().len());
        }
        r
    }
}

/// A copyable value that its key identifies.
pub trait Exact: Keyed + Copy {
    /// Equal keys mean equal values.
    proof fn key_is_exact(a: Self, b: Self)
        requires
            a.key() == b.key(),
        ensures
            a == b,
    ;
}

impl Exact for u64 {
    proof fn key_is_exact(a: Self, b: Self) {
    }
}

impl Exact for u32 {
    proof fn key_is_exact(a: Self, b: Self) {
    }
}

impl Exact for usize {
    proof fn key_is_exact(a: Self, b: Self) {
    }
}

/// `s` without the elements that repeat the one before them.
pub open spec fn dedup<A>(s: Seq<A>) -> Seq<A>
    decreases s.len(),
{
    if s.len() <= 1 {
        s
    } else if s.last() == s[s.len() - 2] {
        dedup(s.drop_last())
    } else {
        dedup(s.drop_last()).push(s.last())
    }
}

/// The members of `s`, each once, in ascending order of the key.
pub open spec fn sorted_set<A>(s: Seq<A>, key: spec_fn(A) -> int) -> Seq<A> {
    dedup(stable_sort(s, key))
}

/// Dropping repetitions from an ascending sequence keeps the members and makes it strict.
pub proof fn lemma_dedup<A>(s: Seq<A>, key: spec_fn(A) -> int)
    requires
        ascending(s, key),
        injective_on(s, key),
    ensures
        strictly_ascending(dedup(s), key),
        forall|x: A| #[trigger] dedup(s).contains(x) <==> s.contains(x),
        dedup(s).len() <= s.len(),
        s.len() > 0 ==> dedup(s).len() > 0 && dedup(s).last() == s.last(),
    decreases s.len(),
{
    if s.len() > 1 {
        let d = s.drop_last();
        let n = s.len() - 1;
        assert forall|a: A, b: A| #[trigger]
            d.contains(a) && #[trigger] d.contains(b) && key(a) == key(b) implies a == b by {
            let i = choose|i: int| 0 <= i < d.len() && d[i] == a;
            let j = choose|j: int| 0 <= j < d.len() && d[j] == b;
            assert(s[i] == a && s[j] == b);
            assert(s.contains(a) && s.contains(b));
        }
        lemma_dedup(d, key);
        let e = dedup(d);
        let r = dedup(s);
        assert(s =~= d.push(s[n]));
        assert(d.last() == s[n - 1]);
        if s[n] == s[n - 1] {
            assert forall|x: A| #[trigger] r.contains(x) <==> s.contains(x) by {
                if s.contains(x) {
                    let i = choose|i: int| 0 <= i < s.len() && s[i] == x;
                    if i == n {
                        assert(d[n - 1] == x);
                    } else {
                        assert(d[i] == x);
                    }
                    assert(d.contains(x));
                }
                if d.contains(x) {
                    let i = choose|i: int| 0 <= i < d.len() && d[i] == x;
                    assert(s[i] == x);
                }
            }
        } else {
            assert(s.contains(s[n]) && s.contains(s[n - 1]));
            assert(key(s[n - 1]) < key(s[n]));
            assert(r == e.push(s[n]));
            assert forall|x: A| #[trigger] r.contains(x) <==> s.contains(x) by {
                if s.contains(x) {
                    let i = choose|i: int| 0 <= i < s.len() && s[i] == x;
                    if i < n {
                        assert(d[i] == x);
                        assert(e.contains(x));
                        let j = choose|j: int| 0 <= j < e.len() && e[j] == x;
                        assert(r[j] == x);
                    } else {
                        assert(r[r.len() - 1] == x);
                    }
                }
                if r.contains(x) {
                    let j = choose|j: int| 0 <= j < r.len() && r[j] == x;
                    if j < e.len() {
                        assert(e[j] == x);
                        assert(e.contains(x));
                        let i = choose|i: int| 0 <= i < d.len() && d[i] == x;
                        assert(s[i] == x);
                    } else {
                        assert(s[n] == x);
                    }
                }
            }
            assert forall|i: int, j: int| 0 <= i < j < r.len() implies key(#[trigger] r[i]) < key(
                #[trigger] r[j],
            ) by {
                if j == e.len() {
                    if i < e.len() - 1 {
                        assert(key(e[i]) < key(e[e.len() - 1]));
                    }
                    assert(e.last() == d.last());
                }
            }
        }
    } else {
        assert(dedup(s) == s);
    }
}

/// A sorted set holds exactly the members, strictly ascending; any sequence like that is it.
pub proof fn lemma_sorted_set<A>(s: Seq<A>, key: spec_fn(A) -> int)
    requires
        injective_on(s, key),
    ensures
        strictly_ascending(sorted_set(s, key), key),
        forall|x: A| #[trigger] sorted_set(s, key).contains(x) <==> s.contains(x),
        sorted_set(s, key).len() <= s.len(),
        sorted_set(s, key).len() == 0 <==> s.len() == 0,
{
    lemma_stable_sort(s, key);
    let t = stable_sort(s, key);
    assert forall|a: A, b: A| #[trigger]
        t.contains(a) && #[trigger] t.contains(b) && key(a) == key(b) implies a == b by {
        assert(s.contains(a) && s.contains(b));
    }
    lemma_dedup(t, key);
    assert forall|x: A| #[trigger] sorted_set(s, key).contains(x) <==> s.contains(x) by {
        assert(t.contains(x) <==> s.contains(x));
    }
}

/// Every sequence of exact values has an injective key.
pub proof fn lemma_exact<T: Exact>(s: Seq<T>)
    ensures
        injective_on(s, key_of::<T>()),
{
    assert forall|a: T, b: T| #[trigger]
        s.contains(a) && #[trigger] s.contains(b) && key_of::<T>()(a) == key_of::<T>()(
            b,
        ) implies a == b by {
        T::key_is_exact(a, b);
    }
}

/// Sorts the values and drops repetitions.
pub fn sort_dedup<T: Exact>(v: &Vec<T>) -> (r: Vec<T>)
    ensures
        r@ == sorted_set(v@, key_of::<T>()),
{
    let s = merge_sort(v);
    proof {
        lemma_exact(v@);
    }
    let n: usize = s.len();
    let mut r: Vec<T> = Vec::new();
    let mut i: usize = 0;
    assert(r@ =~= dedup(s@.take(0)));
    while i < n
        invariant
            n == s@.len(),
            i <= n,
            r@ == dedup(s@.take(i as int)),
        decreases n - i,
    {
        let ghost t = s@.take(i + 1);
        assert(t.drop_last() =~= s@.take(i as int));
        if i > 0 {
            let a: u128 = s[i - 1].sort_key();
            let b: u128 = s[i].sort_key();
            if a == b {
                proof {
                    T::key_is_exact(s@[i - 1], s@[i as int]);
                    assert(t.last() == t[t.len() - 2]);
                }
            } else {
                proof {
                    assert(s@[i - 1] != s@[i as int]);
                    assert(t.last() != t[t.len() - 2]);
                }
                r.push(s[i]);
            }
        } else {
            r.push(s[i]);
            proof {
                assert(r@ =~= t);
            }
        }
        i = i + 1;
    }
    assert(s@.take(n as int) =~= s@);
    r
}

/// Has another key than `k`.
pub open spec fn key_differs<A>(key: spec_fn(A) -> int, k: int) -> spec_fn(A) -> bool {
    |x: A| key(x) != k
}

/// `s` without the elements whose key is `k`.
pub open spec fn without<A>(s: Seq<A>, key: spec_fn(A) -> int, k: int) -> Seq<A> {
    s.filter(key_differs(key, k))
}

/// `s` with `x` in place of the elements that have its key, sorted.
pub open spec fn put<A>(s: Seq<A>, key: spec_fn(A) -> int, x: A) -> Seq<A> {
    stable_sort(without(s, key, key(x)).push(x), key)
}

/// Taking a key out keeps a strict order and the other elements.
pub proof fn lemma_without<A>(s: Seq<A>, key: spec_fn(A) -> int, k: int)
    requires
        strictly_ascending(s, key),
    ensures
        strictly_ascending(without(s, key, k), key),
        forall|x: A| #[trigger]
            without(s, key, k).contains(x) <==> (s.contains(x) && key(x) != k),
{
    crate::seqs::lemma_filter_members(s, key_differs(key, k));
    crate::seqs::lemma_filter_strict(s, key_differs(key, k), key);
}

/// Taking a key out of a sequence without repeats leaves one without repeats.
pub proof fn lemma_without_distinct<A>(s: Seq<A>, key: spec_fn(A) -> int, k: int)
    requires
        distinct_keys(s, key),
    ensures
        distinct_keys(without(s, key, k), key),
        forall|x: A| #[trigger]
            without(s, key, k).contains(x) <==> (s.contains(x) && key(x) != k),
    decreases s.len(),
{
    crate::seqs::lemma_filter_members(s, key_differs(key, k));
    reveal(Seq::filter);
    if s.len() > 0 {
        let d = s.drop_last();
        lemma_without_distinct(d, key, k);
        let u = without(d, key, k);
        let t = without(s, key, k);
        assert forall|i: int, j: int| 0 <= i < j < t.len() implies key(#[trigger] t[i]) != key(
            #[trigger] t[j],
        ) by {
            if j == u.len() {
                assert(u.contains(u[i]));
                let m = choose|m: int| 0 <= m < d.len() && d[m] == u[i];
                assert(s[m] == u[i]);
            }
        }
    }
}

/// Taking two keys out gives the same in either order.
pub proof fn lemma_without_commutes<A>(s: Seq<A>, key: spec_fn(A) -> int, a: int, b: int)
    ensures
        without(without(s, key, a), key, b) == without(without(s, key, b), key, a),
    decreases s.len(),
{
    reveal(Seq::filter);
    if s.len() > 0 {
        let d = s.drop_last();
        let x = s.last();
        lemma_without_commutes(d, key, a, b);
        let da = without(d, key, a);
        let db = without(d, key, b);
        assert(da.push(x).drop_last() =~= da);
        assert(db.push(x).drop_last() =~= db);
        assert(without(s, key, a) == if key(x) != a {
            da.push(x)
        } else {
            da
        });
        assert(without(s, key, b) == if key(x) != b {
            db.push(x)
        } else {
            db
        });
    }
}

/// Putting an element in and taking another key out gives the same in either order.
pub proof fn lemma_put_without_commutes<A>(s: Seq<A>, key: spec_fn(A) -> int, x: A, k: int)
    requires
        distinct_keys(s, key),
        key(x) != k,
    ensures
        without(put(s, key, x), key, k) == put(without(s, key, k), key, x),
{
    lemma_put(s, key, x);
    lemma_without_distinct(s, key, k);
    let a = put(s, key, x);
    let b = without(s, key, k);
    lemma_without(a, key, k);
    lemma_put(b, key, x);
    let p = without(a, key, k);
    let q = put(b, key, x);
    assert forall|z: A| #[trigger] p.contains(z) <==> q.contains(z) by {
        assert(a.contains(z) <==> (z == x || (s.contains(z) && key(z) != key(x))));
        assert(b.contains(z) <==> (s.contains(z) && key(z) != k));
    }
    lemma_strictly_ascending_unique(p, q, key);
}

/// Putting an element into a sequence without repeats gives a strict order; it replaces the element
/// with its key and keeps all others.
pub proof fn lemma_put<A>(s: Seq<A>, key: spec_fn(A) -> int, x: A)
    requires
        distinct_keys(s, key),
    ensures
        strictly_ascending(put(s, key, x), key),
        forall|y: A| #[trigger]
            put(s, key, x).contains(y) <==> (y == x || (s.contains(y) && key(y) != key(x))),
{
    let kept = without(s, key, key(x));
    let all = kept.push(x);
    let r = put(s, key, x);
    lemma_without_distinct(s, key, key(x));
    lemma_stable_sort(all, key);
    assert forall|y: A| #[trigger] r.contains(y) <==> (y == x || (s.contains(y) && key(y) != key(
        x,
    ))) by {
        assert(r.contains(y) <==> all.contains(y));
        if all.contains(y) {
            let i = choose|i: int| 0 <= i < all.len() && all[i] == y;
            if i < kept.len() {
                assert(kept[i] == y);
                assert(kept.contains(y));
            }
        }
        if y == x {
            assert(all[kept.len() as int] == x);
        }
        if kept.contains(y) {
            let i = choose|i: int| 0 <= i < kept.len() && kept[i] == y;
            assert(all[i] == y);
        }
    }
    assert(all.no_duplicates()) by {
        assert forall|i: int, j: int| 0 <= i < all.len() && 0 <= j < all.len() && i != j implies all[i]
            != all[j] by {
            if i < kept.len() {
                assert(kept.contains(kept[i]));
            }
            if j < kept.len() {
                assert(kept.contains(kept[j]));
            }
            if i < kept.len() && j < kept.len() {
                if i < j {
                    assert(key(kept[i]) != key(kept[j]));
                } else {
                    assert(key(kept[j]) != key(kept[i]));
                }
            }
        }
    }
    lemma_strict_from_multiset(all, r, key);
}

proof fn lemma_strict_from_multiset<A>(all: Seq<A>, r: Seq<A>, key: spec_fn(A) -> int)
    requires
        ascending(r, key),
        r.to_multiset() == all.to_multiset(),
        all.no_duplicates(),
        forall|i: int, j: int|
            0 <= i < all.len() && 0 <= j < all.len() && i != j ==> key(#[trigger] all[i]) != key(
                #[trigger] all[j],
            ),
    ensures
        strictly_ascending(r, key),
{
    broadcast use vstd::seq_lib::group_to_multiset_ensures;

    all.lemma_multiset_has_no_duplicates();
    r.lemma_multiset_has_no_duplicates_conv();
    assert forall|i: int, j: int| 0 <= i < j < r.len() implies key(#[trigger] r[i]) != key(
        #[trigger] r[j],
    ) by {
        assert(r[i] != r[j]);
        assert(r.to_multiset().count(r[i]) > 0);
        assert(r.to_multiset().count(r[j]) > 0);
        assert(all.contains(r[i]));
        assert(all.contains(r[j]));
        let a = choose|a: int| 0 <= a < all.len() && all[a] == r[i];
        let b = choose|b: int| 0 <= b < all.len() && all[b] == r[j];
        assert(a != b);
    }
    lemma_ascending_strict(r, key);
}

/// Putting the same element in twice is putting it in once.
pub proof fn lemma_put_idempotent<A>(s: Seq<A>, key: spec_fn(A) -> int, x: A)
    requires
        strictly_ascending(s, key),
    ensures
        put(put(s, key, x), key, x) == put(s, key, x),
{
    lemma_put(s, key, x);
    let r = put(s, key, x);
    lemma_put(r, key, x);
    let q = put(r, key, x);
    assert forall|y: A| #[trigger] q.contains(y) <==> r.contains(y) by {
        assert(r.contains(y) <==> (y == x || (s.contains(y) && key(y) != key(x))));
        assert(q.contains(y) <==> (y == x || (r.contains(y) && key(y) != key(x))));
    }
    lemma_strictly_ascending_unique(q, r, key);
}

/// Elements with different keys can be put in in either order.
pub proof fn lemma_put_commutes<A>(s: Seq<A>, key: spec_fn(A) -> int, x: A, y: A)
    requires
        distinct_keys(s, key),
        key(x) != key(y),
    ensures
        put(put(s, key, x), key, y) == put(put(s, key, y), key, x),
{
    lemma_put(s, key, x);
    lemma_put(s, key, y);
    let a = put(s, key, x);
    let b = put(s, key, y);
    lemma_put(a, key, y);
    lemma_put(b, key, x);
    let p = put(a, key, y);
    let q = put(b, key, x);
    assert forall|z: A| #[trigger] p.contains(z) <==> q.contains(z) by {
        assert(a.contains(z) <==> (z == x || (s.contains(z) && key(z) != key(x))));
        assert(b.contains(z) <==> (z == y || (s.contains(z) && key(z) != key(y))));
        assert(p.contains(z) <==> (z == y || (a.contains(z) && key(z) != key(y))));
        assert(q.contains(z) <==> (z == x || (b.contains(z) && key(z) != key(x))));
    }
    lemma_strictly_ascending_unique(p, q, key);
}

/// Taking a key out undoes putting it in.
pub proof fn lemma_without_put<A>(s: Seq<A>, key: spec_fn(A) -> int, x: A)
    requires
        strictly_ascending(s, key),
    ensures
        without(put(s, key, x), key, key(x)) == without(s, key, key(x)),
{
    lemma_put(s, key, x);
    let r = put(s, key, x);
    lemma_without(r, key, key(x));
    lemma_without(s, key, key(x));
    let p = without(r, key, key(x));
    let q = without(s, key, key(x));
    assert forall|z: A| #[trigger] p.contains(z) <==> q.contains(z) by {
        assert(r.contains(z) <==> (z == x || (s.contains(z) && key(z) != key(x))));
        assert(p.contains(z) <==> (r.contains(z) && key(z) != key(x)));
        assert(q.contains(z) <==> (s.contains(z) && key(z) != key(x)));
    }
    lemma_strictly_ascending_unique(p, q, key);
}

/// Takes the elements whose key is `k` out.
pub fn take_out<T: Keyed>(v: &mut Vec<T>, k: u128)
    ensures
        final(v)@ == without(old(v)@, key_of::<T>(), k as int),
{
    let ghost all = v@;
    let ghost keep = key_differs(key_of::<T>(), k as int);
    let mut before: Vec<T> = Vec::new();
    std::mem::swap(&mut before, v);
    let mut kept: Vec<T> = Vec::new();
    proof {
        reveal(Seq::filter);
        assert(kept@ =~= all.take(0).filter(keep));
    }
    for x in it: before.into_iter()
        invariant
            it.seq() == all,
            keep == key_differs(key_of::<T>(), k as int),
            kept@ == all.take(it.index()).filter(keep),
    {
        proof {
            crate::seqs::lemma_filter_step(all, keep, it.index());
        }
        if x.sort_key() != k {
            kept.push(x);
        }
    }
    assert(all.take(all.len() as int) =~= all);
    *v = kept;
}

/// Puts `x` in, in place of the elements that have its key.
pub fn put_in<T: Keyed>(v: &mut Vec<T>, x: T)
    ensures
        final(v)@ == put(old(v)@, key_of::<T>(), x),
{
    take_out(v, x.sort_key());
    v.push(x);
    insertion_sort(v);
}

/// Taking a key out commutes with a map that keeps keys.
pub proof fn lemma_without_map<A, B>(
    s: Seq<A>,
    key: spec_fn(A) -> int,
    f: spec_fn(A) -> B,
    key_b: spec_fn(B) -> int,
    k: int,
)
    requires
        forall|a: A| #[trigger] key(a) == key_b(f(a)),
    ensures
        without(s, key, k).map_values(f) == without(s.map_values(f), key_b, k),
{
    assert forall|a: A| #[trigger] key_differs(key, k)(a) == key_differs(key_b, k)(f(a)) by {
        assert(key(a) == key_b(f(a)));
    }
    crate::seqs::lemma_filter_map(s, key_differs(key, k), f, key_differs(key_b, k));
}

/// Putting an element in commutes with a map that keeps keys.
pub proof fn lemma_put_map<A, B>(
    s: Seq<A>,
    key: spec_fn(A) -> int,
    f: spec_fn(A) -> B,
    key_b: spec_fn(B) -> int,
    x: A,
)
    requires
        forall|a: A| #[trigger] key(a) == key_b(f(a)),
    ensures
        put(s, key, x).map_values(f) == put(s.map_values(f), key_b, f(x)),
{
    lemma_without_map(s, key, f, key_b, key(x));
    let kept = without(s, key, key(x));
    assert(key(x) == key_b(f(x)));
    assert(kept.push(x).map_values(f) =~= kept.map_values(f).push(f(x)));
    lemma_stable_sort_map(kept.push(x), key, f, key_b);
}

/// Has this key.
pub open spec fn with_key<A>(key: spec_fn(A) -> int, k: int) -> spec_fn(A) -> bool {
    |a: A| key(a) == k
}

/// Sorting puts the elements in ascending order of their keys, loses and invents none, and keeps
/// those with equal keys in their order.
pub proof fn law_sorting_is_stable<A>(s: Seq<A>, key: spec_fn(A) -> int, k: int)
    ensures
        ascending(stable_sort(s, key), key),
        stable_sort(s, key).to_multiset() == s.to_multiset(),
        stable_sort(s, key).filter(with_key(key, k)) == s.filter(with_key(key, k)),
    decreases s.len(),
{
    let p = with_key(key, k);
    lemma_stable_sort(s, key);
    reveal(Seq::filter);
    if s.len() > 0 {
        let d = s.drop_last();
        let t = stable_sort(d, key);
        law_sorting_is_stable(d, key, k);
        lemma_insert_is_stable(t, s.last(), key, k);
        assert(t.push(s.last()).drop_last() =~= t);
    }
}

proof fn lemma_insert_is_stable<A>(s: Seq<A>, x: A, key: spec_fn(A) -> int, k: int)
    ensures
        sorted_insert(s, x, key).filter(with_key(key, k)) == s.push(x).filter(with_key(key, k)),
    decreases s.len(),
{
    let p = with_key(key, k);
    reveal(Seq::filter);
    if s.len() > 0 && key(s.last()) > key(x) {
        let d = s.drop_last();
        let i = sorted_insert(d, x, key);
        lemma_insert_is_stable(d, x, key, k);
        assert(i.push(s.last()).drop_last() =~= i);
        assert(d.push(x).drop_last() =~= d);
        assert(s.push(x).drop_last() =~= s);
        let kept = d.filter(p);
        assert(s.filter(p) == if p(s.last()) {
            kept.push(s.last())
        } else {
            kept
        });
        assert(d.push(x).filter(p) == if p(x) {
            kept.push(x)
        } else {
            kept
        });
        assert(i.push(s.last()).filter(p) == if p(s.last()) {
            i.filter(p).push(s.last())
        } else {
            i.filter(p)
        });
        assert(s.push(x).filter(p) == if p(x) {
            s.filter(p).push(x)
        } else {
            s.filter(p)
        });
    }
}

} // verus!
