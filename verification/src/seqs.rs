//! Facts about sequences: searching, filtering and mapping.
use vstd::prelude::*;

verus! {

/// The first element of `s` that satisfies `p`.
pub open spec fn find<A>(s: Seq<A>, p: spec_fn(A) -> bool) -> Option<A>
    decreases s.len(),
{
    if s.len() == 0 {
        None
    } else if p(s[0]) {
        Some(s[0])
    } else {
        find(s.skip(1), p)
    }
}

/// The element at `i` is the first that satisfies `p` where no earlier one does.
pub proof fn lemma_find_at<A>(s: Seq<A>, p: spec_fn(A) -> bool, i: int)
    requires
        0 <= i < s.len(),
        p(s[i]),
        forall|j: int| 0 <= j < i ==> !p(#[trigger] s[j]),
    ensures
        find(s, p) == Some(s[i]),
    decreases i,
{
    if i > 0 {
        assert(!p(s[0]));
        assert forall|j: int| 0 <= j < i - 1 implies !p(#[trigger] s.skip(1)[j]) by {
            assert(!p(s[j + 1]));
        }
        lemma_find_at(s.skip(1), p, i - 1);
    }
}

/// Nothing is found where no element satisfies `p`.
pub proof fn lemma_find_none<A>(s: Seq<A>, p: spec_fn(A) -> bool)
    requires
        forall|j: int| 0 <= j < s.len() ==> !p(#[trigger] s[j]),
    ensures
        find(s, p) is None,
    decreases s.len(),
{
    if s.len() > 0 {
        assert(!p(s[0]));
        assert forall|j: int| 0 <= j < s.skip(1).len() implies !p(#[trigger] s.skip(1)[j]) by {
            assert(!p(s[j + 1]));
        }
        lemma_find_none(s.skip(1), p);
    }
}

/// What a search finds is an element that satisfies `p`, and it finds one if there is one.
pub proof fn lemma_find<A>(s: Seq<A>, p: spec_fn(A) -> bool)
    ensures
        match find(s, p) {
            Some(x) => exists|i: int|
                0 <= i < s.len() && #[trigger] s[i] == x && p(x) && forall|j: int|
                    0 <= j < i ==> !p(#[trigger] s[j]),
            None => forall|j: int| 0 <= j < s.len() ==> !p(#[trigger] s[j]),
        },
    decreases s.len(),
{
    if s.len() > 0 {
        if p(s[0]) {
            assert(s[0] == find(s, p)->0);
        } else {
            lemma_find(s.skip(1), p);
            match find(s.skip(1), p) {
                Some(x) => {
                    let i = choose|i: int|
                        0 <= i < s.skip(1).len() && #[trigger] s.skip(1)[i] == x && p(x) && forall|
                            j: int,
                        |
                            0 <= j < i ==> !p(#[trigger] s.skip(1)[j]);
                    assert(s[i + 1] == x);
                    assert forall|j: int| 0 <= j < i + 1 implies !p(#[trigger] s[j]) by {
                        if j > 0 {
                            assert(!p(s.skip(1)[j - 1]));
                        }
                    }
                },
                None => {
                    assert forall|j: int| 0 <= j < s.len() implies !p(#[trigger] s[j]) by {
                        if j > 0 {
                            assert(!p(s.skip(1)[j - 1]));
                        }
                    }
                },
            }
        }
    }
}

/// Searching commutes with a map.
pub proof fn lemma_find_map<A, B>(
    s: Seq<A>,
    p: spec_fn(A) -> bool,
    f: spec_fn(A) -> B,
    q: spec_fn(B) -> bool,
)
    requires
        forall|a: A| #[trigger] q(f(a)) == p(a),
    ensures
        find(s.map_values(f), q) == match find(s, p) {
            Some(a) => Some(f(a)),
            None => None,
        },
    decreases s.len(),
{
    if s.len() > 0 {
        assert(q(f(s[0])) == p(s[0]));
        assert(s.map_values(f).skip(1) =~= s.skip(1).map_values(f));
        lemma_find_map(s.skip(1), p, f, q);
    }
}

/// Filtering commutes with a map.
pub proof fn lemma_filter_map<A, B>(
    s: Seq<A>,
    p: spec_fn(A) -> bool,
    f: spec_fn(A) -> B,
    q: spec_fn(B) -> bool,
)
    requires
        forall|a: A| #[trigger] q(f(a)) == p(a),
    ensures
        s.filter(p).map_values(f) == s.map_values(f).filter(q),
    decreases s.len(),
{
    reveal(Seq::filter);
    let m = s.map_values(f);
    if s.len() > 0 {
        lemma_filter_map(s.drop_last(), p, f, q);
        assert(m.drop_last() =~= s.drop_last().map_values(f));
        assert(m.last() == f(s.last()));
        assert(q(f(s.last())) == p(s.last()));
        assert(s.filter(p).map_values(f) =~= m.filter(q));
    } else {
        assert(s.filter(p).map_values(f) =~= m.filter(q));
    }
}

/// One more element under a filter.
pub proof fn lemma_filter_step<A>(s: Seq<A>, p: spec_fn(A) -> bool, i: int)
    requires
        0 <= i < s.len(),
    ensures
        s.take(i + 1).filter(p) == if p(s[i]) {
            s.take(i).filter(p).push(s[i])
        } else {
            s.take(i).filter(p)
        },
        s.take(i).filter(p).len() <= i,
{
    reveal(Seq::filter);
    assert(s.take(i + 1).drop_last() =~= s.take(i));
    s.take(i).lemma_filter_len(p);
}

/// The members of a filtered sequence are the members that satisfy the predicate.
pub proof fn lemma_filter_members<A>(s: Seq<A>, p: spec_fn(A) -> bool)
    ensures
        forall|x: A| #[trigger] s.filter(p).contains(x) <==> (s.contains(x) && p(x)),
    decreases s.len(),
{
    reveal(Seq::filter);
    let t = s.filter(p);
    if s.len() > 0 {
        let d = s.drop_last();
        lemma_filter_members(d, p);
        assert forall|x: A| #[trigger] t.contains(x) <==> (s.contains(x) && p(x)) by {
            let u = d.filter(p);
            if t.contains(x) {
                let i = choose|i: int| 0 <= i < t.len() && t[i] == x;
                if i < u.len() {
                    assert(u[i] == x);
                    assert(u.contains(x));
                    let k = choose|k: int| 0 <= k < d.len() && d[k] == x;
                    assert(s[k] == x);
                } else {
                    assert(s[s.len() - 1] == x);
                }
            }
            if s.contains(x) && p(x) {
                let k = choose|k: int| 0 <= k < s.len() && s[k] == x;
                if k < d.len() {
                    assert(d[k] == x);
                    assert(d.contains(x));
                    assert(u.contains(x));
                    let i = choose|i: int| 0 <= i < u.len() && u[i] == x;
                    assert(t[i] == x);
                } else {
                    assert(t[t.len() - 1] == x);
                }
            }
        }
    }
}

/// A filter keeps the order: it maps indices to increasing indices.
pub proof fn lemma_filter_strict<A>(s: Seq<A>, p: spec_fn(A) -> bool, key: spec_fn(A) -> int)
    requires
        crate::order::strictly_ascending(s, key),
    ensures
        crate::order::strictly_ascending(s.filter(p), key),
    decreases s.len(),
{
    reveal(Seq::filter);
    if s.len() > 0 {
        let d = s.drop_last();
        lemma_filter_strict(d, p, key);
        lemma_filter_members(d, p);
        let u = d.filter(p);
        let t = s.filter(p);
        assert forall|i: int, j: int| 0 <= i < j < t.len() implies key(#[trigger] t[i]) < key(
            #[trigger] t[j],
        ) by {
            if j == u.len() {
                assert(u.contains(u[i]));
                assert(d.contains(u[i]));
                let k = choose|k: int| 0 <= k < d.len() && d[k] == u[i];
                assert(s[k] == u[i]);
            }
        }
    }
}

/// A filter keeps keys distinct.
pub proof fn lemma_filter_distinct<A>(s: Seq<A>, p: spec_fn(A) -> bool, key: spec_fn(A) -> int)
    requires
        crate::order::distinct_keys(s, key),
    ensures
        crate::order::distinct_keys(s.filter(p), key),
    decreases s.len(),
{
    reveal(Seq::filter);
    if s.len() > 0 {
        let d = s.drop_last();
        assert(crate::order::distinct_keys(d, key)) by {
            assert forall|i: int, j: int| 0 <= i < j < d.len() implies key(#[trigger] d[i]) != key(
                #[trigger] d[j],
            ) by {
                assert(key(s[i]) != key(s[j]));
            }
        }
        lemma_filter_distinct(d, p, key);
        lemma_filter_members(d, p);
        let u = d.filter(p);
        let t = s.filter(p);
        assert forall|i: int, j: int| 0 <= i < j < t.len() implies key(#[trigger] t[i]) != key(
            #[trigger] t[j],
        ) by {
            if j == u.len() {
                assert(u.contains(u[i]));
                assert(d.contains(u[i]));
                let k = choose|k: int| 0 <= k < d.len() && d[k] == u[i];
                assert(s[k] == u[i]);
            } else {
                assert(key(u[i]) != key(u[j]));
            }
        }
    }
}

/// A filter that every element satisfies changes nothing.
pub proof fn lemma_filter_all<A>(s: Seq<A>, p: spec_fn(A) -> bool)
    requires
        forall|j: int| 0 <= j < s.len() ==> p(#[trigger] s[j]),
    ensures
        s.filter(p) == s,
    decreases s.len(),
{
    reveal(Seq::filter);
    if s.len() > 0 {
        assert(p(s[s.len() - 1]));
        assert forall|j: int| 0 <= j < s.drop_last().len() implies p(#[trigger] s.drop_last()[j]) by {
            assert(p(s[j]));
        }
        lemma_filter_all(s.drop_last(), p);
        assert(s.filter(p) =~= s);
    }
}

} // verus!
