//! Which moves of a sweep can run at the same time.
//!
//! Waves are scheduling only: every move still reserves its endpoints in the ledger.
use crate::allocator::{entry, find_position};
use crate::control::{
    node_views, AssignmentView, ClusterState, NodeDescriptor, NodeId, NodeView, ShardAssignment,
    StateView,
};
use crate::endpoint::{disjoint_texts, insert_text, text_sorted};
use crate::seqs::{find, lemma_find_at, lemma_find_none};
use crate::text::texts;
use vstd::prelude::*;

verus! {

/// Has this id.
pub open spec fn with_id(id: NodeId) -> spec_fn(NodeView) -> bool {
    |n: NodeView| n.id == id
}

/// The address of the first of `nodes` with an id.
pub open spec fn address_in(nodes: Seq<NodeView>, id: NodeId) -> Option<Seq<char>> {
    match find(nodes, with_id(id)) {
        Some(n) => n.addr,
        None => None,
    }
}

/// The address of a node: that of the first member with its id.
pub open spec fn address(s: StateView, id: NodeId) -> Option<Seq<char>> {
    address_in(s.nodes, id)
}

/// The address of a node.
pub fn addr_of(state: &ClusterState, id: NodeId) -> (r: Option<String>)
    ensures
        crate::text::opt_text(r) == address(state@, id),
{
    addr_in(&state.nodes, id)
}

/// The address of the first of `nodes` with an id.
pub fn addr_in(nodes: &Vec<NodeDescriptor>, id: NodeId) -> (r: Option<String>)
    ensures
        crate::text::opt_text(r) == address_in(node_views(nodes@), id),
{
    let n: usize = nodes.len();
    let ghost all = node_views(nodes@);
    let mut i: usize = 0;
    while i < n
        invariant
            n == nodes@.len(),
            all == node_views(nodes@),
            i <= n,
            forall|k: int| 0 <= k < i ==> !with_id(id)(#[trigger] all[k]),
        decreases n - i,
    {
        assert(all[i as int] == nodes@[i as int]@);
        if nodes[i].id.0 == id.0 {
            proof {
                lemma_find_at(all, with_id(id), i as int);
            }
            return crate::text::copy_opt(&nodes[i].addr);
        }
        i = i + 1;
    }
    proof {
        lemma_find_none(all, with_id(id));
    }
    None
}

/// The nodes that a move of `desired` contacts: the committed primary, which is the source, and
/// every desired member. Members that are only dropped are not contacted.
pub open spec fn contacted(s: StateView, desired: AssignmentView) -> Set<NodeId> {
    desired.replicas.to_set().insert(desired.primary).union(
        match entry(s.assignments, desired.position) {
            Some(c) => set![c.primary],
            None => Set::<NodeId>::empty(),
        },
    )
}

/// Whether `t` is the address of a node that the move contacts.
pub open spec fn touches(s: StateView, desired: AssignmentView, t: Seq<char>) -> bool {
    exists|id: NodeId| #[trigger] contacted(s, desired).contains(id) && address(s, id) == Some(t)
}

fn add_addr(state: &ClusterState, id: NodeId, eps: &mut Vec<String>)
    requires
        text_sorted(texts(old(eps)@)),
    ensures
        text_sorted(texts(final(eps)@)),
        forall|x: Seq<char>| #[trigger]
            texts(final(eps)@).contains(x) <==> (address(state@, id) == Some(x) || texts(
                old(eps)@,
            ).contains(x)),
{
    match addr_of(state, id) {
        Some(a) => {
            insert_text(eps, a);
        },
        None => {},
    }
}

/// The addresses that a move of `desired` uses, sorted, none twice. A node without an address is
/// left out: such a move fails before it contacts anybody.
pub fn move_footprint(state: &ClusterState, desired: &ShardAssignment) -> (r: Vec<String>)
    ensures
        text_sorted(texts(r@)),
        forall|t: Seq<char>| #[trigger] texts(r@).contains(t) <==> touches(state@, desired@, t),
{
    let mut eps: Vec<String> = Vec::new();
    let ghost s = state@;
    let ghost d = desired@;
    let ghost mut seen: Set<NodeId> = Set::empty();
    match find_position(&state.assignments, desired.position) {
        Some(i) => {
            add_addr(state, state.assignments[i].primary, &mut eps);
            proof {
                seen = seen.insert(state.assignments@[i as int].primary);
            }
        },
        None => {},
    }
    assert forall|t: Seq<char>| #[trigger] texts(eps@).contains(t) <==> (exists|id: NodeId|
        #[trigger] seen.contains(id) && address(s, id) == Some(t)) by {
        match entry(s.assignments, d.position) {
            Some(c) => {
                assert(seen.contains(c.primary));
            },
            None => {},
        }
    }
    let ghost seen0 = seen;
    let ghost eps0 = texts(eps@);
    add_addr(state, desired.primary, &mut eps);
    proof {
        seen = seen.insert(desired.primary);
        lemma_grow(s, seen0, desired.primary, eps0, texts(eps@));
    }
    let n: usize = desired.replicas.len();
    let mut i: usize = 0;
    let ghost start = seen;
    assert(seen =~= start.union(desired.replicas@.take(0).to_set()));
    while i < n
        invariant
            n == desired.replicas@.len(),
            s == state@,
            i <= n,
            text_sorted(texts(eps@)),
            seen == start.union(desired.replicas@.take(i as int).to_set()),
            forall|t: Seq<char>| #[trigger]
                texts(eps@).contains(t) <==> (exists|id: NodeId| #[trigger]
                    seen.contains(id) && address(s, id) == Some(t)),
        decreases n - i,
    {
        let ghost seen1 = seen;
        let ghost eps1 = texts(eps@);
        let ghost id = desired.replicas@[i as int];
        add_addr(state, desired.replicas[i], &mut eps);
        proof {
            seen = seen.insert(id);
            lemma_grow(s, seen1, id, eps1, texts(eps@));
            let a = desired.replicas@.take(i as int);
            assert(desired.replicas@.take(i + 1) =~= a.push(id));
            a.lemma_push_to_set_commute(id);
            assert(seen =~= start.union(desired.replicas@.take(i + 1).to_set()));
        }
        i = i + 1;
    }
    proof {
        assert(desired.replicas@.take(n as int) =~= desired.replicas@);
        assert(seen =~= contacted(s, d));
    }
    eps
}

proof fn lemma_grow(
    s: StateView,
    seen: Set<NodeId>,
    id: NodeId,
    before: Seq<Seq<char>>,
    after: Seq<Seq<char>>,
)
    requires
        forall|t: Seq<char>| #[trigger]
            before.contains(t) <==> (exists|k: NodeId| #[trigger]
                seen.contains(k) && address(s, k) == Some(t)),
        forall|t: Seq<char>| #[trigger]
            after.contains(t) <==> (address(s, id) == Some(t) || before.contains(t)),
    ensures
        forall|t: Seq<char>| #[trigger]
            after.contains(t) <==> (exists|k: NodeId| #[trigger]
                seen.insert(id).contains(k) && address(s, k) == Some(t)),
{
    assert forall|t: Seq<char>| #[trigger] after.contains(t) <==> (exists|k: NodeId| #[trigger]
        seen.insert(id).contains(k) && address(s, k) == Some(t)) by {
        if after.contains(t) {
            if address(s, id) == Some(t) {
                assert(seen.insert(id).contains(id));
            } else {
                assert(before.contains(t));
                let k = choose|k: NodeId| #[trigger] seen.contains(k) && address(s, k) == Some(t);
                assert(seen.insert(id).contains(k));
            }
        }
        if exists|k: NodeId| #[trigger] seen.insert(id).contains(k) && address(s, k) == Some(t) {
            let k = choose|k: NodeId| #[trigger]
                seen.insert(id).contains(k) && address(s, k) == Some(t);
            if k != id {
                assert(seen.contains(k));
                assert(before.contains(t));
            }
        }
    }
}

// ---- the greedy partition ----

/// Two moves use a common address.
pub open spec fn clash(s: StateView, a: AssignmentView, b: AssignmentView) -> bool {
    exists|t: Seq<char>| #[trigger] touches(s, a, t) && touches(s, b, t)
}

/// The target at `i` clashes with one that is already in the wave.
pub open spec fn blocked(s: StateView, targets: Seq<AssignmentView>, wave: Seq<usize>, i: usize) -> bool {
    exists|k: int|
        0 <= k < wave.len() && clash(s, targets[#[trigger] wave[k] as int], targets[i as int])
}

/// Whether the wave takes the target at `i`.
pub open spec fn admits(
    s: StateView,
    targets: Seq<AssignmentView>,
    wave: Seq<usize>,
    width: nat,
    i: usize,
) -> bool {
    wave.len() < width && !blocked(s, targets, wave, i)
}

/// Going through `remaining` in order: the targets that the next wave takes, and those that wait.
pub open spec fn split(
    s: StateView,
    targets: Seq<AssignmentView>,
    width: nat,
    remaining: Seq<usize>,
) -> (Seq<usize>, Seq<usize>)
    decreases remaining.len(),
{
    if remaining.len() == 0 {
        (Seq::empty(), Seq::empty())
    } else {
        let (wave, waiting) = split(s, targets, width, remaining.drop_last());
        let i = remaining.last();
        if admits(s, targets, wave, width, i) {
            (wave.push(i), waiting)
        } else {
            (wave, waiting.push(i))
        }
    }
}

proof fn lemma_split_lens(s: StateView, targets: Seq<AssignmentView>, width: nat, remaining: Seq<usize>)
    requires
        width >= 1,
    ensures
        split(s, targets, width, remaining).0.len() + split(s, targets, width, remaining).1.len()
            == remaining.len(),
        remaining.len() > 0 ==> split(s, targets, width, remaining).0.len() > 0,
        split(s, targets, width, remaining).0.len() <= width,
    decreases remaining.len(),
{
    if remaining.len() > 0 {
        lemma_split_lens(s, targets, width, remaining.drop_last());
    }
}

/// The waves over `remaining`: the first takes what it can, the next from what is left.
pub open spec fn waves_over(
    s: StateView,
    targets: Seq<AssignmentView>,
    width: nat,
    remaining: Seq<usize>,
) -> Seq<Seq<usize>>
    decreases remaining.len(),
{
    if remaining.len() == 0 || width == 0 {
        Seq::empty()
    } else {
        let (wave, waiting) = split(s, targets, width, remaining);
        if waiting.len() < remaining.len() {
            seq![wave] + waves_over(s, targets, width, waiting)
        } else {
            Seq::empty()
        }
    }
}

/// The width of a wave: zero means one.
pub open spec fn wave_width(max_parallel: nat) -> nat {
    if max_parallel < 1 {
        1
    } else {
        max_parallel
    }
}

/// The waves over all targets.
pub open spec fn waves(s: StateView, targets: Seq<AssignmentView>, max_parallel: nat) -> Seq<
    Seq<usize>,
> {
    waves_over(
        s,
        targets,
        wave_width(max_parallel),
        Seq::new(targets.len(), |i: int| i as usize),
    )
}

/// The waves as mathematical values.
pub open spec fn wave_views(v: Seq<Vec<usize>>) -> Seq<Seq<usize>> {
    v.map_values(|w: Vec<usize>| w@)
}

/// Partitions the targets of a sweep into waves of at most `max_parallel` moves that share no
/// address, as lists of indices into `targets`.
pub fn plan_waves(
    state: &ClusterState,
    targets: &Vec<(u32, ShardAssignment)>,
    max_parallel: usize,
) -> (r: Vec<Vec<usize>>)
    ensures
        wave_views(r@) == waves(
            state@,
            crate::coordinator::group_plan::target_views(targets@),
            max_parallel as nat,
        ),
{
    let width: usize = if max_parallel < 1 {
        1
    } else {
        max_parallel
    };
    let ghost s = state@;
    let ghost tv = crate::coordinator::group_plan::target_views(targets@);
    let n: usize = targets.len();
    let mut footprints: Vec<Vec<String>> = Vec::new();
    let mut remaining: Vec<usize> = Vec::new();
    let mut i: usize = 0;
    while i < n
        invariant
            n == targets@.len(),
            s == state@,
            tv == crate::coordinator::group_plan::target_views(targets@),
            i <= n,
            footprints@.len() == i,
            forall|k: int, t: Seq<char>|
                0 <= k < i ==> (#[trigger] texts(footprints@[k]@).contains(t) <==> touches(
                    s,
                    tv[k],
                    t,
                )),
            remaining@ == Seq::new(i as nat, |k: int| k as usize),
        decreases n - i,
    {
        footprints.push(move_footprint(state, &targets[i].1));
        remaining.push(i);
        i = i + 1;
        assert(remaining@ =~= Seq::new(i as nat, |k: int| k as usize));
    }
    let ghost whole = waves_over(s, tv, width as nat, remaining@);
    assert(whole == waves(s, tv, max_parallel as nat));
    let mut out: Vec<Vec<usize>> = Vec::new();
    assert(wave_views(out@) + whole =~= whole);
    while remaining.len() > 0
        invariant
            n == targets@.len(),
            s == state@,
            tv == crate::coordinator::group_plan::target_views(targets@),
            width >= 1,
            footprints@.len() == n,
            forall|k: int, t: Seq<char>|
                0 <= k < n ==> (#[trigger] texts(footprints@[k]@).contains(t) <==> touches(
                    s,
                    tv[k],
                    t,
                )),
            forall|k: int| 0 <= k < remaining@.len() ==> (#[trigger] remaining@[k]) < n,
            wave_views(out@) + waves_over(s, tv, width as nat, remaining@) == whole,
        decreases remaining@.len(),
    {
        let (wave, waiting) = split_wave(Ghost(s), Ghost(tv), &footprints, width, &remaining);
        proof {
            lemma_split_lens(s, tv, width as nat, remaining@);
        }
        let ghost before = wave_views(out@);
        let ghost w = wave@;
        out.push(wave);
        proof {
            assert(wave_views(out@) =~= before.push(w));
            let rest = waves_over(s, tv, width as nat, waiting@);
            assert(before + (seq![w] + rest) =~= wave_views(out@) + rest);
        }
        remaining = waiting;
    }
    assert(wave_views(out@) + Seq::<Seq<usize>>::empty() =~= wave_views(out@));
    out
}

fn split_wave(
    Ghost(s): Ghost<StateView>,
    Ghost(tv): Ghost<Seq<AssignmentView>>,
    footprints: &Vec<Vec<String>>,
    width: usize,
    remaining: &Vec<usize>,
) -> (r: (Vec<usize>, Vec<usize>))
    requires
        footprints@.len() == tv.len(),
        forall|k: int, t: Seq<char>|
            0 <= k < tv.len() ==> (#[trigger] texts(footprints@[k]@).contains(t) <==> touches(
                s,
                tv[k],
                t,
            )),
        forall|k: int| 0 <= k < remaining@.len() ==> (#[trigger] remaining@[k]) < tv.len(),
    ensures
        (r.0@, r.1@) == split(s, tv, width as nat, remaining@),
        forall|k: int| 0 <= k < r.1@.len() ==> (#[trigger] r.1@[k]) < tv.len(),
{
    let mut wave: Vec<usize> = Vec::new();
    let mut waiting: Vec<usize> = Vec::new();
    let m: usize = remaining.len();
    let mut j: usize = 0;
    assert(remaining@.take(0).len() == 0);
    while j < m
        invariant
            m == remaining@.len(),
            j <= m,
            footprints@.len() == tv.len(),
            forall|k: int, t: Seq<char>|
                0 <= k < tv.len() ==> (#[trigger] texts(footprints@[k]@).contains(t) <==> touches(
                    s,
                    tv[k],
                    t,
                )),
            forall|k: int| 0 <= k < remaining@.len() ==> (#[trigger] remaining@[k]) < tv.len(),
            forall|k: int| 0 <= k < wave@.len() ==> (#[trigger] wave@[k]) < tv.len(),
            forall|k: int| 0 <= k < waiting@.len() ==> (#[trigger] waiting@[k]) < tv.len(),
            (wave@, waiting@) == split(s, tv, width as nat, remaining@.take(j as int)),
        decreases m - j,
    {
        let i: usize = remaining[j];
        assert(i < tv.len());
        let mut free: bool = wave.len() < width;
        let mut k: usize = 0;
        while k < wave.len() && free
            invariant
                k <= wave@.len(),
                i < tv.len(),
                footprints@.len() == tv.len(),
                forall|q: int, t: Seq<char>|
                    0 <= q < tv.len() ==> (#[trigger] texts(footprints@[q]@).contains(t)
                        <==> touches(s, tv[q], t)),
                forall|q: int| 0 <= q < wave@.len() ==> (#[trigger] wave@[q]) < tv.len(),
                free ==> forall|q: int|
                    0 <= q < k ==> !clash(s, tv[#[trigger] wave@[q] as int], tv[i as int]),
                free ==> wave@.len() < width,
                !free ==> wave@.len() >= width || blocked(s, tv, wave@, i),
            decreases wave@.len() - k,
        {
            let ghost a = tv[wave@[k as int] as int];
            let ghost b = tv[i as int];
            if !disjoint_texts(&footprints[wave[k]], &footprints[i]) {
                proof {
                    let t = choose|t: Seq<char>| #[trigger]
                        texts(footprints@[wave@[k as int] as int]@).contains(t) && texts(
                            footprints@[i as int]@,
                        ).contains(t);
                    assert(touches(s, a, t) && touches(s, b, t));
                    assert(clash(s, tv[wave@[k as int] as int], tv[i as int]));
                }
                free = false;
            } else {
                proof {
                    assert forall|t: Seq<char>| !(#[trigger] touches(s, a, t) && touches(s, b, t)) by {
                        assert(texts(footprints@[wave@[k as int] as int]@).contains(t) <==> touches(
                            s,
                            a,
                            t,
                        ));
                        assert(texts(footprints@[i as int]@).contains(t) <==> touches(s, b, t));
                    }
                    assert(!clash(s, a, b));
                }
            }
            k = k + 1;
        }
        proof {
            assert(remaining@.take(j + 1).drop_last() =~= remaining@.take(j as int));
            assert(remaining@.take(j + 1).last() == i);
            assert(free == admits(s, tv, wave@, width as nat, i));
        }
        if free {
            wave.push(i);
        } else {
            waiting.push(i);
        }
        j = j + 1;
    }
    assert(remaining@.take(m as int) =~= remaining@);
    (wave, waiting)
}

// ---- laws ----

/// All the indices in the waves, wave by wave.
pub open spec fn scheduled(w: Seq<Seq<usize>>) -> Seq<usize> {
    w.flatten()
}

/// No two moves of one wave use a common address, and no wave is wider than allowed.
pub open spec fn conflict_free(s: StateView, targets: Seq<AssignmentView>, width: nat, wave: Seq<
    usize,
>) -> bool {
    &&& wave.len() <= width
    &&& forall|a: int, b: int|
        0 <= a < b < wave.len() ==> !clash(
            s,
            targets[#[trigger] wave[a] as int],
            targets[#[trigger] wave[b] as int],
        )
}

proof fn lemma_split(s: StateView, targets: Seq<AssignmentView>, width: nat, remaining: Seq<usize>)
    requires
        width >= 1,
    ensures
        conflict_free(s, targets, width, split(s, targets, width, remaining).0),
        split(s, targets, width, remaining).0.to_multiset().add(
            split(s, targets, width, remaining).1.to_multiset(),
        ) == remaining.to_multiset(),
    decreases remaining.len(),
{
    broadcast use vstd::seq_lib::group_to_multiset_ensures;

    if remaining.len() > 0 {
        let d = remaining.drop_last();
        let i = remaining.last();
        lemma_split(s, targets, width, d);
        let (w0, q0) = split(s, targets, width, d);
        let (w, q) = split(s, targets, width, remaining);
        assert(remaining =~= d.push(i));
        if admits(s, targets, w0, width, i) {
            assert forall|a: int, b: int| 0 <= a < b < w.len() implies !clash(
                s,
                targets[#[trigger] w[a] as int],
                targets[#[trigger] w[b] as int],
            ) by {
                if b == w0.len() {
                    assert(w[a] == w0[a]);
                }
            }
            assert(w.to_multiset().add(q.to_multiset()) =~= remaining.to_multiset());
        } else {
            assert(w.to_multiset().add(q.to_multiset()) =~= remaining.to_multiset());
        }
    } else {
        assert(split(s, targets, width, remaining).0.to_multiset().add(
            split(s, targets, width, remaining).1.to_multiset(),
        ) =~= remaining.to_multiset());
    }
}

proof fn lemma_waves_over(
    s: StateView,
    targets: Seq<AssignmentView>,
    width: nat,
    remaining: Seq<usize>,
)
    requires
        width >= 1,
    ensures
        forall|k: int|
            0 <= k < waves_over(s, targets, width, remaining).len() ==> conflict_free(
                s,
                targets,
                width,
                #[trigger] waves_over(s, targets, width, remaining)[k],
            ),
        scheduled(waves_over(s, targets, width, remaining)).to_multiset()
            == remaining.to_multiset(),
    decreases remaining.len(),
{
    broadcast use vstd::seq_lib::group_to_multiset_ensures;

    let all = waves_over(s, targets, width, remaining);
    if remaining.len() == 0 {
        assert(scheduled(all) =~= remaining);
    } else {
        lemma_split_lens(s, targets, width, remaining);
        lemma_split(s, targets, width, remaining);
        let (w, q) = split(s, targets, width, remaining);
        lemma_waves_over(s, targets, width, q);
        let rest = waves_over(s, targets, width, q);
        assert(all == seq![w] + rest);
        assert(all.drop_first() =~= rest);
        assert(all.first() == w);
        assert(scheduled(all) == w + scheduled(rest));
        vstd::seq_lib::lemma_multiset_commutative(w, scheduled(rest));
        assert(scheduled(all).to_multiset() =~= remaining.to_multiset());
        assert forall|k: int| 0 <= k < all.len() implies conflict_free(
            s,
            targets,
            width,
            #[trigger] all[k],
        ) by {
            if k > 0 {
                assert(all[k] == rest[k - 1]);
            }
        }
    }
}

/// The waves schedule every target exactly once, none is wider than allowed, and moves in one wave
/// use no common address.
pub proof fn law_waves_are_a_conflict_free_schedule(
    s: StateView,
    targets: Seq<AssignmentView>,
    max_parallel: nat,
)
    ensures
        scheduled(waves(s, targets, max_parallel)).to_multiset() == Seq::new(
            targets.len(),
            |i: int| i as usize,
        ).to_multiset(),
        forall|k: int|
            0 <= k < waves(s, targets, max_parallel).len() ==> conflict_free(
                s,
                targets,
                wave_width(max_parallel),
                #[trigger] waves(s, targets, max_parallel)[k],
            ),
{
    lemma_waves_over(
        s,
        targets,
        wave_width(max_parallel),
        Seq::new(targets.len(), |i: int| i as usize),
    );
}

/// The indices ascend.
pub open spec fn indices_ascend(w: Seq<usize>) -> bool {
    forall|a: int, b: int| 0 <= a < b < w.len() ==> (#[trigger] w[a]) < (#[trigger] w[b])
}

/// The wave could not take the target at `i` when it was its turn: a target before it uses a common
/// address, or the wave was full with targets before it.
pub open spec fn passed_over(
    s: StateView,
    targets: Seq<AssignmentView>,
    width: nat,
    wave: Seq<usize>,
    i: usize,
) -> bool {
    ||| wave.len() == width && wave.last() < i
    ||| exists|k: int|
        0 <= k < wave.len() && (#[trigger] wave[k]) < i && clash(
            s,
            targets[wave[k] as int],
            targets[i as int],
        )
}

proof fn lemma_split_greedy(
    s: StateView,
    targets: Seq<AssignmentView>,
    width: nat,
    remaining: Seq<usize>,
)
    requires
        width >= 1,
        indices_ascend(remaining),
    ensures
        ({
            let (w, q) = split(s, targets, width, remaining);
            &&& indices_ascend(w)
            &&& indices_ascend(q)
            &&& forall|a: int| 0 <= a < w.len() ==> remaining.contains(#[trigger] w[a])
            &&& forall|a: int| 0 <= a < q.len() ==> remaining.contains(#[trigger] q[a])
            &&& forall|a: int|
                0 <= a < q.len() ==> passed_over(s, targets, width, w, #[trigger] q[a])
        }),
    decreases remaining.len(),
{
    if remaining.len() > 0 {
        let d = remaining.drop_last();
        let i = remaining.last();
        lemma_split_greedy(s, targets, width, d);
        lemma_split_lens(s, targets, width, d);
        let (w0, q0) = split(s, targets, width, d);
        let (w, q) = split(s, targets, width, remaining);
        assert forall|x: usize| #[trigger] d.contains(x) implies remaining.contains(x) && x < i by {
            let k = choose|k: int| 0 <= k < d.len() && d[k] == x;
            assert(remaining[k] == x);
            assert(remaining[remaining.len() - 1] == i);
        }
        assert(remaining.contains(i)) by {
            assert(remaining[remaining.len() - 1] == i);
        }
        if admits(s, targets, w0, width, i) {
            assert forall|a: int| 0 <= a < q.len() implies passed_over(
                s,
                targets,
                width,
                w,
                #[trigger] q[a],
            ) by {
                assert(passed_over(s, targets, width, w0, q0[a]));
                let k = choose|k: int|
                    0 <= k < w0.len() && (#[trigger] w0[k]) < q0[a] && clash(
                        s,
                        targets[w0[k] as int],
                        targets[q0[a] as int],
                    );
                assert(w[k] == w0[k]);
            }
            assert forall|a: int| 0 <= a < w.len() implies remaining.contains(#[trigger] w[a]) by {
                if a < w0.len() {
                    assert(d.contains(w0[a]));
                }
            }
            assert forall|a: int, b: int| 0 <= a < b < w.len() implies (#[trigger] w[a]) < (
            #[trigger] w[b]) by {
                if b == w0.len() {
                    assert(d.contains(w0[a]));
                }
            }
            assert forall|a: int| 0 <= a < q.len() implies remaining.contains(#[trigger] q[a]) by {
                assert(d.contains(q0[a]));
            }
        } else {
            assert forall|a: int| 0 <= a < q.len() implies passed_over(
                s,
                targets,
                width,
                w,
                #[trigger] q[a],
            ) by {
                if a < q0.len() {
                    assert(passed_over(s, targets, width, w0, q0[a]));
                } else if w0.len() >= width {
                    assert(d.contains(w0[w0.len() - 1]));
                } else {
                    let k = choose|k: int|
                        0 <= k < w0.len() && clash(
                            s,
                            targets[#[trigger] w0[k] as int],
                            targets[i as int],
                        );
                    assert(d.contains(w0[k]));
                    assert(w[k] < i);
                }
            }
            assert forall|a: int| 0 <= a < q.len() implies remaining.contains(#[trigger] q[a]) by {
                if a < q0.len() {
                    assert(d.contains(q0[a]));
                }
            }
            assert forall|a: int, b: int| 0 <= a < b < q.len() implies (#[trigger] q[a]) < (
            #[trigger] q[b]) by {
                if b == q0.len() {
                    assert(d.contains(q0[a]));
                }
            }
            assert forall|a: int| 0 <= a < w.len() implies remaining.contains(#[trigger] w[a]) by {
                assert(d.contains(w0[a]));
            }
        }
    }
}

proof fn lemma_waves_greedy(
    s: StateView,
    targets: Seq<AssignmentView>,
    width: nat,
    remaining: Seq<usize>,
)
    requires
        width >= 1,
        indices_ascend(remaining),
    ensures
        ({
            let all = waves_over(s, targets, width, remaining);
            &&& forall|k: int|
                0 <= k < all.len() ==> (#[trigger] all[k]).len() > 0 && indices_ascend(all[k])
            &&& forall|k: int, a: int|
                0 <= k < all.len() && 0 <= a < all[k].len() ==> remaining.contains(
                    #[trigger] all[k][a],
                )
            &&& forall|j: int, k: int, a: int|
                #![trigger all[j], all[k][a]]
                0 <= j < k < all.len() && 0 <= a < all[k].len() ==> passed_over(
                    s,
                    targets,
                    width,
                    all[j],
                    all[k][a],
                )
        }),
    decreases remaining.len(),
{
    let all = waves_over(s, targets, width, remaining);
    if remaining.len() > 0 {
        lemma_split_lens(s, targets, width, remaining);
        lemma_split_greedy(s, targets, width, remaining);
        let (w, q) = split(s, targets, width, remaining);
        lemma_waves_greedy(s, targets, width, q);
        let rest = waves_over(s, targets, width, q);
        assert(all == seq![w] + rest);
        assert(all[0] == w);
        assert forall|k: int| 0 <= k < all.len() implies (#[trigger] all[k]).len() > 0
            && indices_ascend(all[k]) by {
            if k > 0 {
                assert(all[k] == rest[k - 1]);
            }
        }
        assert forall|k: int, a: int|
            0 <= k < all.len() && 0 <= a < all[k].len() implies remaining.contains(
            #[trigger] all[k][a],
        ) by {
            if k > 0 {
                assert(all[k] == rest[k - 1]);
                assert(q.contains(rest[k - 1][a]));
                let b = choose|b: int| 0 <= b < q.len() && q[b] == rest[k - 1][a];
                assert(remaining.contains(q[b]));
            }
        }
        assert forall|j: int, k: int, a: int|
            #![trigger all[j], all[k][a]]
            0 <= j < k < all.len() && 0 <= a < all[k].len() implies passed_over(
            s,
            targets,
            width,
            all[j],
            all[k][a],
        ) by {
            assert(all[k] == rest[k - 1]);
            if j > 0 {
                assert(all[j] == rest[j - 1]);
            } else {
                assert(q.contains(rest[k - 1][a]));
                let b = choose|b: int| 0 <= b < q.len() && q[b] == rest[k - 1][a];
                assert(passed_over(s, targets, width, w, q[b]));
            }
        }
    }
}

/// No wave is empty, each lists its targets in their order, and the waves are greedy: a target is in
/// the first wave that could take it when it was its turn.
pub proof fn law_waves_are_greedy(s: StateView, targets: Seq<AssignmentView>, max_parallel: nat)
    requires
        targets.len() <= usize::MAX,
    ensures
        ({
            let all = waves(s, targets, max_parallel);
            &&& forall|k: int|
                0 <= k < all.len() ==> (#[trigger] all[k]).len() > 0 && indices_ascend(all[k])
            &&& forall|j: int, k: int, a: int|
                #![trigger all[j], all[k][a]]
                0 <= j < k < all.len() && 0 <= a < all[k].len() ==> passed_over(
                    s,
                    targets,
                    wave_width(max_parallel),
                    all[j],
                    all[k][a],
                )
        }),
{
    lemma_waves_greedy(
        s,
        targets,
        wave_width(max_parallel),
        Seq::new(targets.len(), |i: int| i as usize),
    );
}

/// One move at a time is the order of the targets.
pub proof fn law_width_one_is_the_target_order(
    s: StateView,
    targets: Seq<AssignmentView>,
    remaining: Seq<usize>,
)
    ensures
        waves_over(s, targets, 1, remaining) == remaining.map_values(|i: usize| seq![i]),
    decreases remaining.len(),
{
    let one = |i: usize| seq![i];
    if remaining.len() == 0 {
        assert(waves_over(s, targets, 1, remaining) =~= remaining.map_values(one));
    } else {
        lemma_split_one(s, targets, remaining);
        let (w, q) = split(s, targets, 1, remaining);
        law_width_one_is_the_target_order(s, targets, q);
        lemma_split_lens(s, targets, 1, remaining);
        assert(seq![w] + q.map_values(one) =~= remaining.map_values(one));
    }
}

proof fn lemma_split_one(s: StateView, targets: Seq<AssignmentView>, remaining: Seq<usize>)
    requires
        remaining.len() > 0,
    ensures
        split(s, targets, 1, remaining).0 == seq![remaining[0]],
        split(s, targets, 1, remaining).1 == remaining.skip(1),
    decreases remaining.len(),
{
    let d = remaining.drop_last();
    if d.len() == 0 {
        assert(split(s, targets, 1, d).0 =~= Seq::<usize>::empty());
        assert(split(s, targets, 1, remaining).0 =~= seq![remaining[0]]);
        assert(split(s, targets, 1, remaining).1 =~= remaining.skip(1));
    } else {
        lemma_split_one(s, targets, d);
        assert(d.skip(1).push(remaining.last()) =~= remaining.skip(1));
    }
}

/// The address of a node is that of the first member with its id; where there is no such member it
/// has none.
pub proof fn law_an_address_is_that_of_the_member(nodes: Seq<NodeView>, id: NodeId, i: int)
    ensures
        0 <= i < nodes.len() && nodes[i].id == id && (forall|k: int|
            0 <= k < i ==> (#[trigger] nodes[k]).id != id) ==> address_in(nodes, id)
            == nodes[i].addr,
        (forall|k: int| 0 <= k < nodes.len() ==> (#[trigger] nodes[k]).id != id) ==> address_in(
            nodes,
            id,
        ) is None,
{
    let p = with_id(id);
    if 0 <= i < nodes.len() && nodes[i].id == id && (forall|k: int|
        0 <= k < i ==> (#[trigger] nodes[k]).id != id) {
        assert forall|j: int| 0 <= j < i implies !p(#[trigger] nodes[j]) by {
            assert(nodes[j].id != id);
        }
        crate::seqs::lemma_find_at(nodes, p, i);
    }
    if forall|k: int| 0 <= k < nodes.len() ==> (#[trigger] nodes[k]).id != id {
        assert forall|j: int| 0 <= j < nodes.len() implies !p(#[trigger] nodes[j]) by {
            assert(nodes[j].id != id);
        }
        crate::seqs::lemma_find_none(nodes, p);
    }
}

/// A move uses the address of the committed primary, of the desired primary and of each desired
/// replica, and no other; and two moves clash exactly where they use a common address.
pub proof fn law_a_move_uses_its_source_and_its_members(
    s: StateView,
    desired: AssignmentView,
    other: AssignmentView,
    t: Seq<char>,
)
    ensures
        touches(s, desired, t) <==> {
            ||| address(s, desired.primary) == Some(t)
            ||| exists|k: int|
                0 <= k < desired.replicas.len() && address(s, #[trigger] desired.replicas[k])
                    == Some(t)
            ||| entry(s.assignments, desired.position) matches Some(c) && address(s, c.primary)
                == Some(t)
        },
        touches(s, desired, t) && touches(s, other, t) ==> clash(s, desired, other),
        clash(s, desired, other) ==> exists|x: Seq<char>|
            #![trigger touches(s, desired, x)]
            touches(s, desired, x) && touches(s, other, x),
{
    let c = contacted(s, desired);
    if touches(s, desired, t) {
        let id = choose|id: NodeId| #[trigger] c.contains(id) && address(s, id) == Some(t);
        if desired.replicas.contains(id) {
            let k = choose|k: int| 0 <= k < desired.replicas.len() && desired.replicas[k] == id;
            assert(address(s, desired.replicas[k]) == Some(t));
        }
    }
    if address(s, desired.primary) == Some(t) {
        assert(c.contains(desired.primary));
    }
    if exists|k: int|
        0 <= k < desired.replicas.len() && address(s, #[trigger] desired.replicas[k]) == Some(t) {
        let k = choose|k: int|
            0 <= k < desired.replicas.len() && address(s, #[trigger] desired.replicas[k]) == Some(
                t,
            );
        assert(desired.replicas.contains(desired.replicas[k]));
        assert(c.contains(desired.replicas[k]));
    }
    if let Some(e) = entry(s.assignments, desired.position) {
        if address(s, e.primary) == Some(t) {
            assert(c.contains(e.primary));
        }
    }
}

} // verus!
