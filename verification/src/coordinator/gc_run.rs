//! One sweep for orphan slots, from the first read of the committed state to the report.
//!
//! Every data node that can be asked is reserved before anything is looked at, and stays reserved
//! until the sweep ends. Under the reservation the committed state and live routing are read again:
//! what a move has just committed is what slots are classified against. Only then are the nodes
//! listed, one after the other, and their orphans dropped.
use crate::control::{ClusterState, NodeId};
use crate::coordinator::gc::{
    carried_over, check_listing, classes, classify_node, drop_views, empty_report, listing_refusal,
    live_for, no_address_text, orphan_count, pair_views, reachable, recorded_slots, slot_class,
    start_sweep, unreachable_nodes, DropResult, GcReport, GcView, NodeListing, SlotClass,
};
use crate::shard::ShardError;
use crate::text::texts;
use vstd::prelude::*;

verus! {

/// What a listing must say for its node to be swept.
#[derive(Debug, Clone, Copy, PartialEq, Eq)]
pub struct GcTerms {
    pub protocol: u32,
    pub dict_fingerprint: u64,
    pub tag_dict_fingerprint: u64,
}

/// What to do next.
pub enum GcCall {
    /// Read the committed state.
    ReadState,
    /// Reserve these endpoints, all of them, until the sweep ends.
    Reserve(Vec<String>),
    /// Read the committed state again, and what live routing has for each position.
    ReadAgain,
    /// List what this node hosts.
    List { node: NodeId, addr: String },
    /// Drop this slot.
    Drop { addr: String, shard_id: u32 },
}

/// What came of it.
pub enum GcEvent {
    /// The committed state.
    Seen(ClusterState),
    /// The committed state could not be read.
    Unreadable(ShardError),
    /// The endpoints are reserved.
    Reserved,
    /// The committed state, and the endpoints that live routing has for each position.
    SeenAgain { state: ClusterState, live: Vec<Vec<String>> },
    /// What the node hosts, or why it did not say.
    Listed(Result<NodeListing, String>),
    /// What became of the slot.
    Dropped(DropResult),
}

/// What a sweep works on, once everything is reserved and read again.
pub struct GcScene {
    pub terms: GcTerms,
    pub nodes: Vec<(NodeId, String)>,
    pub state: ClusterState,
    pub live: Vec<Vec<String>>,
}

/// How far a sweep is.
pub enum GcSweep {
    /// Nothing was read yet.
    Start { terms: GcTerms },
    /// These nodes are to be reserved.
    Reserve { terms: GcTerms, nodes: Vec<(NodeId, String)>, report: GcReport },
    /// They are reserved; the state is to be read again.
    Recheck { terms: GcTerms, nodes: Vec<(NodeId, String)>, report: GcReport },
    /// The node at `at` is to be listed.
    List { scene: GcScene, report: GcReport, at: usize },
    /// The slot at `slot` of the node at `at` is to be dropped; `drops` says what became of the
    /// node's orphans before it.
    Drop {
        scene: GcScene,
        report: GcReport,
        at: usize,
        listing: NodeListing,
        classes: Vec<SlotClass>,
        drops: Vec<DropResult>,
        slot: usize,
    },
    /// It has ended.
    Ended(Result<GcReport, ShardError>),
}

/// The first orphan at `from` or behind it.
pub open spec fn next_orphan(c: Seq<SlotClass>, from: int) -> Option<int>
    decreases c.len() - from,
{
    if from < 0 || from >= c.len() {
        None
    } else if c[from] == SlotClass::Orphan {
        Some(from)
    } else {
        next_orphan(c, from + 1)
    }
}

/// What the slots of a node are, in the state and the routing that were read under the reservation.
pub open spec fn scene_classes(g: GcScene, at: int, listing: NodeListing) -> Seq<SlotClass> {
    classes(g.state@, g.nodes@[at].0, g.nodes@[at].1@, listing.shards@, g.live@)
}

/// Why the listing of a node is not used, if it is not.
pub open spec fn scene_refusal(g: GcScene, listing: NodeListing) -> Option<Seq<char>> {
    listing_refusal(
        listing,
        g.terms.protocol,
        g.terms.dict_fingerprint,
        g.terms.tag_dict_fingerprint,
    )
}

/// The stage is one that a sweep can be at.
pub open spec fn gc_valid(s: GcSweep) -> bool {
    match s {
        GcSweep::Start { .. } => true,
        GcSweep::Reserve { terms: _, nodes, report: _ } => nodes@.len() > 0,
        GcSweep::Recheck { terms: _, nodes, report: _ } => nodes@.len() > 0,
        GcSweep::List { scene, report: _, at } => at < scene.nodes@.len(),
        GcSweep::Drop { scene, report: _, at, listing, classes, drops, slot } => {
            &&& at < scene.nodes@.len()
            &&& scene_refusal(scene, listing) is None
            &&& classes@ == scene_classes(scene, at as int, listing)
            &&& slot < classes@.len()
            &&& classes@[slot as int] == SlotClass::Orphan
            &&& drops@.len() == orphan_count(classes@.take(slot as int))
        },
        GcSweep::Ended(_) => true,
    }
}

/// The event is one that follows what was asked.
pub open spec fn gc_fits(s: GcSweep, e: GcEvent) -> bool {
    match s {
        GcSweep::Start { .. } => e is Seen || e is Unreadable,
        GcSweep::Reserve { .. } => e is Reserved,
        GcSweep::Recheck { .. } => e is SeenAgain || e is Unreadable,
        GcSweep::List { .. } => e is Listed,
        GcSweep::Drop { .. } => e is Dropped,
        GcSweep::Ended(_) => false,
    }
}

/// The nodes of the sweep are reserved. The reservation is given back when this ends.
pub open spec fn holds_nodes(s: GcSweep) -> bool {
    s is Recheck || s is List || s is Drop
}

/// The report of a sweep that has only read the committed state.
pub open spec fn started_report(s: ClusterState) -> GcView {
    GcView {
        skipped_nodes: unreachable_nodes(s@.nodes).map_values(
            |id: NodeId| (id, no_address_text()),
        ),
        ..empty_report()
    }
}

/// The report with a node on which nothing could be classified.
pub open spec fn skipped_report(v: GcView, node: NodeId, reason: Seq<char>) -> GcView {
    GcView { skipped_nodes: v.skipped_nodes.push((node, reason)), ..v }
}

/// The report with a node that was swept.
pub open spec fn swept_report(
    v: GcView,
    node: NodeId,
    listing: NodeListing,
    c: Seq<SlotClass>,
    drops: Seq<DropResult>,
) -> GcView {
    recorded_slots(
        carried_over(v, node, listing.pending_disk_cleanup_shards@),
        node,
        listing.shards@,
        c,
        drop_views(drops),
    )
}

/// `n` goes on with the node behind `at`, or ends where there is none; its report is `v`.
pub open spec fn moved_on(g: GcScene, at: usize, v: GcView, n: GcSweep) -> bool {
    if at + 1 < g.nodes@.len() {
        n matches GcSweep::List { scene, report, at: a } && scene == g && report@ == v && a == at
            + 1
    } else {
        n matches GcSweep::Ended(Ok(report)) && report@ == v
    }
}

/// `n` drops the next orphan at `from` or behind it; where there is none the node is done.
pub open spec fn dropping_on(
    g: GcScene,
    v: GcView,
    at: usize,
    listing: NodeListing,
    drops: Seq<DropResult>,
    from: int,
    n: GcSweep,
) -> bool {
    let c = scene_classes(g, at as int, listing);
    match next_orphan(c, from) {
        Some(i) => n matches GcSweep::Drop {
            scene,
            report,
            at: a,
            listing: l,
            classes,
            drops: d,
            slot,
        } && scene == g && report@ == v && a == at && l == listing && classes@ == c && d@ == drops
            && slot == i,
        None => moved_on(g, at, swept_report(v, g.nodes@[at as int].0, listing, c, drops), n),
    }
}

/// A step of the sweep: `n` follows `s` on `e`.
pub open spec fn gc_step(s: GcSweep, e: GcEvent, n: GcSweep) -> bool {
    match (s, e) {
        (GcSweep::Start { terms }, GcEvent::Seen(state)) => if reachable(state@.nodes).len() == 0 {
            n matches GcSweep::Ended(Ok(report)) && report@ == started_report(state)
        } else {
            n matches GcSweep::Reserve { terms: t, nodes, report } && t == terms && pair_views(
                nodes@,
            ) == reachable(state@.nodes) && report@ == started_report(state)
        },
        (GcSweep::Reserve { terms, nodes, report }, GcEvent::Reserved) => n == (GcSweep::Recheck {
            terms,
            nodes,
            report,
        }),
        (GcSweep::Recheck { terms, nodes, report }, GcEvent::SeenAgain { state, live }) => n == (
        GcSweep::List { scene: GcScene { terms, nodes, state, live }, report, at: 0 }),
        (GcSweep::List { scene, report, at }, GcEvent::Listed(Err(m))) => moved_on(
            scene,
            at,
            skipped_report(report@, scene.nodes@[at as int].0, m@),
            n,
        ),
        (GcSweep::List { scene, report, at }, GcEvent::Listed(Ok(listing))) => match scene_refusal(
            scene,
            listing,
        ) {
            Some(m) => moved_on(
                scene,
                at,
                skipped_report(report@, scene.nodes@[at as int].0, m),
                n,
            ),
            None => dropping_on(scene, report@, at, listing, Seq::empty(), 0, n),
        },
        (
            GcSweep::Drop { scene, report, at, listing, classes: _, drops, slot },
            GcEvent::Dropped(d),
        ) => dropping_on(scene, report@, at, listing, drops@.push(d), slot + 1, n),
        (_, GcEvent::Unreadable(x)) => n == GcSweep::Ended(Err(x)),
        _ => n == s,
    }
}

proof fn lemma_next_orphan(c: Seq<SlotClass>, from: int)
    requires
        0 <= from <= c.len(),
    ensures
        match next_orphan(c, from) {
            Some(i) => from <= i < c.len() && c[i] == SlotClass::Orphan && orphan_count(c.take(i))
                == orphan_count(c.take(from)),
            None => orphan_count(c) == orphan_count(c.take(from)),
        },
    decreases c.len() - from,
{
    if from < c.len() {
        if c[from] != SlotClass::Orphan {
            lemma_next_orphan(c, from + 1);
            assert(c.take(from + 1).drop_last() =~= c.take(from));
            assert(c.take(from + 1).last() == c[from]);
        }
    } else {
        assert(c.take(from) =~= c);
    }
}

fn next_orphan_from(c: &Vec<SlotClass>, from: usize) -> (r: Option<usize>)
    requires
        from <= c@.len(),
    ensures
        match next_orphan(c@, from as int) {
            Some(i) => r matches Some(x) && x == i,
            None => r is None,
        },
{
    let n: usize = c.len();
    let mut i: usize = from;
    while i < n
        invariant
            n == c@.len(),
            from <= i <= n,
            next_orphan(c@, i as int) == next_orphan(c@, from as int),
        decreases n - i,
    {
        if c[i] == SlotClass::Orphan {
            return Some(i);
        }
        i = i + 1;
    }
    None
}

fn move_on(scene: GcScene, at: usize, report: GcReport) -> (r: GcSweep)
    requires
        at < scene.nodes@.len(),
    ensures
        moved_on(scene, at, report@, r),
        gc_valid(r),
{
    let n: usize = scene.nodes.len();
    if n - at > 1 {
        GcSweep::List { scene, report, at: at + 1 }
    } else {
        GcSweep::Ended(Ok(report))
    }
}

fn drop_on(
    scene: GcScene,
    mut report: GcReport,
    at: usize,
    listing: NodeListing,
    classes: Vec<SlotClass>,
    drops: Vec<DropResult>,
    from: usize,
) -> (r: GcSweep)
    requires
        at < scene.nodes@.len(),
        scene_refusal(scene, listing) is None,
        classes@ == scene_classes(scene, at as int, listing),
        from <= classes@.len(),
        drops@.len() == orphan_count(classes@.take(from as int)),
    ensures
        dropping_on(scene, report@, at, listing, drops@, from as int, r),
        gc_valid(r),
{
    proof {
        lemma_next_orphan(classes@, from as int);
    }
    match next_orphan_from(&classes, from) {
        Some(slot) => GcSweep::Drop { scene, report, at, listing, classes, drops, slot },
        None => {
            let node = scene.nodes[at].0;
            report.record_node(node, &listing, &classes, drops);
            move_on(scene, at, report)
        },
    }
}

fn endpoints_of(nodes: &Vec<(NodeId, String)>) -> (r: Vec<String>)
    ensures
        texts(r@) == pair_views(nodes@).map_values(|p: (NodeId, Seq<char>)| p.1),
{
    let mut r: Vec<String> = Vec::new();
    let n: usize = nodes.len();
    let mut i: usize = 0;
    while i < n
        invariant
            n == nodes@.len(),
            i <= n,
            r@.len() == i,
            forall|k: int| 0 <= k < i ==> (#[trigger] r@[k])@ == nodes@[k].1@,
        decreases n - i,
    {
        r.push(nodes[i].1.clone());
        i = i + 1;
    }
    assert(texts(r@) =~= pair_views(nodes@).map_values(|p: (NodeId, Seq<char>)| p.1));
    r
}

impl GcSweep {
    /// A sweep of nodes whose listings meet these terms.
    pub fn new(terms: GcTerms) -> (r: Self)
        ensures
            r == (GcSweep::Start { terms }),
            gc_valid(r),
    {
        GcSweep::Start { terms }
    }

    /// What to do next; nothing once it ended.
    pub fn call(&self) -> (r: Option<GcCall>)
        requires
            gc_valid(*self),
        ensures
            match *self {
                GcSweep::Start { .. } => r == Some(GcCall::ReadState),
                GcSweep::Reserve { terms: _, nodes, report: _ } => r matches Some(
                    GcCall::Reserve(v),
                ) && texts(v@) == pair_views(nodes@).map_values(|p: (NodeId, Seq<char>)| p.1),
                GcSweep::Recheck { .. } => r == Some(GcCall::ReadAgain),
                GcSweep::List { scene, report: _, at } => r matches Some(
                    GcCall::List { node, addr },
                ) && node == scene.nodes@[at as int].0 && addr@ == scene.nodes@[at as int].1@,
                GcSweep::Drop { scene, report: _, at, listing, classes: _, drops: _, slot } =>
                    r matches Some(GcCall::Drop { addr, shard_id }) && addr@
                        == scene.nodes@[at as int].1@ && shard_id
                        == listing.shards@[slot as int].shard_id,
                GcSweep::Ended(_) => r is None,
            },
    {
        match self {
            GcSweep::Start { .. } => Some(GcCall::ReadState),
            GcSweep::Reserve { terms: _, nodes, report: _ } => Some(
                GcCall::Reserve(endpoints_of(nodes)),
            ),
            GcSweep::Recheck { .. } => Some(GcCall::ReadAgain),
            GcSweep::List { scene, report: _, at } => Some(
                GcCall::List { node: scene.nodes[*at].0, addr: scene.nodes[*at].1.clone() },
            ),
            GcSweep::Drop { scene, report: _, at, listing, classes: _, drops: _, slot } => Some(
                GcCall::Drop {
                    addr: scene.nodes[*at].1.clone(),
                    shard_id: listing.shards[*slot].shard_id,
                },
            ),
            GcSweep::Ended(_) => None,
        }
    }

    /// Takes an event.
    pub fn next(self, event: GcEvent) -> (r: Self)
        requires
            gc_fits(self, event),
            gc_valid(self),
        ensures
            gc_step(self, event, r),
            gc_valid(r),
    {
        match (self, event) {
            (GcSweep::Start { terms }, GcEvent::Seen(state)) => {
                let (nodes, report) = start_sweep(&state);
                assert(pair_views(nodes@).len() == nodes@.len());
                if nodes.len() == 0 {
                    GcSweep::Ended(Ok(report))
                } else {
                    GcSweep::Reserve { terms, nodes, report }
                }
            },
            (GcSweep::Reserve { terms, nodes, report }, GcEvent::Reserved) => {
                GcSweep::Recheck { terms, nodes, report }
            },
            (GcSweep::Recheck { terms, nodes, report }, GcEvent::SeenAgain { state, live }) => {
                GcSweep::List { scene: GcScene { terms, nodes, state, live }, report, at: 0 }
            },
            (GcSweep::List { scene, report, at }, GcEvent::Listed(listed)) => {
                let node = scene.nodes[at].0;
                let mut report = report;
                match listed {
                    Err(m) => {
                        report.skip_node(node, m);
                        move_on(scene, at, report)
                    },
                    Ok(listing) => {
                        match check_listing(
                            &listing,
                            scene.terms.protocol,
                            scene.terms.dict_fingerprint,
                            scene.terms.tag_dict_fingerprint,
                        ) {
                            Some(m) => {
                                report.skip_node(node, m);
                                move_on(scene, at, report)
                            },
                            None => {
                                let classes = classify_node(
                                    &scene.state,
                                    node,
                                    scene.nodes[at].1.as_str(),
                                    &listing.shards,
                                    &scene.live,
                                );
                                let drops: Vec<DropResult> = Vec::new();
                                assert(classes@.take(0).len() == 0);
                                assert(drops@ =~= Seq::empty());
                                drop_on(scene, report, at, listing, classes, drops, 0)
                            },
                        }
                    },
                }
            },
            (
                GcSweep::Drop { scene, report, at, listing, classes, drops, slot },
                GcEvent::Dropped(d),
            ) => {
                let mut drops = drops;
                let ghost before = drops@;
                let n: usize = classes.len();
                assert(slot < n);
                drops.push(d);
                proof {
                    let c = classes@;
                    assert(drops@ =~= before.push(d));
                    assert(c.take(slot + 1).drop_last() =~= c.take(slot as int));
                    assert(c.take(slot + 1).last() == c[slot as int]);
                }
                drop_on(scene, report, at, listing, classes, drops, slot + 1)
            },
            (_, GcEvent::Unreadable(e)) => GcSweep::Ended(Err(e)),
            (s, _) => s,
        }
    }
}

// ---- laws ----

/// A run of the sweep: `states` are the stages that it went through on `events`.
pub open spec fn gc_run(states: Seq<GcSweep>, events: Seq<GcEvent>) -> bool {
    &&& states.len() == events.len() + 1
    &&& states[0] is Start
    &&& forall|i: int|
        #![trigger events[i]]
        0 <= i < events.len() ==> gc_valid(states[i]) && gc_fits(states[i], events[i]) && gc_step(
            states[i],
            events[i],
            states[i + 1],
        ) && gc_valid(states[i + 1])
}

/// What the sweep works on at a stage that lists or drops.
pub open spec fn scene_of(s: GcSweep) -> Option<GcScene> {
    match s {
        GcSweep::List { scene, report: _, at: _ } => Some(scene),
        GcSweep::Drop { scene, .. } => Some(scene),
        _ => None,
    }
}

/// Nothing is listed before everything is reserved: at every stage that lists or drops, the first
/// event was a read of the committed state, the second the reservation of every data node with an
/// address in it, and the third a second read; nothing was given back since, and the slots are
/// classified against the second read.
pub proof fn law_sweep_works_under_its_reservation(
    states: Seq<GcSweep>,
    events: Seq<GcEvent>,
    k: int,
)
    requires
        gc_run(states, events),
        0 <= k < states.len(),
        states[k] is List || states[k] is Drop,
    ensures
        k >= 3,
        events[0] is Seen,
        states[1] matches GcSweep::Reserve { terms: _, nodes, report: _ } && pair_views(nodes@)
            == reachable(events[0]->Seen_0@.nodes) && scene_of(states[k])->0.nodes == nodes,
        events[1] is Reserved,
        events[2] matches GcEvent::SeenAgain { state, live } && scene_of(states[k])->0.state
            == state && scene_of(states[k])->0.live == live,
        forall|j: int| 2 <= j <= k ==> holds_nodes(#[trigger] states[j]),
    decreases k,
{
    if k > 0 {
        assert(gc_step(states[k - 1], events[k - 1], states[k]));
        if states[k - 1] is List || states[k - 1] is Drop {
            law_sweep_works_under_its_reservation(states, events, k - 1);
        } else {
            assert(states[k - 1] is Recheck);
            lemma_start_of_a_run(states, events, k - 1);
        }
    }
}

proof fn lemma_start_of_a_run(states: Seq<GcSweep>, events: Seq<GcEvent>, k: int)
    requires
        gc_run(states, events),
        0 <= k < states.len(),
    ensures
        states[k] is Start ==> k == 0,
        states[k] is Reserve ==> k == 1 && events[0] is Seen,
        states[k] is Recheck ==> k == 2 && events[0] is Seen && events[1] is Reserved
            && states[1] is Reserve && states[1]->Reserve_nodes == states[2]->Recheck_nodes,
    decreases k,
{
    if k > 0 {
        lemma_start_of_a_run(states, events, k - 1);
        assert(gc_step(states[k - 1], events[k - 1], states[k]));
    }
}

/// A slot is dropped only while every data node of the first read is reserved, and only if it is an
/// orphan in the state and the routing that were read under the reservation, on a node whose
/// listing meets the terms.
pub proof fn law_only_orphans_are_dropped(states: Seq<GcSweep>, events: Seq<GcEvent>, k: int)
    requires
        gc_run(states, events),
        0 < k < states.len(),
        states[k] is Drop,
    ensures
        forall|j: int| 2 <= j <= k ==> holds_nodes(#[trigger] states[j]),
        states[1] matches GcSweep::Reserve { terms: _, nodes, report: _ } && pair_views(nodes@)
            == reachable(events[0]->Seen_0@.nodes),
        states[k] matches GcSweep::Drop { scene, report: _, at, listing, classes: _, drops: _, slot }
            && events[2] matches GcEvent::SeenAgain { state, live } && scene_refusal(
            scene,
            listing,
        ) is None && slot_class(
            state@,
            scene.nodes@[at as int].0,
            scene.nodes@[at as int].1@,
            listing.shards@[slot as int].shard_id,
            live_for(live@, listing.shards@[slot as int].shard_id),
        ) == SlotClass::Orphan,
{
    law_sweep_works_under_its_reservation(states, events, k);
    assert(gc_step(states[k - 1], events[k - 1], states[k]));
    assert(gc_valid(states[k]));
}

/// How many nodes were listed, or could not be.
pub open spec fn listings(events: Seq<GcEvent>) -> nat
    decreases events.len(),
{
    if events.len() == 0 {
        0
    } else {
        listings(events.drop_last()) + if events.last() is Listed {
            1nat
        } else {
            0nat
        }
    }
}

/// How many nodes were listed, at a stage of a sweep of `n` nodes.
spec fn listed_so_far(s: GcSweep, past: Seq<GcEvent>, n: nat) -> bool {
    match s {
        GcSweep::List { scene, report: _, at } => listings(past) == at && scene.nodes@.len() == n,
        GcSweep::Drop { scene, report: _, at, .. } => listings(past) == at + 1
            && scene.nodes@.len() == n,
        GcSweep::Reserve { terms: _, nodes, report: _ } => listings(past) == 0 && nodes@.len() == n,
        GcSweep::Recheck { terms: _, nodes, report: _ } => listings(past) == 0 && nodes@.len() == n,
        GcSweep::Ended(Ok(_)) => listings(past) == n,
        GcSweep::Ended(Err(_)) => true,
        GcSweep::Start { .. } => listings(past) == 0,
    }
}

proof fn lemma_listed_so_far(states: Seq<GcSweep>, events: Seq<GcEvent>, k: int)
    requires
        gc_run(states, events),
        0 <= k < states.len(),
    ensures
        k > 0 && events[0] is Seen ==> listed_so_far(
            states[k],
            events.take(k),
            reachable(events[0]->Seen_0@.nodes).len(),
        ),
        k > 0 && events[0] !is Seen ==> states[k] matches GcSweep::Ended(Err(_)),
        k == 0 ==> listings(events.take(k)) == 0,
    decreases k,
{
    if k == 0 {
        assert(events.take(0).len() == 0);
    } else {
        let e = events[k - 1];
        lemma_listed_so_far(states, events, k - 1);
        assert(gc_fits(states[k - 1], e));
        assert(gc_step(states[k - 1], e, states[k]));
        assert(gc_valid(states[k - 1]));
        let past = events.take(k);
        assert(past.drop_last() =~= events.take(k - 1));
        assert(past.last() == e);
        if let GcSweep::Reserve { terms: _, nodes, report: _ } = states[k] {
            assert(pair_views(nodes@).len() == nodes@.len());
        }
    }
}

/// Every data node with an address is listed once, in order: a sweep that ends with a report has
/// asked each node of its first read for its slots, none twice.
pub proof fn law_every_node_is_listed_once(states: Seq<GcSweep>, events: Seq<GcEvent>)
    requires
        gc_run(states, events),
        states.last() matches GcSweep::Ended(Ok(_)),
    ensures
        events[0] is Seen,
        listings(events) == reachable(events[0]->Seen_0@.nodes).len(),
        forall|i: int|
            0 <= i < events.len() && #[trigger] events[i] is Listed ==> (
            states[i] matches GcSweep::List { scene, report: _, at } && at == listings(
                events.take(i),
            ) && pair_views(scene.nodes@) == reachable(events[0]->Seen_0@.nodes)),
{
    let n = events.len() as int;
    assert(states.last() == states[n]);
    lemma_listed_so_far(states, events, n);
    assert(events.take(n) =~= events);
    assert forall|i: int| 0 <= i < events.len() && #[trigger] events[i] is Listed implies (
    states[i] matches GcSweep::List { scene, report: _, at } && at == listings(events.take(i))
        && pair_views(scene.nodes@) == reachable(events[0]->Seen_0@.nodes)) by {
        assert(gc_fits(states[i], events[i]));
        lemma_listed_so_far(states, events, i);
        law_sweep_works_under_its_reservation(states, events, i);
    }
}

/// How much of a sweep is left: stages, then nodes, then slots of the node.
pub open spec fn gc_left(s: GcSweep) -> (nat, nat, nat) {
    match s {
        GcSweep::Start { .. } => (4, 0, 0),
        GcSweep::Reserve { .. } => (3, 0, 0),
        GcSweep::Recheck { .. } => (2, 0, 0),
        GcSweep::List { scene, report: _, at } => (1, (2 * (scene.nodes@.len() - at)) as nat, 0),
        GcSweep::Drop { scene, report: _, at, listing: _, classes, drops: _, slot } => (
            1,
            (2 * (scene.nodes@.len() - at) - 1) as nat,
            (classes@.len() - slot) as nat,
        ),
        GcSweep::Ended(_) => (0, 0, 0),
    }
}

/// A sweep ends: with every step less of it is left.
pub proof fn law_sweep_ends(s: GcSweep, e: GcEvent, n: GcSweep)
    requires
        gc_valid(s),
        gc_fits(s, e),
        gc_step(s, e, n),
        gc_valid(n),
    ensures
        gc_left(n).0 < gc_left(s).0 || (gc_left(n).0 == gc_left(s).0 && (gc_left(n).1 < gc_left(s).1
            || (gc_left(n).1 == gc_left(s).1 && gc_left(n).2 < gc_left(s).2))),
{
    if let GcSweep::Drop { scene, report: _, at, listing, classes: _, drops: _, slot } = s {
        lemma_next_orphan(scene_classes(scene, at as int, listing), slot + 1);
    }
    if let GcSweep::List { scene, report: _, at } = s {
        if let GcEvent::Listed(Ok(listing)) = e {
            lemma_next_orphan(scene_classes(scene, at as int, listing), 0);
        }
    }
}

/// The next orphan is the first slot from there on that is one.
pub proof fn law_the_next_orphan_is_the_first(c: Seq<SlotClass>, from: int, i: int)
    requires
        0 <= from,
    ensures
        next_orphan(c, from) is None <==> forall|k: int|
            from <= k < c.len() ==> (#[trigger] c[k]) != SlotClass::Orphan,
        from <= i < c.len() && c[i] == SlotClass::Orphan && (forall|k: int|
            from <= k < i ==> (#[trigger] c[k]) != SlotClass::Orphan) ==> next_orphan(c, from)
            == Some(i),
    decreases c.len() - from,
{
    if from < c.len() && c[from] != SlotClass::Orphan {
        law_the_next_orphan_is_the_first(c, from + 1, i);
        if next_orphan(c, from) is None {
            assert forall|k: int| from <= k < c.len() implies (#[trigger] c[k])
                != SlotClass::Orphan by {}
        }
    }
}

/// A sweep goes on where it can: a node that cannot be listed, or whose listing does not meet the
/// terms, is named with the reason and the next one is listed; every orphan of a node is dropped
/// before the next node; and a sweep whose state cannot be read ends with that error.
pub proof fn law_a_sweep_goes_on(s: GcSweep, e: GcEvent, n: GcSweep)
    requires
        gc_valid(s),
        gc_fits(s, e),
        gc_step(s, e, n),
    ensures
        e matches GcEvent::Unreadable(x) ==> n == GcSweep::Ended(Err(x)),
        s is Start && e is Seen ==> {
            let nodes = e->Seen_0@.nodes;
            &&& reachable(nodes).len() == 0 ==> n is Ended && n->Ended_0 is Ok
            &&& reachable(nodes).len() > 0 ==> (n matches GcSweep::Reserve {
                terms: _,
                nodes: v,
                report: _,
            } && pair_views(v@) == reachable(nodes))
        },
        s is Reserve ==> n is Recheck,
        s is Recheck && e is SeenAgain ==> n is List && n->List_at == 0,
        s matches GcSweep::List { scene, report, at } ==> (e matches GcEvent::Listed(r) ==> {
            let bad = match r {
                Err(m) => Some(m@),
                Ok(l) => scene_refusal(scene, l),
            };
            &&& bad matches Some(m) ==> (if at + 1 < scene.nodes@.len() {
                n matches GcSweep::List { scene: g, report: v, at: a } && g == scene && a == at + 1
                    && v@.skipped_nodes == report@.skipped_nodes.push(
                    (scene.nodes@[at as int].0, m),
                )
            } else {
                n matches GcSweep::Ended(Ok(v)) && v@.skipped_nodes == report@.skipped_nodes.push(
                    (scene.nodes@[at as int].0, m),
                )
            })
            &&& bad is None ==> (n is Drop <==> scene_classes(scene, at as int, r->Ok_0).contains(
                SlotClass::Orphan,
            ))
        }),
        s matches GcSweep::Drop { scene, report: _, at, listing, classes, drops, slot } ==> (
        e matches GcEvent::Dropped(d) ==> {
            &&& n matches GcSweep::Drop { scene: g, at: a, listing: l, drops: ds, slot: i, .. }
                ==> g == scene && a == at && l == listing && ds@ == drops@.push(d) && slot < i
                && (forall|k: int| slot < k < i ==> (#[trigger] classes@[k]) != SlotClass::Orphan)
            &&& !(n is Drop) ==> forall|k: int|
                slot < k < classes@.len() ==> (#[trigger] classes@[k]) != SlotClass::Orphan
        }),
{
    if let GcSweep::List { scene, report: _, at } = s {
        if let GcEvent::Listed(Ok(l)) = e {
            if scene_refusal(scene, l) is None {
                let c = scene_classes(scene, at as int, l);
                law_the_next_orphan_is_the_first(c, 0, 0);
                if c.contains(SlotClass::Orphan) {
                    let k = choose|k: int| 0 <= k < c.len() && c[k] == SlotClass::Orphan;
                    assert(c[k] == SlotClass::Orphan);
                }
                if next_orphan(c, 0) is Some {
                    lemma_next_orphan(c, 0);
                    assert(c.contains(c[next_orphan(c, 0)->0]));
                }
            }
        }
    }
    if let GcSweep::Drop { scene, report: _, at, listing, classes, drops: _, slot } = s {
        law_the_next_orphan_is_the_first(classes@, slot + 1, 0);
        if next_orphan(classes@, slot + 1) is Some {
            lemma_next_orphan_at(classes@, slot + 1);
        }
    }
}

proof fn lemma_next_orphan_at(c: Seq<SlotClass>, from: int)
    requires
        0 <= from,
        next_orphan(c, from) is Some,
    ensures
        from <= next_orphan(c, from)->0 < c.len(),
        c[next_orphan(c, from)->0] == SlotClass::Orphan,
        forall|k: int| from <= k < next_orphan(c, from)->0 ==> (#[trigger] c[k]) != SlotClass::Orphan,
    decreases c.len() - from,
{
    if from < c.len() && c[from] != SlotClass::Orphan {
        lemma_next_orphan_at(c, from + 1);
        assert forall|k: int| from <= k < next_orphan(c, from)->0 implies (#[trigger] c[k])
            != SlotClass::Orphan by {}
    }
}

} // verus!
