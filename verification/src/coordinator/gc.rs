//! Reclaiming slots that no longer belong to the node that hosts them.
//!
//! A slot is dropped only if the committed map places its position elsewhere and live routing does
//! not reach the node for it. Everything else is kept and, where it needs attention, reported.
use crate::allocator::{entry, find_position};
use crate::control::{node_views, ClusterState, NodeId, NodeRole, NodeView, StateView};
use crate::coordinator::group_plan::has_id;
use crate::endpoint::{normalized, normalized_spec};
use crate::seqs::lemma_filter_step;
use crate::text::{decimal, hex, push_decimal, push_hex, same_text, texts, with_number};
use vstd::prelude::*;

verus! {

/// One slot on one node, and how many queries it held when it was listed.
#[derive(Debug, Clone, Copy, PartialEq, Eq, Structural)]
pub struct OrphanSlot {
    pub node: NodeId,
    pub shard_id: u32,
    pub num_queries: u64,
}

/// What a sweep did.
#[derive(Debug, Clone, PartialEq, Eq)]
pub struct GcReport {
    /// Dropped and out of the serving directories.
    pub dropped: Vec<OrphanSlot>,
    /// Out of the serving directories, but not deleted yet.
    pub pending_disk_cleanup: Vec<OrphanSlot>,
    /// Kept because live routing still reaches them.
    pub kept_live_routed: Vec<OrphanSlot>,
    /// Kept because the committed map has no entry for their position.
    pub skipped_unassigned: Vec<OrphanSlot>,
    /// Not dropped because the drop failed.
    pub failed: Vec<(OrphanSlot, String)>,
    /// Nodes on which nothing could be classified.
    pub skipped_nodes: Vec<(NodeId, String)>,
}

/// A report, as a mathematical value.
#[verifier::ext_equal]
pub ghost struct GcView {
    pub dropped: Seq<OrphanSlot>,
    pub pending_disk_cleanup: Seq<OrphanSlot>,
    pub kept_live_routed: Seq<OrphanSlot>,
    pub skipped_unassigned: Seq<OrphanSlot>,
    pub failed: Seq<(OrphanSlot, Seq<char>)>,
    pub skipped_nodes: Seq<(NodeId, Seq<char>)>,
}

impl View for GcReport {
    type V = GcView;

    open spec fn view(&self) -> GcView {
        GcView {
            dropped: self.dropped@,
            pending_disk_cleanup: self.pending_disk_cleanup@,
            kept_live_routed: self.kept_live_routed@,
            skipped_unassigned: self.skipped_unassigned@,
            failed: self.failed@.map_values(|x: (OrphanSlot, String)| (x.0, x.1@)),
            skipped_nodes: self.skipped_nodes@.map_values(|x: (NodeId, String)| (x.0, x.1@)),
        }
    }
}

/// The report of nothing.
pub open spec fn empty_report() -> GcView {
    GcView {
        dropped: Seq::empty(),
        pending_disk_cleanup: Seq::empty(),
        kept_live_routed: Seq::empty(),
        skipped_unassigned: Seq::empty(),
        failed: Seq::empty(),
        skipped_nodes: Seq::empty(),
    }
}

impl Default for GcReport {
    fn default() -> (r: Self)
        ensures
            r@ == empty_report(),
    {
        let r = GcReport {
            dropped: Vec::new(),
            pending_disk_cleanup: Vec::new(),
            kept_live_routed: Vec::new(),
            skipped_unassigned: Vec::new(),
            failed: Vec::new(),
            skipped_nodes: Vec::new(),
        };
        assert(r@ =~= empty_report());
        r
    }
}

impl GcReport {
    /// Whether every node and slot was classified and every cleanup finished. Slots that live
    /// routing keeps do not make a sweep incomplete.
    pub fn is_complete(&self) -> (r: bool)
        ensures
            r == (self@.pending_disk_cleanup.len() == 0 && self@.skipped_unassigned.len() == 0
                && self@.failed.len() == 0 && self@.skipped_nodes.len() == 0),
    {
        self.pending_disk_cleanup.len() == 0 && self.skipped_unassigned.len() == 0
            && self.failed.len() == 0 && self.skipped_nodes.len() == 0
    }

    /// The same as [`Self::is_complete`].
    pub fn is_clean(&self) -> (r: bool)
        ensures
            r == (self@.pending_disk_cleanup.len() == 0 && self@.skipped_unassigned.len() == 0
                && self@.failed.len() == 0 && self@.skipped_nodes.len() == 0),
    {
        self.is_complete()
    }

    /// Notes that nothing on a node could be classified.
    pub fn skip_node(&mut self, node: NodeId, reason: String)
        ensures
            final(self)@ == (GcView {
                skipped_nodes: old(self)@.skipped_nodes.push((node, reason@)),
                ..old(self)@
            }),
    {
        let ghost before = self@;
        let ghost text = reason@;
        self.skipped_nodes.push((node, reason));
        assert(self@.skipped_nodes =~= before.skipped_nodes.push((node, text)));
    }
}

/// What a hosted slot is.
#[derive(Debug, Clone, Copy, PartialEq, Eq, Structural)]
pub enum SlotClass {
    /// The committed map places the position on this node.
    Committed,
    /// The committed map has no entry for the position.
    Unassigned,
    /// Live routing reaches this node for the position.
    LiveRouted,
    /// None of these.
    Orphan,
}

/// What a hosted slot is.
pub open spec fn slot_class(
    s: StateView,
    node: NodeId,
    addr: Seq<char>,
    shard_id: u32,
    live: Seq<Seq<char>>,
) -> SlotClass {
    match entry(s.assignments, shard_id) {
        None => SlotClass::Unassigned,
        Some(a) => if a.primary == node || a.replicas.contains(node) {
            SlotClass::Committed
        } else if exists|i: int|
            0 <= i < live.len() && normalized_spec(#[trigger] live[i]) == normalized_spec(addr) {
            SlotClass::LiveRouted
        } else {
            SlotClass::Orphan
        },
    }
}

/// Classifies one hosted slot. `live_eps` are the endpoints that live routing has for its position.
pub fn classify_slot(
    state: &ClusterState,
    node: NodeId,
    node_addr: &str,
    shard_id: u32,
    live_eps: &Vec<String>,
) -> (r: SlotClass)
    ensures
        r == slot_class(state@, node, node_addr@, shard_id, texts(live_eps@)),
{
    let i: usize = match find_position(&state.assignments, shard_id) {
        Some(i) => i,
        None => {
            return SlotClass::Unassigned;
        },
    };
    if state.assignments[i].primary.0 == node.0 || has_id(&state.assignments[i].replicas, node) {
        return SlotClass::Committed;
    }
    let addr = normalized(node_addr);
    let n: usize = live_eps.len();
    let ghost live = texts(live_eps@);
    let mut k: usize = 0;
    while k < n
        invariant
            n == live_eps@.len(),
            live == texts(live_eps@),
            addr@ == normalized_spec(node_addr@),
            k <= n,
            i < state.assignments@.len(),
            entry(state@.assignments, shard_id) == Some(state.assignments@[i as int]@),
            state.assignments@[i as int].primary != node,
            !state.assignments@[i as int].replicas@.contains(node),
            forall|q: int| 0 <= q < k ==> normalized_spec(#[trigger] live[q]) != addr@,
        decreases n - k,
    {
        assert(live[k as int] == live_eps@[k as int]@);
        if same_text(&normalized(live_eps[k].as_str()), &addr) {
            assert(normalized_spec(live[k as int]) == normalized_spec(node_addr@));
            return SlotClass::LiveRouted;
        }
        k = k + 1;
    }
    SlotClass::Orphan
}

/// One slot that a node hosts.
#[derive(Debug, Clone, Copy, PartialEq, Eq, Structural)]
pub struct ShardListing {
    pub shard_id: u32,
    pub num_queries: u64,
}

/// What a node hosts.
#[derive(Debug, Clone)]
pub struct NodeListing {
    pub gc_protocol_version: u32,
    pub dict_fingerprint: u64,
    pub tag_dict_fingerprint: u64,
    /// Slots that are out of the serving directories, but not deleted yet.
    pub pending_disk_cleanup_shards: Vec<u32>,
    pub shards: Vec<ShardListing>,
}

/// The nodes that a sweep can ask, with their addresses, among `nodes`.
pub open spec fn reachable(nodes: Seq<NodeView>) -> Seq<(NodeId, Seq<char>)> {
    nodes.filter(|n: NodeView| n.role == NodeRole::Data && n.addr is Some).map_values(
        |n: NodeView| (n.id, n.addr->0),
    )
}

/// The data nodes that have no address, among `nodes`.
pub open spec fn unreachable_nodes(nodes: Seq<NodeView>) -> Seq<NodeId> {
    nodes.filter(|n: NodeView| n.role == NodeRole::Data && n.addr is None).map_values(
        |n: NodeView| n.id,
    )
}

/// Why a node without an address is skipped.
pub open spec fn no_address_text() -> Seq<char> {
    "registered data node has no endpoint; its slots cannot be classified"@
}

/// Nodes with addresses, as mathematical values.
pub open spec fn pair_views(v: Seq<(NodeId, String)>) -> Seq<(NodeId, Seq<char>)> {
    v.map_values(|x: (NodeId, String)| (x.0, x.1@))
}

/// Starts a sweep: the nodes to ask, and a report that names the data nodes that cannot be asked.
pub fn start_sweep(state: &ClusterState) -> (r: (Vec<(NodeId, String)>, GcReport))
    ensures
        pair_views(r.0@) == reachable(state@.nodes),
        r.1@ == (GcView {
            skipped_nodes: unreachable_nodes(state@.nodes).map_values(
                |id: NodeId| (id, no_address_text()),
            ),
            ..empty_report()
        }),
{
    let ghost all = state@.nodes;
    let ghost yes = |n: NodeView| n.role == NodeRole::Data && n.addr is Some;
    let ghost no = |n: NodeView| n.role == NodeRole::Data && n.addr is None;
    let ghost pair = |n: NodeView| (n.id, n.addr->0);
    let ghost id = |n: NodeView| n.id;
    let ghost why = |x: NodeId| (x, no_address_text());
    let mut nodes: Vec<(NodeId, String)> = Vec::new();
    let mut report = GcReport::default();
    let n: usize = state.nodes.len();
    let mut i: usize = 0;
    proof {
        reveal(Seq::filter);
        assert(pair_views(nodes@) =~= all.take(0).filter(yes).map_values(pair));
        assert(report@.skipped_nodes =~= all.take(0).filter(no).map_values(id).map_values(why));
    }
    while i < n
        invariant
            n == state.nodes@.len(),
            all == node_views(state.nodes@),
            i <= n,
            yes == (|n: NodeView| n.role == NodeRole::Data && n.addr is Some),
            no == (|n: NodeView| n.role == NodeRole::Data && n.addr is None),
            pair == (|n: NodeView| (n.id, n.addr->0)),
            id == (|n: NodeView| n.id),
            why == (|x: NodeId| (x, no_address_text())),
            pair_views(nodes@) == all.take(i as int).filter(yes).map_values(pair),
            report@ == (GcView {
                skipped_nodes: all.take(i as int).filter(no).map_values(id).map_values(why),
                ..empty_report()
            }),
        decreases n - i,
    {
        let node = &state.nodes[i];
        let ghost x = all[i as int];
        let ghost a = all.take(i as int).filter(yes);
        let ghost b = all.take(i as int).filter(no);
        proof {
            assert(x == node@);
            lemma_filter_step(all, yes, i as int);
            lemma_filter_step(all, no, i as int);
            assert(a.push(x).map_values(pair) =~= a.map_values(pair).push(pair(x)));
            assert(b.push(x).map_values(id).map_values(why) =~= b.map_values(id).map_values(
                why,
            ).push((x.id, no_address_text())));
        }
        let data: bool = match node.role {
            NodeRole::Data => true,
            NodeRole::Manager => false,
        };
        if data {
            match &node.addr {
                Some(addr) => {
                    let ghost before = nodes@;
                    nodes.push((node.id, addr.clone()));
                    assert(pair_views(nodes@) =~= pair_views(before).push((x.id, addr@)));
                },
                None => {
                    report.skip_node(
                        node.id,
                        String::from_str(
                            "registered data node has no endpoint; its slots cannot be classified",
                        ),
                    );
                },
            }
        }
        i = i + 1;
    }
    assert(all.take(n as int) =~= all);
    (nodes, report)
}

/// Why a node's listing is not used, if it is not.
pub open spec fn listing_refusal(
    listing: NodeListing,
    protocol: u32,
    dict_fingerprint: u64,
    tag_dict_fingerprint: u64,
) -> Option<Seq<char>> {
    if listing.gc_protocol_version != protocol {
        Some(
            "node GC protocol "@ + decimal(listing.gc_protocol_version as nat)
                + " is incompatible with required version "@ + decimal(protocol as nat),
        )
    } else if listing.dict_fingerprint != dict_fingerprint || listing.tag_dict_fingerprint
        != tag_dict_fingerprint {
        Some(
            "node fingerprints 0x"@ + hex(listing.dict_fingerprint as nat, 16) + "/0x"@ + hex(
                listing.tag_dict_fingerprint as nat,
                16,
            ) + " diverge from the coordinator's — not classifying its slots"@,
        )
    } else {
        None
    }
}

/// Checks that a node's listing can be classified.
pub fn check_listing(
    listing: &NodeListing,
    protocol: u32,
    dict_fingerprint: u64,
    tag_dict_fingerprint: u64,
) -> (r: Option<String>)
    ensures
        match listing_refusal(*listing, protocol, dict_fingerprint, tag_dict_fingerprint) {
            Some(t) => r matches Some(s) && s@ == t,
            None => r is None,
        },
{
    if listing.gc_protocol_version != protocol {
        let mut m = with_number(
            "node GC protocol ",
            listing.gc_protocol_version as u64,
            " is incompatible with required version ",
        );
        push_decimal(&mut m, protocol as u64);
        return Some(m);
    }
    if listing.dict_fingerprint != dict_fingerprint || listing.tag_dict_fingerprint
        != tag_dict_fingerprint {
        let mut m = String::from_str("node fingerprints 0x");
        push_hex(&mut m, listing.dict_fingerprint, 16);
        m.append("/0x");
        push_hex(&mut m, listing.tag_dict_fingerprint, 16);
        m.append(" diverge from the coordinator's — not classifying its slots");
        return Some(m);
    }
    None
}

/// What live routing has for a position; nothing for one beyond the shards.
pub open spec fn live_for(live: Seq<Vec<String>>, shard_id: u32) -> Seq<Seq<char>> {
    if shard_id < live.len() {
        texts(live[shard_id as int]@)
    } else {
        Seq::empty()
    }
}

/// What each hosted slot of a node is.
pub open spec fn classes(
    s: StateView,
    node: NodeId,
    addr: Seq<char>,
    shards: Seq<ShardListing>,
    live: Seq<Vec<String>>,
) -> Seq<SlotClass> {
    shards.map_values(
        |x: ShardListing| slot_class(s, node, addr, x.shard_id, live_for(live, x.shard_id)),
    )
}

/// Classifies every hosted slot of a node.
pub fn classify_node(
    state: &ClusterState,
    node: NodeId,
    addr: &str,
    shards: &Vec<ShardListing>,
    live: &Vec<Vec<String>>,
) -> (r: Vec<SlotClass>)
    ensures
        r@ == classes(state@, node, addr@, shards@, live@),
{
    let n: usize = shards.len();
    let mut r: Vec<SlotClass> = Vec::new();
    let none: Vec<String> = Vec::new();
    let mut i: usize = 0;
    while i < n
        invariant
            n == shards@.len(),
            i <= n,
            none@.len() == 0,
            r@.len() == i,
            forall|k: int|
                0 <= k < i ==> #[trigger] r@[k] == slot_class(
                    state@,
                    node,
                    addr@,
                    shards@[k].shard_id,
                    live_for(live@, shards@[k].shard_id),
                ),
        decreases n - i,
    {
        let id: u32 = shards[i].shard_id;
        assert(texts(none@) =~= Seq::empty());
        let c = if (id as u64) < live.len() as u64 {
            classify_slot(state, node, addr, id, &live[id as usize])
        } else {
            classify_slot(state, node, addr, id, &none)
        };
        r.push(c);
        i = i + 1;
    }
    assert(r@ =~= classes(state@, node, addr@, shards@, live@));
    r
}

/// What became of an orphan.
#[derive(Debug, Clone, Copy, PartialEq, Eq, Structural)]
pub enum DropOrphanOutcome {
    /// It was gone already.
    Absent,
    /// It was dropped.
    Dropped { dir_removed: bool },
}

/// What became of an orphan: an outcome, or why the drop failed.
pub type DropResult = Result<DropOrphanOutcome, String>;

/// What became of an orphan, as a mathematical value.
pub ghost enum DropView {
    Outcome(DropOrphanOutcome),
    Failed(Seq<char>),
}

/// The drops as mathematical values.
pub open spec fn drop_views(v: Seq<DropResult>) -> Seq<DropView> {
    v.map_values(
        |x: DropResult|
            match x {
                Ok(o) => DropView::Outcome(o),
                Err(m) => DropView::Failed(m@),
            },
    )
}

/// How many of the classes are orphans.
pub open spec fn orphan_count(c: Seq<SlotClass>) -> nat
    decreases c.len(),
{
    if c.len() == 0 {
        0
    } else {
        orphan_count(c.drop_last()) + if c.last() == SlotClass::Orphan {
            1nat
        } else {
            0nat
        }
    }
}

/// The report after one slot; `d` is what became of it if it is an orphan.
pub open spec fn recorded_slot(v: GcView, slot: OrphanSlot, c: SlotClass, d: DropView) -> GcView {
    match c {
        SlotClass::Committed => v,
        SlotClass::Unassigned => GcView {
            skipped_unassigned: v.skipped_unassigned.push(slot),
            ..v
        },
        SlotClass::LiveRouted => GcView { kept_live_routed: v.kept_live_routed.push(slot), ..v },
        SlotClass::Orphan => match d {
            DropView::Failed(m) => GcView { failed: v.failed.push((slot, m)), ..v },
            DropView::Outcome(DropOrphanOutcome::Absent) => v,
            DropView::Outcome(DropOrphanOutcome::Dropped { dir_removed }) => GcView {
                dropped: v.dropped.push(slot),
                pending_disk_cleanup: if dir_removed {
                    v.pending_disk_cleanup
                } else {
                    v.pending_disk_cleanup.push(slot)
                },
                ..v
            },
        },
    }
}

/// The report after the slots of a node; `drops` says what became of its orphans, in order.
pub open spec fn recorded_slots(
    v: GcView,
    node: NodeId,
    shards: Seq<ShardListing>,
    c: Seq<SlotClass>,
    drops: Seq<DropView>,
) -> GcView
    decreases shards.len(),
{
    if shards.len() == 0 {
        v
    } else {
        let before = recorded_slots(v, node, shards.drop_last(), c.drop_last(), drops);
        let x = shards.last();
        recorded_slot(
            before,
            OrphanSlot { node, shard_id: x.shard_id, num_queries: x.num_queries },
            c.last(),
            drops[orphan_count(c.drop_last()) as int],
        )
    }
}

/// The report with the node's unfinished deletions; how many queries they held is not known any
/// more.
pub open spec fn carried_over(v: GcView, node: NodeId, pending: Seq<u32>) -> GcView {
    GcView {
        pending_disk_cleanup: v.pending_disk_cleanup + pending.map_values(
            |id: u32| OrphanSlot { node, shard_id: id, num_queries: 0 },
        ),
        ..v
    }
}

impl GcReport {
    fn carry_over(&mut self, node: NodeId, pending: &Vec<u32>)
        ensures
            final(self)@ == carried_over(old(self)@, node, pending@),
    {
        let ghost start = self@;
        let ghost slot = |id: u32| OrphanSlot { node, shard_id: id, num_queries: 0 };
        let n: usize = pending.len();
        let mut i: usize = 0;
        assert(self@ =~= carried_over(start, node, pending@.take(0)));
        while i < n
            invariant
                n == pending@.len(),
                i <= n,
                self@ == carried_over(start, node, pending@.take(i as int)),
            decreases n - i,
        {
            self.pending_disk_cleanup.push(
                OrphanSlot { node, shard_id: pending[i], num_queries: 0 },
            );
            assert(self@ =~= carried_over(start, node, pending@.take(i + 1)));
            i = i + 1;
        }
        assert(pending@.take(n as int) =~= pending@);
    }

    /// Records the slots of a node that was listed and swept.
    pub fn record_node(
        &mut self,
        node: NodeId,
        listing: &NodeListing,
        classes: &Vec<SlotClass>,
        drops: Vec<DropResult>,
    )
        requires
            classes@.len() == listing.shards@.len(),
            drops@.len() == orphan_count(classes@),
        ensures
            final(self)@ == recorded_slots(
                carried_over(old(self)@, node, listing.pending_disk_cleanup_shards@),
                node,
                listing.shards@,
                classes@,
                drop_views(drops@),
            ),
    {
        self.carry_over(node, &listing.pending_disk_cleanup_shards);
        let ghost start = self@;
        let ghost shards = listing.shards@;
        let ghost c = classes@;
        let ghost dv = drop_views(drops@);
        let n: usize = listing.shards.len();
        let total: usize = drops.len();
        let mut used: usize = 0;
        let mut i: usize = 0;
        proof {
            assert(shards.take(0).len() == 0);
            assert(c.take(0).len() == 0);
        }
        while i < n
            invariant
                n == listing.shards@.len(),
                n == classes@.len(),
                shards == listing.shards@,
                c == classes@,
                dv == drop_views(drops@),
                total == drops@.len(),
                drops@.len() == orphan_count(c),
                i <= n,
                used == orphan_count(c.take(i as int)),
                self@ == recorded_slots(start, node, shards.take(i as int), c.take(i as int), dv),
            decreases n - i,
        {
            let x = listing.shards[i];
            let slot = OrphanSlot { node, shard_id: x.shard_id, num_queries: x.num_queries };
            let ghost before = self@;
            proof {
                assert(shards.take(i + 1).drop_last() =~= shards.take(i as int));
                assert(c.take(i + 1).drop_last() =~= c.take(i as int));
                assert(c.take(i + 1).last() == c[i as int]);
                lemma_orphan_count(c, i + 1);
            }
            match classes[i] {
                SlotClass::Committed => {},
                SlotClass::Unassigned => {
                    self.skipped_unassigned.push(slot);
                },
                SlotClass::LiveRouted => {
                    self.kept_live_routed.push(slot);
                },
                SlotClass::Orphan => {
                    assert(dv[used as int] == match drops@[used as int] {
                        Ok(o) => DropView::Outcome(o),
                        Err(m) => DropView::Failed(m@),
                    });
                    match &drops[used] {
                        Ok(DropOrphanOutcome::Absent) => {},
                        Ok(DropOrphanOutcome::Dropped { dir_removed }) => {
                            self.dropped.push(slot);
                            if !*dir_removed {
                                self.pending_disk_cleanup.push(slot);
                            }
                        },
                        Err(m) => {
                            self.failed.push((slot, m.clone()));
                            assert(self@.failed =~= before.failed.push((slot, m@)));
                        },
                    }
                    used = used + 1;
                },
            }
            proof {
                assert(self@ =~= recorded_slot(
                    before,
                    slot,
                    c[i as int],
                    dv[orphan_count(c.take(i as int)) as int],
                ));
            }
            i = i + 1;
        }
        proof {
            assert(shards.take(n as int) =~= shards);
            assert(c.take(n as int) =~= c);
        }
    }
}

proof fn lemma_orphan_count(c: Seq<SlotClass>, n: int)
    requires
        0 <= n <= c.len(),
    ensures
        orphan_count(c.take(n)) <= orphan_count(c),
    decreases c.len() - n,
{
    if n < c.len() {
        assert(c.take(n + 1).drop_last() =~= c.take(n));
        lemma_orphan_count(c, n + 1);
    } else {
        assert(c.take(n) =~= c);
    }
}

// ---- dropping one orphan ----

/// The call that is due while an orphan is dropped.
#[derive(Debug, Clone, Copy, PartialEq, Eq, Structural)]
pub enum DropCall {
    /// Connect to the slot.
    Connect,
    /// Read the generation that it is fenced at; zero is not fenced.
    Probe,
    /// Read the epoch of the committed state.
    ReadEpoch,
    /// Fence it; the reply is the generation that it is then fenced at.
    Arm { generation: u64 },
    /// Drop it, if it is fenced at exactly this generation.
    Drop { generation: u64 },
    /// Nothing: it has ended.
    Nothing,
}

/// What came back from a call.
#[derive(Debug)]
pub enum DropReply<E> {
    Done,
    At(u64),
    /// Whether the slot was dropped, and whether its directory is gone.
    Dropped { dropped: bool, dir_removed: bool },
    Failed(E),
}

/// How far the drop of an orphan has come.
#[derive(Debug)]
pub enum DropStage<E> {
    Connect,
    Probe,
    ReadEpoch,
    Arm { generation: u64 },
    Drop { generation: u64 },
    Ended(Result<DropOrphanOutcome, E>),
}

/// The call that is due.
pub open spec fn drop_call<E>(s: DropStage<E>) -> DropCall {
    match s {
        DropStage::Connect => DropCall::Connect,
        DropStage::Probe => DropCall::Probe,
        DropStage::ReadEpoch => DropCall::ReadEpoch,
        DropStage::Arm { generation } => DropCall::Arm { generation },
        DropStage::Drop { generation } => DropCall::Drop { generation },
        DropStage::Ended(_) => DropCall::Nothing,
    }
}

/// Whether a reply is one that a call can have.
pub open spec fn drop_answers<E>(call: DropCall, reply: DropReply<E>) -> bool {
    match call {
        DropCall::Connect => reply is Done || reply is Failed,
        DropCall::Drop { .. } => reply is Dropped || reply is Failed,
        DropCall::Nothing => false,
        _ => reply is At || reply is Failed,
    }
}

/// The stage after a reply. A slot that is not fenced, because its node restarted, is fenced first,
/// at the epoch but at no less than one.
pub open spec fn drop_next<E>(s: DropStage<E>, reply: DropReply<E>) -> DropStage<E> {
    match (s, reply) {
        (_, DropReply::Failed(e)) => DropStage::Ended(Err(e)),
        (DropStage::Connect, DropReply::Done) => DropStage::Probe,
        (DropStage::Probe, DropReply::At(g)) => if g == 0 {
            DropStage::ReadEpoch
        } else {
            DropStage::Drop { generation: g }
        },
        (DropStage::ReadEpoch, DropReply::At(epoch)) => DropStage::Arm {
            generation: if epoch < 1 {
                1
            } else {
                epoch
            },
        },
        (DropStage::Arm { .. }, DropReply::At(g)) => DropStage::Drop { generation: g },
        (DropStage::Drop { .. }, DropReply::Dropped { dropped, dir_removed }) => DropStage::Ended(
            Ok(
                if dropped {
                    DropOrphanOutcome::Dropped { dir_removed }
                } else {
                    DropOrphanOutcome::Absent
                },
            ),
        ),
        _ => s,
    }
}

impl<E> DropStage<E> {
    /// The call that is due.
    pub fn call(&self) -> (r: DropCall)
        ensures
            r == drop_call(*self),
    {
        match self {
            DropStage::Connect => DropCall::Connect,
            DropStage::Probe => DropCall::Probe,
            DropStage::ReadEpoch => DropCall::ReadEpoch,
            DropStage::Arm { generation } => DropCall::Arm { generation: *generation },
            DropStage::Drop { generation } => DropCall::Drop { generation: *generation },
            DropStage::Ended(_) => DropCall::Nothing,
        }
    }

    /// Takes the reply to the call that was due.
    pub fn next(self, reply: DropReply<E>) -> (r: Self)
        requires
            drop_answers(drop_call(self), reply),
        ensures
            r == drop_next(self, reply),
    {
        match reply {
            DropReply::Failed(e) => DropStage::Ended(Err(e)),
            DropReply::Done => match self {
                DropStage::Connect => DropStage::Probe,
                other => other,
            },
            DropReply::At(g) => match self {
                DropStage::Probe => {
                    if g == 0 {
                        DropStage::ReadEpoch
                    } else {
                        DropStage::Drop { generation: g }
                    }
                },
                DropStage::ReadEpoch => {
                    let generation: u64 = if g < 1 {
                        1
                    } else {
                        g
                    };
                    DropStage::Arm { generation }
                },
                DropStage::Arm { .. } => DropStage::Drop { generation: g },
                other => other,
            },
            DropReply::Dropped { dropped, dir_removed } => match self {
                DropStage::Drop { .. } => {
                    if dropped {
                        DropStage::Ended(Ok(DropOrphanOutcome::Dropped { dir_removed }))
                    } else {
                        DropStage::Ended(Ok(DropOrphanOutcome::Absent))
                    }
                },
                other => other,
            },
        }
    }
}

/// What the operator is told when a directory could not be deleted yet.
pub fn incomplete_delete_detail(shard_id: u32, addr: &str) -> (r: String)
    ensures
        r@ == "orphan-slot GC dropped shard "@ + decimal(shard_id as nat) + " on "@ + addr@
            + " but the dir delete was incomplete (trash-renamed); a later sweep or node restart retries it"@,
{
    let mut m = with_number("orphan-slot GC dropped shard ", shard_id as u64, " on ");
    m.append(addr);
    m.append(
        " but the dir delete was incomplete (trash-renamed); a later sweep or node restart retries it",
    );
    m
}

// ---- laws ----

/// A slot that the committed map places on its node, that it does not know, or that live routing
/// reaches under any spelling, is never an orphan.
pub proof fn law_needed_slots_are_never_orphans(
    s: StateView,
    node: NodeId,
    addr: Seq<char>,
    shard_id: u32,
    live: Seq<Seq<char>>,
)
    requires
        ({
            ||| entry(s.assignments, shard_id) is None
            ||| (entry(s.assignments, shard_id) matches Some(a) && (a.primary == node
                || a.replicas.contains(node)))
            ||| exists|i: int|
                0 <= i < live.len() && normalized_spec(#[trigger] live[i]) == normalized_spec(addr)
        }),
    ensures
        slot_class(s, node, addr, shard_id, live) != SlotClass::Orphan,
{
}

/// A sweep reports a slot as dropped only if it was an orphan and the drop went through.
pub proof fn law_only_orphans_are_reported_dropped(
    v: GcView,
    node: NodeId,
    shards: Seq<ShardListing>,
    c: Seq<SlotClass>,
    drops: Seq<DropView>,
    slot: OrphanSlot,
)
    requires
        shards.len() == c.len(),
        recorded_slots(v, node, shards, c, drops).dropped.contains(slot),
        !v.dropped.contains(slot),
    ensures
        exists|i: int|
            #![trigger shards[i]]
            0 <= i < shards.len() && c[i] == SlotClass::Orphan && slot == (OrphanSlot {
                node,
                shard_id: shards[i].shard_id,
                num_queries: shards[i].num_queries,
            }),
    decreases shards.len(),
{
    if shards.len() > 0 {
        let d = shards.drop_last();
        let cd = c.drop_last();
        let before = recorded_slots(v, node, d, cd, drops);
        let after = recorded_slots(v, node, shards, c, drops);
        if before.dropped.contains(slot) {
            law_only_orphans_are_reported_dropped(v, node, d, cd, drops, slot);
            let i = choose|i: int|
                #![trigger d[i]]
                0 <= i < d.len() && cd[i] == SlotClass::Orphan && slot == (OrphanSlot {
                    node,
                    shard_id: d[i].shard_id,
                    num_queries: d[i].num_queries,
                });
            assert(shards[i] == d[i] && c[i] == cd[i]);
        } else {
            let k = choose|k: int| 0 <= k < after.dropped.len() && after.dropped[k] == slot;
            if k < before.dropped.len() {
                assert(before.dropped[k] == slot);
            }
            let last = shards.len() - 1;
            assert(shards[last] == shards.last() && c[last] == c.last());
        }
    }
}

/// The drop of an orphan is always at a generation that the slot is fenced at: the one that was
/// probed, or the one that arming gave.
pub proof fn law_drop_is_at_the_fenced_generation<E>(s: DropStage<E>, reply: DropReply<E>)
    requires
        drop_answers(drop_call(s), reply),
        drop_next(s, reply) is Drop,
    ensures
        reply matches DropReply::At(g) && drop_next(s, reply)->Drop_generation == g,
        s is Probe || s is Arm,
{
}

/// What a hosted slot is, and only that. Unassigned is a slot whose position has no entry at all;
/// committed, one whose entry names the node; live-routed, one whose entry does not, while an
/// endpoint of live routing is the node's under some spelling; and every other slot is an orphan,
/// whoever else holds the position.
pub proof fn law_what_is_not_needed_is_an_orphan(
    s: StateView,
    node: NodeId,
    addr: Seq<char>,
    shard_id: u32,
    live: Seq<Seq<char>>,
)
    ensures
        ({
            let c = slot_class(s, node, addr, shard_id, live);
            let routed = exists|i: int|
                0 <= i < live.len() && normalized_spec(#[trigger] live[i]) == normalized_spec(addr);
            &&& c == SlotClass::Unassigned <==> forall|k: int|
                0 <= k < s.assignments.len() ==> (#[trigger] s.assignments[k]).position != shard_id
            &&& entry(s.assignments, shard_id) matches Some(a) ==> {
                let named = a.primary == node || exists|k: int|
                    0 <= k < a.replicas.len() && #[trigger] a.replicas[k] == node;
                &&& c == SlotClass::Committed <==> named
                &&& c == SlotClass::LiveRouted <==> !named && routed
                &&& c == SlotClass::Orphan <==> !named && !routed
            }
        }),
{
    crate::seqs::lemma_find(s.assignments, crate::allocator::at_position(shard_id));
    if let Some(a) = entry(s.assignments, shard_id) {
        if a.replicas.contains(node) {
            let k = choose|k: int| 0 <= k < a.replicas.len() && a.replicas[k] == node;
            assert(a.replicas[k] == node);
        }
    } else {
        assert forall|k: int| 0 <= k < s.assignments.len() implies (
        #[trigger] s.assignments[k]).position != shard_id by {
            assert(!crate::allocator::at_position(shard_id)(s.assignments[k]));
        }
    }
}

/// A sweep asks every data node that has an address, at that address, and names every data node
/// that has none; it asks and names no other.
pub proof fn law_every_data_node_is_asked_or_named(nodes: Seq<NodeView>, id: NodeId, addr: Seq<char>)
    ensures
        reachable(nodes).contains((id, addr)) <==> exists|i: int|
            0 <= i < nodes.len() && (#[trigger] nodes[i]).id == id && nodes[i].role
                == NodeRole::Data && nodes[i].addr == Some(addr),
        unreachable_nodes(nodes).contains(id) <==> exists|i: int|
            0 <= i < nodes.len() && (#[trigger] nodes[i]).id == id && nodes[i].role
                == NodeRole::Data && nodes[i].addr is None,
{
    let yes = |n: NodeView| n.role == NodeRole::Data && n.addr is Some;
    let no = |n: NodeView| n.role == NodeRole::Data && n.addr is None;
    crate::seqs::lemma_filter_members(nodes, yes);
    crate::seqs::lemma_filter_members(nodes, no);
    let fy = nodes.filter(yes);
    let fn_ = nodes.filter(no);
    let r = reachable(nodes);
    let u = unreachable_nodes(nodes);
    if r.contains((id, addr)) {
        let k = choose|k: int| 0 <= k < r.len() && r[k] == (id, addr);
        assert(fy.contains(fy[k]));
        let i = choose|i: int| 0 <= i < nodes.len() && nodes[i] == fy[k];
        assert(nodes[i].id == id);
    }
    if exists|i: int|
        0 <= i < nodes.len() && (#[trigger] nodes[i]).id == id && nodes[i].role == NodeRole::Data
            && nodes[i].addr == Some(addr) {
        let i = choose|i: int|
            0 <= i < nodes.len() && (#[trigger] nodes[i]).id == id && nodes[i].role
                == NodeRole::Data && nodes[i].addr == Some(addr);
        assert(nodes.contains(nodes[i]));
        assert(fy.contains(nodes[i]));
        let k = choose|k: int| 0 <= k < fy.len() && fy[k] == nodes[i];
        assert(r[k] == (id, addr));
    }
    if u.contains(id) {
        let k = choose|k: int| 0 <= k < u.len() && u[k] == id;
        assert(fn_.contains(fn_[k]));
        let i = choose|i: int| 0 <= i < nodes.len() && nodes[i] == fn_[k];
        assert(nodes[i].id == id);
    }
    if exists|i: int|
        0 <= i < nodes.len() && (#[trigger] nodes[i]).id == id && nodes[i].role == NodeRole::Data
            && nodes[i].addr is None {
        let i = choose|i: int|
            0 <= i < nodes.len() && (#[trigger] nodes[i]).id == id && nodes[i].role
                == NodeRole::Data && nodes[i].addr is None;
        assert(nodes.contains(nodes[i]));
        assert(fn_.contains(nodes[i]));
        let k = choose|k: int| 0 <= k < fn_.len() && fn_[k] == nodes[i];
        assert(u[k] == id);
    }
}

/// A listing is used exactly if the node speaks the protocol and has both dictionaries.
pub proof fn law_only_agreeing_nodes_are_classified(
    listing: NodeListing,
    protocol: u32,
    dict_fingerprint: u64,
    tag_dict_fingerprint: u64,
)
    ensures
        listing_refusal(listing, protocol, dict_fingerprint, tag_dict_fingerprint) is None <==> (
        listing.gc_protocol_version == protocol && listing.dict_fingerprint == dict_fingerprint
            && listing.tag_dict_fingerprint == tag_dict_fingerprint),
{
}

/// Every slot of a node is classified by itself, against what live routing has for its own
/// position.
pub proof fn law_each_slot_is_classified_by_its_position(
    s: StateView,
    node: NodeId,
    addr: Seq<char>,
    shards: Seq<ShardListing>,
    live: Seq<Vec<String>>,
    i: int,
)
    requires
        0 <= i < shards.len(),
    ensures
        classes(s, node, addr, shards, live).len() == shards.len(),
        shards[i].shard_id < live.len() ==> classes(s, node, addr, shards, live)[i] == slot_class(
            s,
            node,
            addr,
            shards[i].shard_id,
            texts(live[shards[i].shard_id as int]@),
        ),
        shards[i].shard_id >= live.len() ==> classes(s, node, addr, shards, live)[i] == slot_class(
            s,
            node,
            addr,
            shards[i].shard_id,
            Seq::empty(),
        ),
{
}

/// A slot as a report names it.
pub open spec fn slot_of(node: NodeId, x: ShardListing) -> OrphanSlot {
    OrphanSlot { node, shard_id: x.shard_id, num_queries: x.num_queries }
}

proof fn lemma_report_grows(
    v: GcView,
    node: NodeId,
    shards: Seq<ShardListing>,
    c: Seq<SlotClass>,
    drops: Seq<DropView>,
)
    requires
        shards.len() == c.len(),
        shards.len() > 0,
    ensures
        ({
            let b = recorded_slots(v, node, shards.drop_last(), c.drop_last(), drops);
            let r = recorded_slots(v, node, shards, c, drops);
            &&& forall|x: OrphanSlot| #[trigger] b.dropped.contains(x) ==> r.dropped.contains(x)
            &&& forall|x: OrphanSlot| #[trigger]
                b.pending_disk_cleanup.contains(x) ==> r.pending_disk_cleanup.contains(x)
            &&& forall|x: OrphanSlot| #[trigger]
                b.kept_live_routed.contains(x) ==> r.kept_live_routed.contains(x)
            &&& forall|x: OrphanSlot| #[trigger]
                b.skipped_unassigned.contains(x) ==> r.skipped_unassigned.contains(x)
            &&& forall|x: (OrphanSlot, Seq<char>)| #[trigger]
                b.failed.contains(x) ==> r.failed.contains(x)
        }),
{
    let b = recorded_slots(v, node, shards.drop_last(), c.drop_last(), drops);
    let r = recorded_slots(v, node, shards, c, drops);
    lemma_push_contains(b.dropped, r.dropped);
    lemma_push_contains(b.pending_disk_cleanup, r.pending_disk_cleanup);
    lemma_push_contains(b.kept_live_routed, r.kept_live_routed);
    lemma_push_contains(b.skipped_unassigned, r.skipped_unassigned);
    lemma_push_contains(b.failed, r.failed);
}

proof fn lemma_push_contains<A>(b: Seq<A>, r: Seq<A>)
    requires
        r == b || exists|x: A| r == #[trigger] b.push(x),
    ensures
        forall|x: A| #[trigger] b.contains(x) ==> r.contains(x),
{
    assert forall|x: A| #[trigger] b.contains(x) implies r.contains(x) by {
        let i = choose|i: int| 0 <= i < b.len() && b[i] == x;
        assert(r[i] == x);
    }
}

/// Nothing that a sweep found is left out of its report: each slot that is not committed stands
/// where it belongs. One without an entry is skipped, one that is routed is kept, and an orphan is
/// dropped, dropped with its directory pending, or failed with its reason, by what became of the
/// drop that is its own.
pub proof fn law_every_slot_is_reported(
    v: GcView,
    node: NodeId,
    shards: Seq<ShardListing>,
    c: Seq<SlotClass>,
    drops: Seq<DropView>,
    i: int,
)
    requires
        shards.len() == c.len(),
        0 <= i < shards.len(),
    ensures
        ({
            let r = recorded_slots(v, node, shards, c, drops);
            let slot = slot_of(node, shards[i]);
            let d = drops[orphan_count(c.take(i)) as int];
            match c[i] {
                SlotClass::Committed => true,
                SlotClass::Unassigned => r.skipped_unassigned.contains(slot),
                SlotClass::LiveRouted => r.kept_live_routed.contains(slot),
                SlotClass::Orphan => match d {
                    DropView::Failed(m) => r.failed.contains((slot, m)),
                    DropView::Outcome(DropOrphanOutcome::Absent) => true,
                    DropView::Outcome(DropOrphanOutcome::Dropped { dir_removed }) => {
                        &&& r.dropped.contains(slot)
                        &&& !dir_removed ==> r.pending_disk_cleanup.contains(slot)
                    },
                },
            }
        }),
    decreases shards.len(),
{
    let b = recorded_slots(v, node, shards.drop_last(), c.drop_last(), drops);
    let r = recorded_slots(v, node, shards, c, drops);
    let n = shards.len() - 1;
    lemma_report_grows(v, node, shards, c, drops);
    if i < n {
        law_every_slot_is_reported(v, node, shards.drop_last(), c.drop_last(), drops, i);
        assert(c.drop_last().take(i) =~= c.take(i));
    } else {
        assert(c.take(i) =~= c.drop_last());
        let slot = slot_of(node, shards[i]);
        let d = drops[orphan_count(c.take(i)) as int];
        match c[i] {
            SlotClass::Committed => {},
            SlotClass::Unassigned => {
                assert(r.skipped_unassigned.last() == slot);
            },
            SlotClass::LiveRouted => {
                assert(r.kept_live_routed.last() == slot);
            },
            SlotClass::Orphan => match d {
                DropView::Failed(m) => {
                    assert(r.failed.last() == (slot, m));
                },
                DropView::Outcome(DropOrphanOutcome::Absent) => {},
                DropView::Outcome(DropOrphanOutcome::Dropped { dir_removed }) => {
                    assert(r.dropped.last() == slot);
                    if !dir_removed {
                        assert(r.pending_disk_cleanup.last() == slot);
                    }
                },
            },
        }
    }
}

/// How many slots have a class.
pub open spec fn class_count(c: Seq<SlotClass>, x: SlotClass) -> nat {
    c.filter(|y: SlotClass| y == x).len()
}

/// Nothing is reported twice or made up: the lists grow by as many slots as there are of each kind.
pub proof fn law_a_report_counts_every_slot_once(
    v: GcView,
    node: NodeId,
    shards: Seq<ShardListing>,
    c: Seq<SlotClass>,
    drops: Seq<DropView>,
)
    requires
        shards.len() == c.len(),
    ensures
        ({
            let r = recorded_slots(v, node, shards, c, drops);
            &&& r.skipped_unassigned.len() == v.skipped_unassigned.len() + class_count(
                c,
                SlotClass::Unassigned,
            )
            &&& r.kept_live_routed.len() == v.kept_live_routed.len() + class_count(
                c,
                SlotClass::LiveRouted,
            )
            &&& r.dropped.len() + r.failed.len() <= v.dropped.len() + v.failed.len() + class_count(
                c,
                SlotClass::Orphan,
            )
            &&& r.pending_disk_cleanup.len() + v.dropped.len() <= v.pending_disk_cleanup.len()
                + r.dropped.len()
            &&& r.skipped_nodes == v.skipped_nodes
            &&& orphan_count(c) == class_count(c, SlotClass::Orphan)
        }),
    decreases shards.len(),
{
    reveal(Seq::filter);
    if shards.len() > 0 {
        law_a_report_counts_every_slot_once(v, node, shards.drop_last(), c.drop_last(), drops);
    }
}

/// An unfinished deletion that a node still lists is reported as pending, with its node.
pub proof fn law_unfinished_deletions_stay_pending(v: GcView, node: NodeId, pending: Seq<u32>, i: int)
    requires
        0 <= i < pending.len(),
    ensures
        carried_over(v, node, pending).pending_disk_cleanup.contains(
            OrphanSlot { node, shard_id: pending[i], num_queries: 0 },
        ),
        carried_over(v, node, pending).pending_disk_cleanup.len() == v.pending_disk_cleanup.len()
            + pending.len(),
        carried_over(v, node, pending) == (GcView {
            pending_disk_cleanup: carried_over(v, node, pending).pending_disk_cleanup,
            ..v
        }),
{
    let r = carried_over(v, node, pending).pending_disk_cleanup;
    assert(r[v.pending_disk_cleanup.len() + i] == (OrphanSlot {
        node,
        shard_id: pending[i],
        num_queries: 0,
    }));
}

/// A slot that is fenced is dropped at that fence; one that is not is fenced first, at the epoch of
/// the committed state, which counts as one where it is zero. It is dropped if and only if the node
/// says so, and any failure ends the attempt with that failure.
pub proof fn law_an_unfenced_slot_is_fenced_before_it_is_dropped<E>(
    g: u64,
    epoch: u64,
    dir_removed: bool,
    s: DropStage<E>,
    e: E,
)
    ensures
        g > 0 ==> drop_call(drop_next(DropStage::<E>::Probe, DropReply::At(g))) == (DropCall::Drop {
            generation: g,
        }),
        drop_call(drop_next(DropStage::<E>::Probe, DropReply::At(0))) == DropCall::ReadEpoch,
        epoch > 0 ==> drop_call(drop_next(DropStage::<E>::ReadEpoch, DropReply::At(epoch))) == (
        DropCall::Arm { generation: epoch }),
        drop_call(drop_next(DropStage::<E>::ReadEpoch, DropReply::At(0))) == (DropCall::Arm {
            generation: 1,
        }),
        drop_call(drop_next(DropStage::<E>::Arm { generation: epoch }, DropReply::At(g))) == (
        DropCall::Drop { generation: g }),
        drop_next(
            DropStage::<E>::Drop { generation: g },
            DropReply::Dropped { dropped: true, dir_removed },
        ) == DropStage::<E>::Ended(Ok(DropOrphanOutcome::Dropped { dir_removed })),
        drop_next(
            DropStage::<E>::Drop { generation: g },
            DropReply::Dropped { dropped: false, dir_removed },
        ) == DropStage::<E>::Ended(Ok(DropOrphanOutcome::Absent)),
        drop_next(s, DropReply::Failed(e)) == DropStage::<E>::Ended(Err(e)),
{
}

} // verus!
