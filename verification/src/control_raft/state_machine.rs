//! The state machine that committed entries drive: the cluster-state document, by the same
//! transition as every other backend.
use crate::control::{
    applicable, apply, committed, revoted, voter_set, ChangeView, ClusterState, ClusterStateChange,
    NodeId, StateView,
};
use crate::control_laws::replayed;
use crate::control_raft::log_store::LogId;
use crate::order::sort_dedup;
use crate::text::{decimal, push_decimal};
use vstd::prelude::*;

verus! {

/// What a committed proposal answers: the version of the document after it.
#[derive(Clone, Copy, Debug, Default, PartialEq, Eq, Structural)]
pub struct ClusterStateResponse {
    pub version: u64,
}

/// What a log entry carries.
pub enum RaftPayload<M> {
    /// The marker of a new leader.
    Blank,
    /// A change of the document.
    Normal(ClusterStateChange),
    /// A change of the members: who votes, and the members as the consensus engine keeps them.
    Membership { voters: Vec<NodeId>, stored: M },
}

/// What a log entry does to the document.
pub ghost enum EntryEffect {
    Blank,
    Normal(ChangeView),
    Membership(Seq<NodeId>),
}

impl<M> RaftPayload<M> {
    /// What the entry does to the document. The members as the consensus engine keeps them are no
    /// part of it.
    pub open spec fn effect(self) -> EntryEffect {
        match self {
            RaftPayload::Blank => EntryEffect::Blank,
            RaftPayload::Normal(change) => EntryEffect::Normal(change@),
            RaftPayload::Membership { voters, stored: _ } => EntryEffect::Membership(voters@),
        }
    }
}

/// The document after an entry.
pub open spec fn entry_applied(s: StateView, p: EntryEffect) -> StateView {
    match p {
        EntryEffect::Blank => s,
        EntryEffect::Normal(change) => committed(s, change),
        EntryEffect::Membership(voters) => revoted(s, voters),
    }
}

/// The counters of the document have room for the entry.
pub open spec fn entry_applicable(s: StateView, p: EntryEffect) -> bool {
    match p {
        EntryEffect::Blank => true,
        EntryEffect::Normal(change) => s.epoch < u64::MAX && applicable(s, change),
        EntryEffect::Membership(_) => s.epoch < u64::MAX,
    }
}

/// The document after a run of entries.
pub open spec fn entries_applied(s: StateView, entries: Seq<EntryEffect>) -> StateView
    decreases entries.len(),
{
    if entries.len() == 0 {
        s
    } else {
        entry_applied(entries_applied(s, entries.drop_last()), entries.last())
    }
}

/// The name of a snapshot: the index of the last entry it covers, and a running number.
pub open spec fn snapshot_id(last_applied: Option<LogId>, number: nat) -> Seq<char> {
    match last_applied {
        Some(id) => decimal(id.index as nat) + "-"@ + decimal(number),
        None => "none-"@ + decimal(number),
    }
}

/// The state machine of one node. `M` is the consensus engine's own record of the members.
pub struct RaftState<M> {
    state: ClusterState,
    last_applied: Option<LogId>,
    last_membership: M,
    snapshots: u64,
}

impl<M> RaftState<M> {
    /// The document.
    pub closed spec fn document(self) -> StateView {
        self.state@
    }

    /// The last entry applied.
    pub closed spec fn applied_up_to(self) -> Option<LogId> {
        self.last_applied
    }

    /// The members as the consensus engine keeps them.
    pub closed spec fn members(self) -> M {
        self.last_membership
    }

    /// How many snapshots were built.
    pub closed spec fn built(self) -> u64 {
        self.snapshots
    }

    /// A state machine that starts from `genesis`.
    pub fn in_memory(genesis: ClusterState, members: M) -> (r: Self)
        ensures
            r.document() == genesis@,
            r.applied_up_to() is None,
            r.members() == members,
            r.built() == 0,
    {
        RaftState { state: genesis, last_applied: None, last_membership: members, snapshots: 0 }
    }

    /// The state machine of a node that starts again: from its snapshot where it kept one, else
    /// from `genesis`.
    pub fn open(
        snapshot: Option<(ClusterState, Option<LogId>, M)>,
        genesis: ClusterState,
        members: M,
    ) -> (r: Self)
        ensures
            r.built() == 0,
            match snapshot {
                Some((state, last, kept)) => r.document() == state@ && r.applied_up_to() == last
                    && r.members() == kept,
                None => r.document() == genesis@ && r.applied_up_to() is None && r.members()
                    == members,
            },
    {
        match snapshot {
            Some((state, last, kept)) => RaftState {
                state,
                last_applied: last,
                last_membership: kept,
                snapshots: 0,
            },
            None => RaftState::in_memory(genesis, members),
        }
    }

    /// Applies one committed entry.
    pub fn apply(&mut self, id: LogId, payload: RaftPayload<M>) -> (r: ClusterStateResponse)
        requires
            entry_applicable(old(self).document(), payload.effect()),
        ensures
            final(self).document() == entry_applied(old(self).document(), payload.effect()),
            final(self).applied_up_to() == Some(id),
            final(self).members() == (match payload {
                RaftPayload::Membership { voters: _, stored } => stored,
                _ => old(self).members(),
            }),
            final(self).built() == old(self).built(),
            r.version == final(self).document().epoch,
    {
        self.last_applied = Some(id);
        match payload {
            RaftPayload::Blank => {},
            RaftPayload::Normal(change) => {
                apply(&mut self.state, change);
                self.state.epoch = self.state.epoch + 1;
            },
            RaftPayload::Membership { voters, stored } => {
                self.state.voters = sort_dedup(&voters);
                self.last_membership = stored;
                self.state.epoch = self.state.epoch + 1;
            },
        }
        ClusterStateResponse { version: self.state.epoch }
    }

    /// Whether an entry can be applied: whether the counters have room for it.
    pub fn has_room(&self, payload: &RaftPayload<M>) -> (r: bool)
        ensures
            r == entry_applicable(self.document(), payload.effect()),
    {
        match payload {
            RaftPayload::Blank => true,
            RaftPayload::Normal(change) => {
                let model = match change {
                    ClusterStateChange::BumpModelVersion { .. } => self.state.model_version
                        < u64::MAX,
                    _ => true,
                };
                self.state.epoch < u64::MAX && model
            },
            RaftPayload::Membership { .. } => self.state.epoch < u64::MAX,
        }
    }

    /// Names the next snapshot, which covers the entries up to the last applied.
    pub fn build_snapshot(&mut self) -> (r: (Option<LogId>, String))
        requires
            old(self).built() < u64::MAX,
        ensures
            r.0 == old(self).applied_up_to(),
            r.1@ == snapshot_id(old(self).applied_up_to(), (old(self).built() + 1) as nat),
            final(self).document() == old(self).document(),
            final(self).applied_up_to() == old(self).applied_up_to(),
            final(self).members() == old(self).members(),
            final(self).built() == old(self).built() + 1,
    {
        self.snapshots = self.snapshots + 1;
        let mut name = String::new();
        match self.last_applied {
            Some(id) => {
                push_decimal(&mut name, id.index);
                name.append("-");
            },
            None => {
                name.append("none-");
            },
        }
        push_decimal(&mut name, self.snapshots);
        assert(name@ =~= snapshot_id(self.last_applied, self.snapshots as nat));
        (self.last_applied, name)
    }

    /// Takes a snapshot in place of what was applied.
    pub fn install_snapshot(&mut self, state: ClusterState, last: Option<LogId>, members: M)
        ensures
            final(self).document() == state@,
            final(self).applied_up_to() == last,
            final(self).members() == members,
            final(self).built() == old(self).built(),
    {
        self.state = state;
        self.last_applied = last;
        self.last_membership = members;
    }

    /// The last entry applied and the members.
    pub fn applied_state(&self) -> (r: (Option<LogId>, &M))
        ensures
            r.0 == self.applied_up_to(),
            *r.1 == self.members(),
    {
        (self.last_applied, &self.last_membership)
    }

    /// The document, without asking whether this node still leads.
    pub fn local_state(&self) -> (r: ClusterState)
        ensures
            r@ == self.document(),
    {
        self.state.duplicate()
    }
}

/// Every entry is a change of the document.
pub open spec fn changes_only(changes: Seq<ChangeView>) -> Seq<EntryEffect> {
    changes.map_values(|c: ChangeView| EntryEffect::Normal(c))
}

/// Replicated changes give the document that the same changes give when each is committed at once.
pub proof fn law_replicated_as_committed_at_once(s: StateView, changes: Seq<ChangeView>)
    ensures
        entries_applied(s, changes_only(changes)) == replayed(s, changes),
    decreases changes.len(),
{
    if changes.len() > 0 {
        law_replicated_as_committed_at_once(s, changes.drop_last());
        assert(changes_only(changes).drop_last() =~= changes_only(changes.drop_last()));
    }
}

/// The marker of a new leader changes nothing and does not advance the version.
pub proof fn law_leader_change_is_invisible(s: StateView, before: Seq<EntryEffect>)
    ensures
        entries_applied(s, before.push(EntryEffect::Blank)) == entries_applied(s, before),
{
    assert(before.push(EntryEffect::Blank).drop_last() =~= before);
}

/// A snapshot and the entries after it give the document that all the entries give.
pub proof fn law_snapshot_and_tail(s: StateView, covered: Seq<EntryEffect>, tail: Seq<EntryEffect>)
    ensures
        entries_applied(entries_applied(s, covered), tail) == entries_applied(s, covered + tail),
    decreases tail.len(),
{
    if tail.len() == 0 {
        assert(covered + tail =~= covered);
    } else {
        law_snapshot_and_tail(s, covered, tail.drop_last());
        assert((covered + tail).drop_last() =~= covered + tail.drop_last());
    }
}

/// A change of the members sets the voters, sorted and none twice, and nothing else but the
/// version.
pub proof fn law_membership_sets_the_voters(s: StateView, voters: Seq<NodeId>)
    ensures
        entry_applied(s, EntryEffect::Membership(voters)) == (StateView {
            voters: voter_set(voters),
            epoch: (s.epoch + 1) as u64,
            ..s
        }),
{
}

/// An entry of the log does to the document what it says: nothing, the change it carries, or a
/// change of the voters; and the version advances by one, except for the marker of a new leader.
pub proof fn law_an_entry_does_what_it_says(s: StateView, p: EntryEffect)
    requires
        entry_applicable(s, p),
    ensures
        p is Blank ==> entry_applied(s, p) == s,
        !(p is Blank) ==> entry_applied(s, p).epoch == s.epoch + 1,
        p matches EntryEffect::Normal(c) ==> entry_applied(s, p) == committed(s, c),
        p is Membership ==> entry_applied(s, p).nodes == s.nodes && entry_applied(s, p).assignments
            == s.assignments && entry_applied(s, p).placement_generation == s.placement_generation
            && entry_applied(s, p).model_version == s.model_version,
{
}

/// A snapshot's name tells the index of the last entry it covers and its number.
pub proof fn law_a_snapshot_is_named_by_what_it_covers(last: Option<LogId>, number: nat)
    ensures
        last matches Some(id) ==> snapshot_id(last, number) == decimal(id.index as nat) + "-"@
            + decimal(number),
        last is None ==> snapshot_id(last, number) == "none-"@ + decimal(number),
{
}

} // verus!
