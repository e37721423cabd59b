//! The state that a manager node must not lose: its vote, the last committed entry and the last
//! purged one, each in a file of its own as JSON.
use crate::control::{ControlError, ControlErrorView};
use crate::control_raft::fault::backend_error;
use crate::control_raft::log_store::LogId;
use crate::text::decimal;
use vstd::prelude::*;
use vstd::utf8::encode_utf8;

verus! {

/// A vote: the leader it was given to, and whether a quorum granted it.
#[derive(Clone, Copy, Debug, PartialEq, Eq, Structural)]
pub struct RaftVote {
    pub term: u64,
    pub node: u64,
    pub committed: bool,
}

/// The JSON of a leader's id.
pub open spec fn leader_json(term: u64, node: u64) -> Seq<char> {
    "{\"term\":"@ + decimal(term as nat) + ",\"node_id\":"@ + decimal(node as nat) + "}"@
}

/// The JSON of a vote.
pub open spec fn vote_json(v: RaftVote) -> Seq<char> {
    "{\"leader_id\":"@ + leader_json(v.term, v.node) + ",\"committed\":"@ + (if v.committed {
        "true"@
    } else {
        "false"@
    }) + "}"@
}

/// The JSON of a log id, or of its absence.
pub open spec fn log_id_json(id: Option<LogId>) -> Seq<char> {
    match id {
        Some(id) => "{\"leader_id\":"@ + leader_json(id.term, id.node) + ",\"index\":"@ + decimal(
            id.index as nat,
        ) + "}"@,
        None => "null"@,
    }
}

/// What `serde_json::from_slice` reads as an `openraft::Vote<u64>`: the term, the node and whether
/// it is committed, or the message of the error.
pub uninterp spec fn vote_read(json: Seq<u8>) -> Result<(u64, u64, bool), Seq<char>>;

/// What `serde_json::from_slice` reads as an `openraft::LogId<u64>`: the term, the node and the
/// index, or the message of the error.
pub uninterp spec fn log_id_read(json: Seq<u8>) -> Result<(u64, u64, u64), Seq<char>>;

/// What `serde_json::from_slice` reads as an `Option<openraft::LogId<u64>>`.
pub uninterp spec fn committed_read(json: Seq<u8>) -> Result<Option<(u64, u64, u64)>, Seq<char>>;

/// Calls `serde_json::to_vec` on an `openraft::Vote<u64>`. Both derive their JSON from their
/// fields, which are numbers and a flag, so the call succeeds, gives the fields in order without
/// blanks, and what it gives is read back as the same vote.
#[verifier::external_body]
fn write_vote_json(v: RaftVote) -> (r: Result<Vec<u8>, String>)
    ensures
        match r {
            Ok(b) => b@ == encode_utf8(vote_json(v)) && vote_read(b@) == Ok::<
                (u64, u64, bool),
                Seq<char>,
            >((v.term, v.node, v.committed)),
            Err(_) => false,
        },
{
    let leader_id = openraft::LeaderId::new(v.term, v.node);
    let vote: openraft::Vote<u64> = openraft::Vote { leader_id, committed: v.committed };
    serde_json::to_vec(&vote).map_err(|e| e.to_string())
}

/// Calls `serde_json::to_vec` on an `Option<openraft::LogId<u64>>`. It holds numbers alone, so the
/// call succeeds and gives the fields in order without blanks, or `null`; what it gives is read
/// back as the same, and where there is an id also as the id itself.
#[verifier::external_body]
fn write_log_id_json(id: Option<LogId>) -> (r: Result<Vec<u8>, String>)
    ensures
        match r {
            Ok(b) => b@ == encode_utf8(log_id_json(id)) && match id {
                Some(id) => committed_read(b@) == Ok::<Option<(u64, u64, u64)>, Seq<char>>(
                    Some((id.term, id.node, id.index)),
                ) && log_id_read(b@) == Ok::<(u64, u64, u64), Seq<char>>(
                    (id.term, id.node, id.index),
                ),
                None => committed_read(b@) == Ok::<Option<(u64, u64, u64)>, Seq<char>>(None),
            },
            Err(_) => false,
        },
{
    let id: Option<openraft::LogId<u64>> = id.map(
        |i| openraft::LogId::new(openraft::CommittedLeaderId::new(i.term, i.node), i.index),
    );
    serde_json::to_vec(&id).map_err(|e| e.to_string())
}

/// Calls `serde_json::from_slice` for an `openraft::Vote<u64>`.
#[verifier::external_body]
fn read_vote_json(json: &Vec<u8>) -> (r: Result<(u64, u64, bool), String>)
    ensures
        match r {
            Ok(v) => vote_read(json@) == Ok::<(u64, u64, bool), Seq<char>>(v),
            Err(e) => vote_read(json@) == Err::<(u64, u64, bool), Seq<char>>(e@),
        },
{
    let read: Result<openraft::Vote<u64>, serde_json::Error> = serde_json::from_slice(json);
    match read {
        Ok(v) => Ok((v.leader_id.term, v.leader_id.node_id, v.committed)),
        Err(e) => Err(e.to_string()),
    }
}

/// Calls `serde_json::from_slice` for an `openraft::LogId<u64>`.
#[verifier::external_body]
fn read_log_id_json(json: &Vec<u8>) -> (r: Result<(u64, u64, u64), String>)
    ensures
        match r {
            Ok(v) => log_id_read(json@) == Ok::<(u64, u64, u64), Seq<char>>(v),
            Err(e) => log_id_read(json@) == Err::<(u64, u64, u64), Seq<char>>(e@),
        },
{
    let read: Result<openraft::LogId<u64>, serde_json::Error> = serde_json::from_slice(json);
    match read {
        Ok(i) => Ok((i.leader_id.term, i.leader_id.node_id, i.index)),
        Err(e) => Err(e.to_string()),
    }
}

/// Calls `serde_json::from_slice` for an `Option<openraft::LogId<u64>>`.
#[verifier::external_body]
fn read_committed_json(json: &Vec<u8>) -> (r: Result<Option<(u64, u64, u64)>, String>)
    ensures
        match r {
            Ok(v) => committed_read(json@) == Ok::<Option<(u64, u64, u64)>, Seq<char>>(v),
            Err(e) => committed_read(json@) == Err::<Option<(u64, u64, u64)>, Seq<char>>(e@),
        },
{
    let read: Result<Option<openraft::LogId<u64>>, serde_json::Error> = serde_json::from_slice(
        json,
    );
    match read {
        Ok(id) => Ok(id.map(|i| (i.leader_id.term, i.leader_id.node_id, i.index))),
        Err(e) => Err(e.to_string()),
    }
}

/// A log id made of its parts.
pub open spec fn log_id_of(parts: (u64, u64, u64)) -> LogId {
    LogId { term: parts.0, node: parts.1, index: parts.2 }
}

/// A file as it was found: its bytes where it is there, or why it could not be read.
pub type FileContents = Result<Option<Vec<u8>>, String>;

/// The vote that a file gives.
pub open spec fn vote_in(file: FileContents) -> Result<Option<RaftVote>, Seq<char>> {
    match file {
        Err(e) => Err(e@),
        Ok(None) => Ok(None),
        Ok(Some(b)) => match vote_read(b@) {
            Ok(v) => Ok(Some(RaftVote { term: v.0, node: v.1, committed: v.2 })),
            Err(e) => Err(e),
        },
    }
}

/// The committed entry that a file gives; a file that holds no entry is as one that is not there.
pub open spec fn committed_in(file: FileContents) -> Result<Option<LogId>, Seq<char>> {
    match file {
        Err(e) => Err(e@),
        Ok(None) => Ok(None),
        Ok(Some(b)) => match committed_read(b@) {
            Ok(Some(v)) => Ok(Some(log_id_of(v))),
            Ok(None) => Ok(None),
            Err(e) => Err(e),
        },
    }
}

/// The purged entry that a file gives.
pub open spec fn purged_in(file: FileContents) -> Result<Option<LogId>, Seq<char>> {
    match file {
        Err(e) => Err(e@),
        Ok(None) => Ok(None),
        Ok(Some(b)) => match log_id_read(b@) {
            Ok(v) => Ok(Some(log_id_of(v))),
            Err(e) => Err(e),
        },
    }
}

/// The error of a store that cannot be opened.
pub open spec fn open_error(detail: Seq<char>) -> ControlErrorView {
    ControlErrorView::Backend("raft store open: "@ + detail)
}

/// The error of a store that cannot be opened.
pub fn store_open_error(detail: &String) -> (r: ControlError)
    ensures
        r@ == open_error(detail@),
{
    backend_error("raft store open: ", detail)
}

/// The vote, the last committed entry and the last purged entry of a node.
#[derive(Clone, Copy, Debug, PartialEq, Eq, Structural)]
pub struct HardState {
    pub vote: Option<RaftVote>,
    pub committed: Option<LogId>,
    pub purged: Option<LogId>,
}

/// The state that the three files give, read in this order; the first that fails is reported.
pub open spec fn hard_state_in(
    vote: FileContents,
    committed: FileContents,
    purged: FileContents,
) -> Result<HardState, Seq<char>> {
    match vote_in(vote) {
        Err(e) => Err(e),
        Ok(v) => match committed_in(committed) {
            Err(e) => Err(e),
            Ok(c) => match purged_in(purged) {
                Err(e) => Err(e),
                Ok(p) => Ok(HardState { vote: v, committed: c, purged: p }),
            },
        },
    }
}

impl HardState {
    /// The state of a node that never ran.
    pub fn fresh() -> (r: Self)
        ensures
            r == (HardState { vote: None, committed: None, purged: None }),
    {
        HardState { vote: None, committed: None, purged: None }
    }

    /// The state of a node that starts again, from its files. A file that is there and cannot be
    /// read is an error, never a fresh state.
    pub fn open(vote: FileContents, committed: FileContents, purged: FileContents) -> (r: Result<
        HardState,
        ControlError,
    >)
        ensures
            match r {
                Ok(s) => hard_state_in(vote, committed, purged) == Ok::<HardState, Seq<char>>(s),
                Err(e) => hard_state_in(vote, committed, purged) matches Err(m) && e@ == open_error(
                    m,
                ),
            },
    {
        let vote = match vote {
            Err(e) => return Err(store_open_error(&e)),
            Ok(None) => None,
            Ok(Some(b)) => match read_vote_json(&b) {
                Ok(v) => Some(RaftVote { term: v.0, node: v.1, committed: v.2 }),
                Err(e) => return Err(store_open_error(&e)),
            },
        };
        let committed = match committed {
            Err(e) => return Err(store_open_error(&e)),
            Ok(None) => None,
            Ok(Some(b)) => match read_committed_json(&b) {
                Ok(Some(v)) => Some(LogId { term: v.0, node: v.1, index: v.2 }),
                Ok(None) => None,
                Err(e) => return Err(store_open_error(&e)),
            },
        };
        let purged = match purged {
            Err(e) => return Err(store_open_error(&e)),
            Ok(None) => None,
            Ok(Some(b)) => match read_log_id_json(&b) {
                Ok(v) => Some(LogId { term: v.0, node: v.1, index: v.2 }),
                Err(e) => return Err(store_open_error(&e)),
            },
        };
        Ok(HardState { vote, committed, purged })
    }

    /// Takes a vote and gives the bytes that its file must hold before the vote counts. A node that
    /// starts again from these bytes has the same vote.
    pub fn save_vote(&mut self, vote: RaftVote) -> (r: Result<Vec<u8>, String>)
        ensures
            *final(self) == (HardState { vote: Some(vote), ..*old(self) }),
            r matches Ok(b) && b@ == encode_utf8(vote_json(vote)) && vote_in(Ok(Some(b))) == Ok::<
                Option<RaftVote>,
                Seq<char>,
            >(Some(vote)),
    {
        self.vote = Some(vote);
        write_vote_json(vote)
    }

    /// Takes the last committed entry and gives the bytes for its file. A node that starts again
    /// from these bytes has the same committed entry.
    pub fn save_committed(&mut self, committed: Option<LogId>) -> (r: Result<Vec<u8>, String>)
        ensures
            *final(self) == (HardState { committed, ..*old(self) }),
            r matches Ok(b) && b@ == encode_utf8(log_id_json(committed)) && committed_in(
                Ok(Some(b)),
            ) == Ok::<Option<LogId>, Seq<char>>(committed),
    {
        self.committed = committed;
        write_log_id_json(committed)
    }

    /// Takes the last purged entry and gives the bytes for its file. A node that starts again from
    /// these bytes has the same bound.
    pub fn save_purged(&mut self, purged: LogId) -> (r: Result<Vec<u8>, String>)
        ensures
            *final(self) == (HardState { purged: Some(purged), ..*old(self) }),
            r matches Ok(b) && b@ == encode_utf8(log_id_json(Some(purged))) && purged_in(
                Ok(Some(b)),
            ) == Ok::<Option<LogId>, Seq<char>>(Some(purged)),
    {
        self.purged = Some(purged);
        write_log_id_json(Some(purged))
    }
}

/// A node starts exactly where each of its files is absent or can be read, with what each gives;
/// one without files starts fresh. Otherwise the first file that fails says why.
pub proof fn law_a_node_starts_from_its_files(
    vote: FileContents,
    committed: FileContents,
    purged: FileContents,
)
    ensures
        hard_state_in(vote, committed, purged) is Ok <==> vote_in(vote) is Ok && committed_in(
            committed,
        ) is Ok && purged_in(purged) is Ok,
        hard_state_in(vote, committed, purged) matches Ok(s) ==> Ok::<Option<RaftVote>, Seq<char>>(
            s.vote,
        ) == vote_in(vote) && Ok::<Option<LogId>, Seq<char>>(s.committed) == committed_in(committed)
            && Ok::<Option<LogId>, Seq<char>>(s.purged) == purged_in(purged),
        vote_in(vote) matches Err(e) ==> hard_state_in(vote, committed, purged) == Err::<
            HardState,
            Seq<char>,
        >(e),
        vote_in(vote) is Ok ==> (committed_in(committed) matches Err(e) ==> hard_state_in(
            vote,
            committed,
            purged,
        ) == Err::<HardState, Seq<char>>(e)),
        vote == Ok::<Option<Vec<u8>>, String>(None) ==> vote_in(vote) == Ok::<
            Option<RaftVote>,
            Seq<char>,
        >(None),
        committed == Ok::<Option<Vec<u8>>, String>(None) ==> committed_in(committed) == Ok::<
            Option<LogId>,
            Seq<char>,
        >(None),
        purged == Ok::<Option<Vec<u8>>, String>(None) ==> purged_in(purged) == Ok::<
            Option<LogId>,
            Seq<char>,
        >(None),
        vote is Err ==> vote_in(vote) is Err,
        committed is Err ==> committed_in(committed) is Err,
        purged is Err ==> purged_in(purged) is Err,
{
}

/// What a file's JSON says is what the node has: the term, the node, the flag and the index, each
/// in its place.
pub proof fn law_each_part_is_read_in_its_place(
    b: Vec<u8>,
    term: u64,
    node: u64,
    index: u64,
    flag: bool,
)
    ensures
        vote_read(b@) == Ok::<(u64, u64, bool), Seq<char>>((term, node, flag)) ==> (vote_in(
            Ok(Some(b)),
        ) matches Ok(Some(v)) && v.term == term && v.node == node && v.committed == flag),
        log_id_read(b@) == Ok::<(u64, u64, u64), Seq<char>>((term, node, index)) ==> (purged_in(
            Ok(Some(b)),
        ) matches Ok(Some(p)) && p.term == term && p.node == node && p.index == index),
        committed_read(b@) == Ok::<Option<(u64, u64, u64)>, Seq<char>>(
            Some((term, node, index)),
        ) ==> (committed_in(Ok(Some(b))) matches Ok(Some(c)) && c.term == term && c.node == node
            && c.index == index),
{
}

} // verus!
