//! Checkpoints: every shard is sealed, then the manifest is written, and only then is the log cut.
//!
//! Writing the manifest is the one step that commits. A crash before it leaves the old manifest
//! and the whole log; a crash after it leaves the new manifest and at worst records that it covers.
use crate::clog::LogPos;
use crate::shard::{ShardError, ShardErrorView};
use crate::text::texts;
use vstd::prelude::*;

verus! {

/// What to do next.
#[derive(Clone, Copy, Debug, PartialEq, Eq, Structural)]
pub enum CheckpointCall {
    /// Read the position of the last record in the log.
    LastPos,
    /// Seal a shard.
    Seal(usize),
    /// List the segments of a shard.
    Segments(usize),
    /// Ask a shard for its next segment number.
    NextSegment(usize),
    /// Serialize the vocabulary.
    Vocabulary,
    /// Write the manifest, up to this position and under this epoch.
    WriteManifest { up_to: LogPos, epoch: u64 },
    /// Cut the log up to this position.
    CutLog(LogPos),
    /// Remove the segments that the manifest does not name.
    RemoveOrphans,
}

/// What came of it.
pub enum CheckpointReply {
    /// A position.
    At(LogPos),
    /// It is done.
    Done,
    /// The names of segments.
    Names(Vec<String>),
    /// A segment number.
    Number(u64),
    /// A shard or the log failed.
    Failed(ShardError),
    /// Serializing, writing or cutting failed, with this message.
    Broken(String),
}

/// A reply, as a mathematical value.
pub ghost enum CheckpointReplyView {
    At(LogPos),
    Done,
    Names(Seq<Seq<char>>),
    Number(u64),
    Failed(ShardErrorView),
    Broken(Seq<char>),
}

impl View for CheckpointReply {
    type V = CheckpointReplyView;

    open spec fn view(&self) -> CheckpointReplyView {
        match self {
            CheckpointReply::At(p) => CheckpointReplyView::At(*p),
            CheckpointReply::Done => CheckpointReplyView::Done,
            CheckpointReply::Names(v) => CheckpointReplyView::Names(texts(v@)),
            CheckpointReply::Number(n) => CheckpointReplyView::Number(*n),
            CheckpointReply::Failed(e) => CheckpointReplyView::Failed(e@),
            CheckpointReply::Broken(e) => CheckpointReplyView::Broken(e@),
        }
    }
}

/// How far a checkpoint is.
pub enum CheckpointStage {
    LastPos,
    Seal { up_to: LogPos, shard: usize },
    Segments { up_to: LogPos, shard: usize },
    NextSegment { up_to: LogPos, shard: usize },
    Vocabulary { up_to: LogPos },
    WriteManifest { up_to: LogPos },
    CutLog { up_to: LogPos },
    RemoveOrphans,
    Ended(Result<(), ShardError>),
}

/// How far a checkpoint is, as a mathematical value.
pub ghost enum StageView {
    LastPos,
    Seal { up_to: LogPos, shard: usize },
    Segments { up_to: LogPos, shard: usize },
    NextSegment { up_to: LogPos, shard: usize },
    Vocabulary { up_to: LogPos },
    WriteManifest { up_to: LogPos },
    CutLog { up_to: LogPos },
    RemoveOrphans,
    Committed,
    Failed(ShardErrorView),
}

impl View for CheckpointStage {
    type V = StageView;

    open spec fn view(&self) -> StageView {
        match self {
            CheckpointStage::LastPos => StageView::LastPos,
            CheckpointStage::Seal { up_to, shard } => StageView::Seal {
                up_to: *up_to,
                shard: *shard,
            },
            CheckpointStage::Segments { up_to, shard } => StageView::Segments {
                up_to: *up_to,
                shard: *shard,
            },
            CheckpointStage::NextSegment { up_to, shard } => StageView::NextSegment {
                up_to: *up_to,
                shard: *shard,
            },
            CheckpointStage::Vocabulary { up_to } => StageView::Vocabulary { up_to: *up_to },
            CheckpointStage::WriteManifest { up_to } => StageView::WriteManifest { up_to: *up_to },
            CheckpointStage::CutLog { up_to } => StageView::CutLog { up_to: *up_to },
            CheckpointStage::RemoveOrphans => StageView::RemoveOrphans,
            CheckpointStage::Ended(Ok(_)) => StageView::Committed,
            CheckpointStage::Ended(Err(e)) => StageView::Failed(e@),
        }
    }
}

/// A checkpoint on its way, as a mathematical value.
#[verifier::ext_equal]
pub ghost struct CheckpointView {
    pub shards: usize,
    pub epoch: u64,
    pub stage: StageView,
    pub registry: Seq<Seq<Seq<char>>>,
    pub next_seg_ids: Seq<u64>,
}

/// The names of segments, shard by shard.
pub open spec fn registry_view(r: Seq<Vec<String>>) -> Seq<Seq<Seq<char>>> {
    r.map_values(|v: Vec<String>| texts(v@))
}

/// A checkpoint on its way.
pub struct Checkpoint {
    shards: usize,
    epoch: u64,
    stage: CheckpointStage,
    registry: Vec<Vec<String>>,
    next_seg_ids: Vec<u64>,
}

impl View for Checkpoint {
    type V = CheckpointView;

    closed spec fn view(&self) -> CheckpointView {
        CheckpointView {
            shards: self.shards,
            epoch: self.epoch,
            stage: self.stage@,
            registry: registry_view(self.registry@),
            next_seg_ids: self.next_seg_ids@,
        }
    }
}

/// Sealing from a shard on; past the last, listing starts.
pub open spec fn seal_from(up_to: LogPos, shard: usize, shards: usize) -> StageView {
    if shard < shards {
        StageView::Seal { up_to, shard }
    } else {
        list_from(up_to, 0, shards)
    }
}

/// Listing from a shard on; past the last, the vocabulary is next.
pub open spec fn list_from(up_to: LogPos, shard: usize, shards: usize) -> StageView {
    if shard < shards {
        StageView::Segments { up_to, shard }
    } else {
        StageView::Vocabulary { up_to }
    }
}

/// The reply is one to what was asked.
pub open spec fn fits(s: StageView, r: CheckpointReplyView) -> bool {
    match s {
        StageView::LastPos => r is At || r is Failed,
        StageView::Seal { .. } => r is Done || r is Failed,
        StageView::Segments { .. } => r is Names || r is Failed,
        StageView::NextSegment { .. } => r is Number || r is Failed,
        StageView::Vocabulary { .. } => r is Done || r is Broken,
        StageView::WriteManifest { .. } => r is Done || r is Broken,
        StageView::CutLog { .. } => r is Done || r is Broken,
        StageView::RemoveOrphans => r is Done,
        StageView::Committed => false,
        StageView::Failed(_) => false,
    }
}

/// The checkpoint after a reply.
pub open spec fn stepped(c: CheckpointView, r: CheckpointReplyView) -> CheckpointView {
    match (c.stage, r) {
        (_, CheckpointReplyView::Failed(e)) => CheckpointView { stage: StageView::Failed(e), ..c },
        (StageView::LastPos, CheckpointReplyView::At(p)) => CheckpointView {
            stage: seal_from(p, 0, c.shards),
            ..c
        },
        (StageView::Seal { up_to, shard }, _) => CheckpointView {
            stage: seal_from(up_to, (shard + 1) as usize, c.shards),
            ..c
        },
        (StageView::Segments { up_to, shard }, CheckpointReplyView::Names(names)) =>
            CheckpointView {
            stage: StageView::NextSegment { up_to, shard },
            registry: c.registry.push(names),
            ..c
        },
        (StageView::NextSegment { up_to, shard }, CheckpointReplyView::Number(n)) =>
            CheckpointView {
            stage: list_from(up_to, (shard + 1) as usize, c.shards),
            next_seg_ids: c.next_seg_ids.push(n),
            ..c
        },
        (StageView::Vocabulary { up_to: _ }, CheckpointReplyView::Broken(e)) => CheckpointView {
            stage: StageView::Failed(ShardErrorView::Log("serializing cluster vocab: "@ + e)),
            ..c
        },
        (StageView::Vocabulary { up_to }, _) => CheckpointView {
            stage: StageView::WriteManifest { up_to },
            ..c
        },
        (StageView::WriteManifest { up_to: _ }, CheckpointReplyView::Broken(e)) => CheckpointView {
            stage: StageView::Failed(ShardErrorView::Log("writing cluster manifest: "@ + e)),
            ..c
        },
        (StageView::WriteManifest { up_to }, _) => CheckpointView {
            stage: StageView::CutLog { up_to },
            epoch: (c.epoch + 1) as u64,
            ..c
        },
        (StageView::CutLog { .. }, _) => CheckpointView { stage: StageView::RemoveOrphans, ..c },
        (StageView::RemoveOrphans, _) => CheckpointView { stage: StageView::Committed, ..c },
        _ => c,
    }
}

/// What is asked.
pub open spec fn asked(c: CheckpointView) -> Option<CheckpointCall> {
    match c.stage {
        StageView::LastPos => Some(CheckpointCall::LastPos),
        StageView::Seal { up_to: _, shard } => Some(CheckpointCall::Seal(shard)),
        StageView::Segments { up_to: _, shard } => Some(CheckpointCall::Segments(shard)),
        StageView::NextSegment { up_to: _, shard } => Some(CheckpointCall::NextSegment(shard)),
        StageView::Vocabulary { .. } => Some(CheckpointCall::Vocabulary),
        StageView::WriteManifest { up_to } => Some(
            CheckpointCall::WriteManifest { up_to, epoch: (c.epoch + 1) as u64 },
        ),
        StageView::CutLog { up_to } => Some(CheckpointCall::CutLog(up_to)),
        StageView::RemoveOrphans => Some(CheckpointCall::RemoveOrphans),
        StageView::Committed => None,
        StageView::Failed(_) => None,
    }
}

/// What is on its way to the manifest is as long as the stage says, and the epoch can advance.
pub open spec fn checkpoint_valid(c: CheckpointView) -> bool {
    &&& !committed(c.stage) ==> c.epoch < u64::MAX
    &&& match c.stage {
        StageView::LastPos => c.registry.len() == 0 && c.next_seg_ids.len() == 0,
        StageView::Seal { up_to: _, shard } => shard < c.shards && c.registry.len() == 0
            && c.next_seg_ids.len() == 0,
        StageView::Segments { up_to: _, shard } => shard < c.shards && c.registry.len() == shard
            && c.next_seg_ids.len() == shard,
        StageView::NextSegment { up_to: _, shard } => shard < c.shards && c.registry.len() == shard
            + 1 && c.next_seg_ids.len() == shard,
        StageView::Failed(_) => true,
        _ => c.registry.len() == c.shards && c.next_seg_ids.len() == c.shards,
    }
}

/// The manifest is written.
pub open spec fn committed(s: StageView) -> bool {
    s is CutLog || s is RemoveOrphans || s is Committed
}

fn seal_stage(up_to: LogPos, shard: usize, shards: usize) -> (r: CheckpointStage)
    ensures
        r@ == seal_from(up_to, shard, shards),
{
    if shard < shards {
        CheckpointStage::Seal { up_to, shard }
    } else {
        list_stage(up_to, 0, shards)
    }
}

fn list_stage(up_to: LogPos, shard: usize, shards: usize) -> (r: CheckpointStage)
    ensures
        r@ == list_from(up_to, shard, shards),
{
    if shard < shards {
        CheckpointStage::Segments { up_to, shard }
    } else {
        CheckpointStage::Vocabulary { up_to }
    }
}

fn log_error(context: &str, e: &String) -> (r: ShardError)
    ensures
        r@ == ShardErrorView::Log(context@ + e@),
{
    let mut m = String::from_str(context);
    m.append(e.as_str());
    ShardError::Log(m)
}

impl Checkpoint {
    /// A checkpoint of a durable cluster with this many shards, whose last manifest was written
    /// under this epoch.
    pub fn new(shards: usize, epoch: u64) -> (r: Self)
        requires
            epoch < u64::MAX,
        ensures
            r@ == (CheckpointView {
                shards,
                epoch,
                stage: StageView::LastPos,
                registry: Seq::empty(),
                next_seg_ids: Seq::empty(),
            }),
            checkpoint_valid(r@),
    {
        let r = Checkpoint {
            shards,
            epoch,
            stage: CheckpointStage::LastPos,
            registry: Vec::new(),
            next_seg_ids: Vec::new(),
        };
        assert(r@ =~= CheckpointView {
            shards,
            epoch,
            stage: StageView::LastPos,
            registry: Seq::empty(),
            next_seg_ids: Seq::empty(),
        });
        r
    }

    /// What to do next; nothing once the checkpoint ended.
    pub fn call(&self) -> (r: Option<CheckpointCall>)
        requires
            checkpoint_valid(self@),
        ensures
            r == asked(self@),
    {
        match &self.stage {
            CheckpointStage::LastPos => Some(CheckpointCall::LastPos),
            CheckpointStage::Seal { up_to: _, shard } => Some(CheckpointCall::Seal(*shard)),
            CheckpointStage::Segments { up_to: _, shard } => Some(CheckpointCall::Segments(*shard)),
            CheckpointStage::NextSegment { up_to: _, shard } => Some(
                CheckpointCall::NextSegment(*shard),
            ),
            CheckpointStage::Vocabulary { .. } => Some(CheckpointCall::Vocabulary),
            CheckpointStage::WriteManifest { up_to } => Some(
                CheckpointCall::WriteManifest { up_to: *up_to, epoch: self.epoch + 1 },
            ),
            CheckpointStage::CutLog { up_to } => Some(CheckpointCall::CutLog(*up_to)),
            CheckpointStage::RemoveOrphans => Some(CheckpointCall::RemoveOrphans),
            CheckpointStage::Ended(_) => None,
        }
    }

    /// Takes a reply. Where the log could not be cut, the notice for it comes back with the error:
    /// the records are only replayed once more.
    pub fn next(&mut self, reply: CheckpointReply) -> (r: Option<(String, String)>)
        requires
            fits(old(self)@.stage, reply@),
            checkpoint_valid(old(self)@),
        ensures
            final(self)@ == stepped(old(self)@, reply@),
            checkpoint_valid(final(self)@),
            match (old(self)@.stage, reply@) {
                (StageView::CutLog { .. }, CheckpointReplyView::Broken(e)) => r matches Some(n)
                    && n.0@
                    == "cluster log truncation after checkpoint failed (benign: replayed on next open)"@
                    && n.1@ == e,
                _ => r is None,
            },
    {
        let ghost before = self@;
        let ghost rv = reply@;
        let shards: usize = self.shards;
        let mut stage = CheckpointStage::RemoveOrphans;
        std::mem::swap(&mut stage, &mut self.stage);
        let mut notice: Option<(String, String)> = None;
        let next = match (stage, reply) {
            (_, CheckpointReply::Failed(e)) => CheckpointStage::Ended(Err(e)),
            (CheckpointStage::LastPos, CheckpointReply::At(p)) => seal_stage(p, 0, shards),
            (CheckpointStage::Seal { up_to, shard }, _) => seal_stage(up_to, shard + 1, shards),
            (CheckpointStage::Segments { up_to, shard }, CheckpointReply::Names(names)) => {
                let ghost held = self.registry@;
                let ghost nv = texts(names@);
                self.registry.push(names);
                assert(registry_view(self.registry@) =~= registry_view(held).push(nv));
                CheckpointStage::NextSegment { up_to, shard }
            },
            (CheckpointStage::NextSegment { up_to, shard }, CheckpointReply::Number(n)) => {
                self.next_seg_ids.push(n);
                list_stage(up_to, shard + 1, shards)
            },
            (CheckpointStage::Vocabulary { up_to: _ }, CheckpointReply::Broken(e)) => {
                CheckpointStage::Ended(Err(log_error("serializing cluster vocab: ", &e)))
            },
            (CheckpointStage::Vocabulary { up_to }, _) => CheckpointStage::WriteManifest { up_to },
            (CheckpointStage::WriteManifest { up_to: _ }, CheckpointReply::Broken(e)) => {
                CheckpointStage::Ended(Err(log_error("writing cluster manifest: ", &e)))
            },
            (CheckpointStage::WriteManifest { up_to }, _) => {
                self.epoch = self.epoch + 1;
                CheckpointStage::CutLog { up_to }
            },
            (CheckpointStage::CutLog { .. }, CheckpointReply::Broken(e)) => {
                notice = Some(
                    (
                        String::from_str(
                            "cluster log truncation after checkpoint failed (benign: replayed on next open)",
                        ),
                        e,
                    ),
                );
                CheckpointStage::RemoveOrphans
            },
            (CheckpointStage::CutLog { .. }, _) => CheckpointStage::RemoveOrphans,
            (CheckpointStage::RemoveOrphans, _) => CheckpointStage::Ended(Ok(())),
            (other, _) => other,
        };
        self.stage = next;
        assert(self@ =~= stepped(before, rv));
        notice
    }

    /// The epoch of the manifest that is in force.
    pub fn epoch(&self) -> (r: u64)
        ensures
            r == self@.epoch,
    {
        self.epoch
    }

    /// The segments that the manifest names, shard by shard.
    pub fn registry(&self) -> (r: &Vec<Vec<String>>)
        ensures
            registry_view(r@) == self@.registry,
    {
        &self.registry
    }

    /// The segment numbers that the manifest holds.
    pub fn next_seg_ids(&self) -> (r: &Vec<u64>)
        ensures
            r@ == self@.next_seg_ids,
    {
        &self.next_seg_ids
    }

    /// How the checkpoint ended.
    pub fn outcome(self) -> (r: Option<Result<(), ShardError>>)
        ensures
            match self@.stage {
                StageView::Committed => r matches Some(Ok(_)),
                StageView::Failed(e) => r matches Some(Err(x)) && x@ == e,
                _ => r is None,
            },
    {
        match self.stage {
            CheckpointStage::Ended(r) => Some(r),
            _ => None,
        }
    }
}

/// The position that a stage carries.
pub open spec fn carried(s: StageView) -> Option<LogPos> {
    match s {
        StageView::Seal { up_to, shard: _ } => Some(up_to),
        StageView::Segments { up_to, shard: _ } => Some(up_to),
        StageView::NextSegment { up_to, shard: _ } => Some(up_to),
        StageView::Vocabulary { up_to } => Some(up_to),
        StageView::WriteManifest { up_to } => Some(up_to),
        StageView::CutLog { up_to } => Some(up_to),
        _ => None,
    }
}

/// The log is cut only once the manifest is written, and only up to the position that the manifest
/// holds.
pub proof fn law_log_is_cut_only_after_the_commit(c: CheckpointView, r: CheckpointReplyView)
    requires
        fits(c.stage, r),
        stepped(c, r).stage is CutLog,
    ensures
        r is Done,
        c.stage is WriteManifest,
        carried(stepped(c, r).stage) == carried(c.stage),
{
}

/// The position that was read before the first shard was sealed is the one that the manifest
/// holds.
pub proof fn law_position_is_fixed_before_sealing(c: CheckpointView, r: CheckpointReplyView)
    requires
        fits(c.stage, r),
        carried(c.stage) is Some,
        carried(stepped(c, r).stage) is Some,
    ensures
        carried(stepped(c, r).stage) == carried(c.stage),
{
}

/// The manifest names the segments and the next number of every shard.
pub proof fn law_manifest_covers_every_shard(c: CheckpointView)
    requires
        checkpoint_valid(c),
        c.stage is WriteManifest,
    ensures
        c.registry.len() == c.shards,
        c.next_seg_ids.len() == c.shards,
{
}

/// Before the manifest is written a failure ends the checkpoint; after it none does.
pub proof fn law_only_what_precedes_the_commit_can_fail(c: CheckpointView, r: CheckpointReplyView)
    requires
        fits(c.stage, r),
    ensures
        stepped(c, r).stage is Failed <==> r is Failed || (r is Broken && !(c.stage is CutLog)),
        c.stage is CutLog || c.stage is RemoveOrphans ==> !(stepped(c, r).stage is Failed),
{
}

/// The epoch advances with the manifest, and with nothing else.
pub proof fn law_epoch_advances_with_the_manifest(c: CheckpointView, r: CheckpointReplyView)
    requires
        checkpoint_valid(c),
        fits(c.stage, r),
    ensures
        stepped(c, r).epoch == c.epoch + (if c.stage is WriteManifest && r is Done {
            1int
        } else {
            0int
        }),
{
}

/// How many steps a checkpoint can still take.
pub open spec fn steps_left(c: CheckpointView) -> int {
    match c.stage {
        StageView::LastPos => 3 * c.shards + 5,
        StageView::Seal { up_to: _, shard } => (c.shards - shard) + 2 * c.shards + 4,
        StageView::Segments { up_to: _, shard } => 2 * (c.shards - shard) + 4,
        StageView::NextSegment { up_to: _, shard } => 2 * (c.shards - shard) + 3,
        StageView::Vocabulary { .. } => 4,
        StageView::WriteManifest { .. } => 3,
        StageView::CutLog { .. } => 2,
        StageView::RemoveOrphans => 1,
        _ => 0,
    }
}

/// A checkpoint ends.
pub proof fn law_checkpoint_ends(c: CheckpointView, r: CheckpointReplyView)
    requires
        checkpoint_valid(c),
        fits(c.stage, r),
    ensures
        0 <= steps_left(stepped(c, r)) < steps_left(c),
        asked(c) is None <==> steps_left(c) == 0,
{
}

/// A record of the log: its position and what it says.
pub type Record<M> = (u64, M);

/// Whether a record is after a position.
pub open spec fn past<M>(pos: u64) -> spec_fn(Record<M>) -> bool {
    |e: Record<M>| e.0 > pos
}

/// Whether a record is at most at a position.
pub open spec fn not_past<M>(pos: u64) -> spec_fn(Record<M>) -> bool {
    |e: Record<M>| e.0 <= pos
}

/// The records after a position.
pub open spec fn records_after<M>(log: Seq<Record<M>>, pos: u64) -> Seq<Record<M>> {
    log.filter(past(pos))
}

/// The records up to a position.
pub open spec fn records_up_to<M>(log: Seq<Record<M>>, pos: u64) -> Seq<Record<M>> {
    log.filter(not_past(pos))
}

/// What a reopened cluster has seen: what its segments hold, and then the records of the log after
/// the position of its manifest.
pub open spec fn recovered<M>(
    segments: Seq<Record<M>>,
    pos: u64,
    log: Seq<Record<M>>,
) -> Seq<Record<M>> {
    segments + records_after(log, pos)
}

/// A crash at any point of a checkpoint loses nothing and applies nothing twice: before the
/// manifest is written, between that and cutting the log, and after it, a reopened cluster has seen
/// the same records.
pub proof fn law_crash_in_a_checkpoint_loses_nothing<M>(
    segments: Seq<Record<M>>,
    pos: u64,
    log: Seq<Record<M>>,
    up_to: u64,
)
    requires
        pos <= up_to,
        forall|i: int, j: int|
            0 <= i < j < log.len() ==> (#[trigger] log[i]).0 < (#[trigger] log[j]).0,
    ensures
        recovered(segments + records_up_to(records_after(log, pos), up_to), up_to, log)
            == recovered(segments, pos, log),
        recovered(
            segments + records_up_to(records_after(log, pos), up_to),
            up_to,
            records_after(log, up_to),
        ) == recovered(segments, pos, log),
{
    lemma_split(log, pos, up_to);
    lemma_after_twice(log, up_to);
    assert(segments + records_up_to(records_after(log, pos), up_to) + records_after(log, up_to)
        =~= segments + (records_up_to(records_after(log, pos), up_to) + records_after(
        log,
        up_to,
    )));
}

proof fn lemma_after_twice<M>(log: Seq<Record<M>>, pos: u64)
    ensures
        records_after(records_after(log, pos), pos) == records_after(log, pos),
{
    let p = past::<M>(pos);
    let kept = log.filter(p);
    assert forall|j: int| 0 <= j < kept.len() implies p(#[trigger] kept[j]) by {
        log.lemma_filter_pred(p, j);
    }
    crate::seqs::lemma_filter_all(kept, p);
}

proof fn lemma_split<M>(log: Seq<Record<M>>, pos: u64, up_to: u64)
    requires
        pos <= up_to,
        forall|i: int, j: int|
            0 <= i < j < log.len() ==> (#[trigger] log[i]).0 < (#[trigger] log[j]).0,
    ensures
        records_up_to(records_after(log, pos), up_to) + records_after(log, up_to) == records_after(
            log,
            pos,
        ),
    decreases log.len(),
{
    if log.len() == 0 {
        lemma_filter_empty(log, past::<M>(pos));
        lemma_filter_empty(log, past::<M>(up_to));
        lemma_filter_empty(records_after(log, pos), not_past::<M>(up_to));
        assert(Seq::<Record<M>>::empty() + Seq::<Record<M>>::empty() =~= Seq::empty());
    } else {
        let init = log.drop_last();
        let e = log.last();
        assert(init.push(e) =~= log);
        assert forall|i: int, j: int| 0 <= i < j < init.len() implies (#[trigger] init[i]).0 < (
        #[trigger] init[j]).0 by {
            assert(init[i] == log[i] && init[j] == log[j]);
        }
        lemma_split(init, pos, up_to);
        let tail = records_after(init, pos);
        lemma_filter_push(init, e, past::<M>(pos));
        lemma_filter_push(init, e, past::<M>(up_to));
        lemma_filter_push(tail, e, not_past::<M>(up_to));
        if e.0 > pos {
            if e.0 > up_to {
                assert(records_up_to(tail, up_to) + records_after(init, up_to).push(e) =~= (
                records_up_to(tail, up_to) + records_after(init, up_to)).push(e));
            } else {
                lemma_none_after(init, e.0, up_to, log);
                assert(records_up_to(tail, up_to) + Seq::<Record<M>>::empty()
                    =~= records_up_to(tail, up_to));
                assert(records_up_to(tail, up_to).push(e) + Seq::<Record<M>>::empty()
                    =~= tail.push(e));
            }
        }
    }
}

proof fn lemma_filter_empty<A>(s: Seq<A>, p: spec_fn(A) -> bool)
    requires
        s.len() == 0,
    ensures
        s.filter(p) == Seq::<A>::empty(),
{
    s.lemma_filter_len(p);
    assert(s.filter(p) =~= Seq::empty());
}

proof fn lemma_filter_push<A>(s: Seq<A>, e: A, p: spec_fn(A) -> bool)
    ensures
        s.push(e).filter(p) == if p(e) {
            s.filter(p).push(e)
        } else {
            s.filter(p)
        },
{
    reveal(Seq::filter);
    assert(s.push(e).drop_last() =~= s);
}

proof fn lemma_none_after<M>(init: Seq<Record<M>>, last: u64, up_to: u64, log: Seq<Record<M>>)
    requires
        log.len() > 0,
        init == log.drop_last(),
        last == log.last().0,
        last <= up_to,
        forall|i: int, j: int|
            0 <= i < j < log.len() ==> (#[trigger] log[i]).0 < (#[trigger] log[j]).0,
    ensures
        records_after(init, up_to) == Seq::<Record<M>>::empty(),
{
    let p = past::<M>(up_to);
    let kept = init.filter(p);
    crate::seqs::lemma_filter_members(init, p);
    if kept.len() > 0 {
        assert(kept.contains(kept[0]));
        assert(init.contains(kept[0]));
        let i = choose|i: int| 0 <= i < init.len() && init[i] == kept[0];
        assert(log[i].0 < log[log.len() - 1].0);
    }
    assert(kept =~= Seq::empty());
}

/// The manifest and the cut are for the position that was read first, and for no other; the
/// manifest is written under the epoch after the last.
pub proof fn law_the_manifest_holds_the_position_that_was_read(
    c: CheckpointView,
    r: CheckpointReplyView,
)
    requires
        checkpoint_valid(c),
        fits(c.stage, r),
    ensures
        c.stage is LastPos ==> (r matches CheckpointReplyView::At(p) ==> carried(stepped(c, r).stage)
            == Some(p)),
        asked(c) matches Some(CheckpointCall::WriteManifest { up_to, epoch }) ==> carried(c.stage)
            == Some(up_to) && epoch == c.epoch + 1,
        asked(c) matches Some(CheckpointCall::CutLog(up_to)) ==> carried(c.stage) == Some(up_to),
{
}

/// Every shard is sealed, in turn, before any is listed; every shard is listed, in turn, before the
/// vocabulary and the manifest are written; and what a shard answers goes into the manifest at its
/// own place.
pub proof fn law_every_shard_is_sealed_and_listed_in_turn(
    c: CheckpointView,
    r: CheckpointReplyView,
)
    requires
        checkpoint_valid(c),
        fits(c.stage, r),
        !(r is Failed) && !(r is Broken),
    ensures
        ({
            let next = asked(stepped(c, r));
            let n = c.shards;
            match asked(c) {
                Some(CheckpointCall::LastPos) => next == Some(
                    if n > 0 {
                        CheckpointCall::Seal(0)
                    } else {
                        CheckpointCall::Vocabulary
                    },
                ),
                Some(CheckpointCall::Seal(s)) => s < n && next == Some(
                    if s + 1 < n {
                        CheckpointCall::Seal((s + 1) as usize)
                    } else {
                        CheckpointCall::Segments(0)
                    },
                ),
                Some(CheckpointCall::Segments(s)) => s < n && next == Some(
                    CheckpointCall::NextSegment(s),
                ),
                Some(CheckpointCall::NextSegment(s)) => s < n && next == Some(
                    if s + 1 < n {
                        CheckpointCall::Segments((s + 1) as usize)
                    } else {
                        CheckpointCall::Vocabulary
                    },
                ),
                Some(CheckpointCall::Vocabulary) => next is Some && next->0 is WriteManifest,
                Some(CheckpointCall::WriteManifest { .. }) => next is Some && next->0 is CutLog,
                Some(CheckpointCall::CutLog(_)) => next == Some(CheckpointCall::RemoveOrphans),
                _ => next is None,
            }
        }),
        asked(c) matches Some(CheckpointCall::Segments(s)) ==> c.registry.len() == s && (
        r matches CheckpointReplyView::Names(names) ==> stepped(c, r).registry == c.registry.push(
            names,
        )),
        asked(c) matches Some(CheckpointCall::NextSegment(s)) ==> c.next_seg_ids.len() == s && (
        r matches CheckpointReplyView::Number(k) ==> stepped(c, r).next_seg_ids
            == c.next_seg_ids.push(k)),
        !(c.stage is Segments) ==> stepped(c, r).registry == c.registry,
        !(c.stage is NextSegment) ==> stepped(c, r).next_seg_ids == c.next_seg_ids,
        stepped(c, r).shards == c.shards,
{
}

/// The error of a shard or of the log is the error of the checkpoint.
pub proof fn law_a_checkpoint_fails_with_what_failed(c: CheckpointView, e: ShardErrorView)
    requires
        fits(c.stage, CheckpointReplyView::Failed(e)),
    ensures
        stepped(c, CheckpointReplyView::Failed(e)).stage == StageView::Failed(e),
{
}

} // verus!
