//! The cluster log: the ordered record of query mutations, and its format on disk.
//!
//! A log image is a header, `CMLG` and the format version, and then one frame per record. A
//! record's body is its position, an operation byte and a payload. Reading stops at the first
//! frame that is torn or does not decode; the records before it are kept.
use crate::codec::{
    copy_range, frame, frame_body, le_bytes, le_value, lemma_frame_round_trip,
    lemma_le_bytes_of_value, lemma_le_round_trip_4, lemma_le_round_trip_8, lemma_le_value_bound_4,
    lemma_le_value_bound_8, push_bytes, push_frame, push_le32, push_le64, read_frame, read_le32,
    read_le64, utf8_text, written_at, LogWrite,
};
use crate::ownership::{
    byte_mode, mode_byte, PlacementGeneration, QueryPlacement, QueryPlacementView,
};
use crate::shard::ShardError;
use crate::text::{decimal, push_decimal};
use vstd::prelude::*;
use vstd::utf8::{decode_utf8, encode_utf8, valid_utf8};

verus! {

/// The version of the format.
pub const CLOG_VERSION: u32 = 4;

/// The length of the header.
pub const CLOG_HEADER_SIZE: usize = 8;

const OP_ADD: u8 = 0;

const OP_REMOVE: u8 = 1;

const OP_UPSERT: u8 = 2;

/// A position in the log; zero is before the first record.
#[derive(Clone, Copy, PartialEq, Eq, PartialOrd, Ord, Debug, Default, Structural)]
pub struct LogPos(pub u64);

/// One mutation of the query set.
#[derive(Clone, Debug, PartialEq, Eq)]
pub enum ClusterMutation {
    /// Adds a query.
    Add {
        logical: u64,
        version: u32,
        dsl: String,
        tags: Vec<(String, String)>,
        placement: QueryPlacement,
    },
    /// Removes every live entry of a logical id.
    Remove { logical: u64 },
    /// Replaces a query by logical id, under one record.
    Upsert {
        logical: u64,
        version: u32,
        dsl: String,
        tags: Vec<(String, String)>,
        placement: QueryPlacement,
    },
}

/// What an added or replaced query carries.
#[verifier::ext_equal]
pub ghost struct RowView {
    pub logical: u64,
    pub version: u32,
    pub dsl: Seq<char>,
    pub tags: Seq<(Seq<char>, Seq<char>)>,
    pub placement: QueryPlacementView,
}

/// A mutation, as a mathematical value.
pub ghost enum MutationView {
    Add(RowView),
    Remove(u64),
    Upsert(RowView),
}

/// The tags as mathematical values.
pub open spec fn tags_view(tags: Seq<(String, String)>) -> Seq<(Seq<char>, Seq<char>)> {
    tags.map_values(|t: (String, String)| (t.0@, t.1@))
}

impl View for ClusterMutation {
    type V = MutationView;

    open spec fn view(&self) -> MutationView {
        match self {
            ClusterMutation::Add { logical, version, dsl, tags, placement } => MutationView::Add(
                RowView {
                    logical: *logical,
                    version: *version,
                    dsl: dsl@,
                    tags: tags_view(tags@),
                    placement: placement@,
                },
            ),
            ClusterMutation::Remove { logical } => MutationView::Remove(*logical),
            ClusterMutation::Upsert { logical, version, dsl, tags, placement } =>
                MutationView::Upsert(
                RowView {
                    logical: *logical,
                    version: *version,
                    dsl: dsl@,
                    tags: tags_view(tags@),
                    placement: placement@,
                },
            ),
        }
    }
}

/// The records as mathematical values.
pub open spec fn entries_view(entries: Seq<(LogPos, ClusterMutation)>) -> Seq<(u64, MutationView)> {
    entries.map_values(|e: (LogPos, ClusterMutation)| (e.0.0, e.1@))
}

// ---- writing ----

/// Length-prefixed UTF-8 text.
pub open spec fn text_bytes(t: Seq<char>) -> Seq<u8> {
    le_bytes(encode_utf8(t).len(), 4) + encode_utf8(t)
}

/// Key and value of every tag.
pub open spec fn tags_bytes(tags: Seq<(Seq<char>, Seq<char>)>) -> Seq<u8>
    decreases tags.len(),
{
    if tags.len() == 0 {
        Seq::empty()
    } else {
        text_bytes(tags[0].0) + text_bytes(tags[0].1) + tags_bytes(tags.skip(1))
    }
}

/// Every position, four bytes each.
pub open spec fn positions_bytes(positions: Seq<u32>) -> Seq<u8>
    decreases positions.len(),
{
    if positions.len() == 0 {
        Seq::empty()
    } else {
        le_bytes(positions[0] as nat, 4) + positions_bytes(positions.skip(1))
    }
}

/// The placement part of a payload.
pub open spec fn placement_bytes(p: QueryPlacementView) -> Seq<u8> {
    le_bytes(p.generation as nat, 8) + (le_bytes(p.num_shards as nat, 4) + (seq![mode_byte(p.mode)]
        + (le_bytes(p.positions.len(), 4) + positions_bytes(p.positions))))
}

/// The payload of an added or replaced query.
pub open spec fn row_bytes(r: RowView) -> Seq<u8> {
    le_bytes(r.logical as nat, 8) + (le_bytes(r.version as nat, 4) + (text_bytes(r.dsl) + (le_bytes(
        r.tags.len(),
        4,
    ) + (tags_bytes(r.tags) + placement_bytes(r.placement)))))
}

/// The body of the record of `m` at position `seq`.
pub open spec fn body_bytes(seq: u64, m: MutationView) -> Seq<u8> {
    le_bytes(seq as nat, 8) + match m {
        MutationView::Add(r) => seq![0u8] + row_bytes(r),
        MutationView::Remove(logical) => seq![1u8] + le_bytes(logical as nat, 8),
        MutationView::Upsert(r) => seq![2u8] + row_bytes(r),
    }
}

/// The header of a log image.
pub open spec fn header_bytes() -> Seq<u8> {
    seq![67u8, 77u8, 76u8, 71u8] + le_bytes(CLOG_VERSION as nat, 4)
}

/// The frames of `entries`, in order.
pub open spec fn frames(entries: Seq<(u64, MutationView)>) -> Seq<u8>
    decreases entries.len(),
{
    if entries.len() == 0 {
        Seq::empty()
    } else {
        frames(entries.drop_last()) + frame(body_bytes(entries.last().0, entries.last().1))
    }
}

/// The image of a log that holds `entries`.
pub open spec fn log_image(entries: Seq<(u64, MutationView)>) -> Seq<u8> {
    header_bytes() + frames(entries)
}

proof fn lemma_tags_bytes_push(tags: Seq<(Seq<char>, Seq<char>)>, t: (Seq<char>, Seq<char>))
    ensures
        tags_bytes(tags.push(t)) == tags_bytes(tags) + (text_bytes(t.0) + text_bytes(t.1)),
    decreases tags.len(),
{
    let whole = tags.push(t);
    if tags.len() == 0 {
        assert(whole.skip(1) =~= Seq::empty());
        assert(tags_bytes(whole.skip(1)) =~= Seq::empty());
        assert(tags_bytes(whole) =~= tags_bytes(tags) + (text_bytes(t.0) + text_bytes(t.1)));
    } else {
        lemma_tags_bytes_push(tags.skip(1), t);
        assert(whole.skip(1) =~= tags.skip(1).push(t));
        assert(tags_bytes(whole) =~= tags_bytes(tags) + (text_bytes(t.0) + text_bytes(t.1)));
    }
}

proof fn lemma_positions_bytes_push(positions: Seq<u32>, p: u32)
    ensures
        positions_bytes(positions.push(p)) == positions_bytes(positions) + le_bytes(p as nat, 4),
    decreases positions.len(),
{
    let whole = positions.push(p);
    if positions.len() == 0 {
        assert(whole.skip(1) =~= Seq::empty());
        assert(positions_bytes(whole.skip(1)) =~= Seq::empty());
        assert(positions_bytes(whole) =~= positions_bytes(positions) + le_bytes(p as nat, 4));
    } else {
        lemma_positions_bytes_push(positions.skip(1), p);
        assert(whole.skip(1) =~= positions.skip(1).push(p));
        assert(positions_bytes(whole) =~= positions_bytes(positions) + le_bytes(p as nat, 4));
    }
}

fn push_text(out: &mut Vec<u8>, t: &String)
    ensures
        final(out)@ == old(out)@ + text_bytes(t@),
{
    let b = t.as_str().as_bytes();
    let n: usize = b.len();
    push_le32(out, n as u64);
    push_bytes(out, b);
    assert(out@ =~= old(out)@ + text_bytes(t@));
}

#[verifier::spinoff_prover]
#[verifier::rlimit(60)]
fn push_row(
    out: &mut Vec<u8>,
    logical: u64,
    version: u32,
    dsl: &String,
    tags: &Vec<(String, String)>,
    placement: &QueryPlacement,
)
    ensures
        final(out)@ == old(out)@ + row_bytes(
            RowView { logical, version, dsl: dsl@, tags: tags_view(tags@), placement: placement@ },
        ),
{
    push_le64(out, logical);
    push_le32(out, version as u64);
    push_text(out, dsl);
    let n: usize = tags.len();
    push_le32(out, n as u64);
    let ghost head = out@;
    let ghost tv = tags_view(tags@);
    let mut i: usize = 0;
    assert(out@ =~= head + tags_bytes(tv.take(0)));
    while i < n
        invariant
            n == tags@.len(),
            tv == tags_view(tags@),
            i <= n,
            out@ == head + tags_bytes(tv.take(i as int)),
        decreases n - i,
    {
        push_text(out, &tags[i].0);
        push_text(out, &tags[i].1);
        proof {
            assert(tv.take(i + 1) =~= tv.take(i as int).push(tv[i as int]));
            lemma_tags_bytes_push(tv.take(i as int), tv[i as int]);
            assert(out@ =~= head + tags_bytes(tv.take(i + 1)));
        }
        i = i + 1;
    }
    assert(tv.take(n as int) =~= tv);
    let ghost tagged = out@;
    push_le64(out, placement.generation().0);
    push_le32(out, placement.num_shards() as u64);
    out.push(placement.mode().byte());
    let positions = placement.positions();
    let m: usize = positions.len();
    push_le32(out, m as u64);
    let ghost before = out@;
    let ghost ps = placement@.positions;
    let mut j: usize = 0;
    assert(out@ =~= before + positions_bytes(ps.take(0)));
    while j < m
        invariant
            m == positions@.len(),
            ps == positions@,
            j <= m,
            out@ == before + positions_bytes(ps.take(j as int)),
        decreases m - j,
    {
        push_le32(out, positions[j] as u64);
        proof {
            assert(ps.take(j + 1) =~= ps.take(j as int).push(ps[j as int]));
            lemma_positions_bytes_push(ps.take(j as int), ps[j as int]);
            assert(out@ =~= before + positions_bytes(ps.take(j + 1)));
        }
        j = j + 1;
    }
    assert(ps.take(m as int) =~= ps);
    assert(out@ =~= tagged + placement_bytes(placement@));
    assert(out@ =~= old(out)@ + row_bytes(
        RowView { logical, version, dsl: dsl@, tags: tags_view(tags@), placement: placement@ },
    ));
}

/// The body of the record of `m` at position `seq`.
pub fn encode_body(seq: u64, m: &ClusterMutation) -> (r: Vec<u8>)
    ensures
        r@ == body_bytes(seq, m@),
{
    let mut out: Vec<u8> = Vec::new();
    push_le64(&mut out, seq);
    match m {
        ClusterMutation::Add { logical, version, dsl, tags, placement } => {
            out.push(OP_ADD);
            push_row(&mut out, *logical, *version, dsl, tags, placement);
        },
        ClusterMutation::Upsert { logical, version, dsl, tags, placement } => {
            out.push(OP_UPSERT);
            push_row(&mut out, *logical, *version, dsl, tags, placement);
        },
        ClusterMutation::Remove { logical } => {
            out.push(OP_REMOVE);
            push_le64(&mut out, *logical);
        },
    }
    assert(out@ =~= body_bytes(seq, m@));
    out
}

// ---- reading ----

/// The number in the first four bytes, and what follows.
pub open spec fn take_u32(s: Seq<u8>) -> Option<(u32, Seq<u8>)> {
    if s.len() < 4 {
        None
    } else {
        Some((le_value(s.take(4)) as u32, s.skip(4)))
    }
}

/// The number in the first eight bytes, and what follows.
pub open spec fn take_u64(s: Seq<u8>) -> Option<(u64, Seq<u8>)> {
    if s.len() < 8 {
        None
    } else {
        Some((le_value(s.take(8)) as u64, s.skip(8)))
    }
}

/// The length-prefixed text at the head, and what follows.
pub open spec fn take_text(s: Seq<u8>) -> Option<(Seq<char>, Seq<u8>)> {
    match take_u32(s) {
        Some((n, rest)) => if rest.len() < n || !valid_utf8(rest.take(n as int)) {
            None
        } else {
            Some((decode_utf8(rest.take(n as int)), rest.skip(n as int)))
        },
        None => None,
    }
}

/// The tag at the head, and what follows.
pub open spec fn take_tag(s: Seq<u8>) -> Option<((Seq<char>, Seq<char>), Seq<u8>)> {
    match take_text(s) {
        Some((k, rest)) => match take_text(rest) {
            Some((v, after)) => Some(((k, v), after)),
            None => None,
        },
        None => None,
    }
}

/// The `n` tags at the head, and what follows.
pub open spec fn take_tags(s: Seq<u8>, n: nat) -> Option<(Seq<(Seq<char>, Seq<char>)>, Seq<u8>)>
    decreases n,
{
    if n == 0 {
        Some((Seq::empty(), s))
    } else {
        match take_tag(s) {
            Some((t, rest)) => match take_tags(rest, (n - 1) as nat) {
                Some((more, after)) => Some((seq![t] + more, after)),
                None => None,
            },
            None => None,
        }
    }
}

/// The `n` four-byte numbers at the head, and what follows.
pub open spec fn take_u32s(s: Seq<u8>, n: nat) -> Option<(Seq<u32>, Seq<u8>)>
    decreases n,
{
    if n == 0 {
        Some((Seq::empty(), s))
    } else {
        match take_u32(s) {
            Some((x, rest)) => match take_u32s(rest, (n - 1) as nat) {
                Some((more, after)) => Some((seq![x] + more, after)),
                None => None,
            },
            None => None,
        }
    }
}

/// The placement at the head; it must end the payload and be valid.
pub open spec fn take_placement(s: Seq<u8>) -> Option<QueryPlacementView> {
    match take_u64(s) {
        Some((generation, s1)) => match take_u32(s1) {
            Some((num_shards, s2)) => if s2.len() < 1 {
                None
            } else {
                match take_u32(s2.skip(1)) {
                    Some((count, s3)) => match take_u32s(s3, count as nat) {
                        Some((positions, s4)) => match byte_mode(s2[0]) {
                            Some(mode) => {
                                let p = QueryPlacementView {
                                    generation,
                                    num_shards,
                                    mode,
                                    positions,
                                };
                                if s4.len() == 0 && p.valid() {
                                    Some(p)
                                } else {
                                    None
                                }
                            },
                            None => None,
                        },
                        None => None,
                    },
                    None => None,
                }
            },
            None => None,
        },
        None => None,
    }
}

/// The row that a payload holds.
pub open spec fn take_row(s: Seq<u8>) -> Option<RowView> {
    match take_u64(s) {
        Some((logical, s1)) => match take_u32(s1) {
            Some((version, s2)) => match take_text(s2) {
                Some((dsl, s3)) => match take_u32(s3) {
                    Some((count, s4)) => match take_tags(s4, count as nat) {
                        Some((tags, s5)) => match take_placement(s5) {
                            Some(placement) => Some(
                                RowView { logical, version, dsl, tags, placement },
                            ),
                            None => None,
                        },
                        None => None,
                    },
                    None => None,
                },
                None => None,
            },
            None => None,
        },
        None => None,
    }
}

/// The record that a body holds.
pub open spec fn decode_body(body: Seq<u8>) -> Option<(u64, MutationView)> {
    if body.len() < 9 {
        None
    } else {
        let seq = le_value(body.take(8)) as u64;
        let payload = body.skip(9);
        if body[8] == 0 {
            match take_row(payload) {
                Some(r) => Some((seq, MutationView::Add(r))),
                None => None,
            }
        } else if body[8] == 2 {
            match take_row(payload) {
                Some(r) => Some((seq, MutationView::Upsert(r))),
                None => None,
            }
        } else if body[8] == 1 {
            match take_u64(payload) {
                Some((logical, _)) => Some((seq, MutationView::Remove(logical))),
                None => None,
            }
        } else {
            None
        }
    }
}

/// The record at the head of `data`, and the length of its body.
pub open spec fn head_record(data: Seq<u8>) -> Option<((u64, MutationView), nat)> {
    match frame_body(data) {
        Some(body) => match decode_body(body) {
            Some(e) => Some((e, body.len())),
            None => None,
        },
        None => None,
    }
}

/// The records that the frames in `data` hold, up to the first that cannot be read.
pub open spec fn decoded(data: Seq<u8>) -> Seq<(u64, MutationView)>
    decreases data.len(),
{
    match head_record(data) {
        Some((e, n)) => seq![e] + decoded(data.skip(8 + n as int)),
        None => Seq::empty(),
    }
}

/// The number of bytes behind the last record that can be read: the length of the torn tail.
pub open spec fn skipped(data: Seq<u8>) -> nat
    decreases data.len(),
{
    match head_record(data) {
        Some((_, n)) => skipped(data.skip(8 + n as int)),
        None => data.len(),
    }
}

fn parse_u32(b: &Vec<u8>, at: usize) -> (r: Option<u32>)
    requires
        at <= b@.len(),
    ensures
        match take_u32(b@.skip(at as int)) {
            Some((n, rest)) => r == Some(n) && at + 4 <= b@.len() <= usize::MAX && rest == b@.skip(at + 4),
            None => r is None,
        },
{
    if b.len() - at < 4 {
        return None;
    }
    proof {
        let s = b@.skip(at as int);
        lemma_le_value_bound_4(s.take(4));
        assert(s.take(4) =~= b@.subrange(at as int, at + 4));
        assert(s.skip(4) =~= b@.skip(at + 4));
    }
    Some(read_le32(b.as_slice(), at))
}

fn parse_u64(b: &Vec<u8>, at: usize) -> (r: Option<u64>)
    requires
        at <= b@.len(),
    ensures
        match take_u64(b@.skip(at as int)) {
            Some((n, rest)) => r == Some(n) && at + 8 <= b@.len() <= usize::MAX && rest == b@.skip(at + 8),
            None => r is None,
        },
{
    if b.len() - at < 8 {
        return None;
    }
    proof {
        let s = b@.skip(at as int);
        lemma_le_value_bound_8(s.take(8));
        assert(s.take(8) =~= b@.subrange(at as int, at + 8));
        assert(s.skip(8) =~= b@.skip(at + 8));
    }
    Some(read_le64(b.as_slice(), at))
}

fn parse_text(b: &Vec<u8>, at: usize) -> (r: Option<(String, usize)>)
    requires
        at <= b@.len(),
    ensures
        match take_text(b@.skip(at as int)) {
            Some((t, rest)) => r matches Some((s, next)) && s@ == t && next <= b@.len() && rest
                == b@.skip(next as int),
            None => r is None,
        },
{
    let n: usize = match parse_u32(b, at) {
        Some(n) => n as usize,
        None => {
            return None;
        },
    };
    let start: usize = at + 4;
    let ghost rest = b@.skip(at + 4);
    if b.len() - start < n {
        return None;
    }
    let raw = copy_range(b.as_slice(), start, start + n);
    proof {
        assert(raw@ =~= rest.take(n as int));
        assert(rest.skip(n as int) =~= b@.skip(start + n));
    }
    match utf8_text(raw) {
        Some(s) => Some((s, start + n)),
        None => None,
    }
}

fn parse_tags(b: &Vec<u8>, at: usize, n: u32) -> (r: Option<(Vec<(String, String)>, usize)>)
    requires
        at <= b@.len(),
    ensures
        match take_tags(b@.skip(at as int), n as nat) {
            Some((t, rest)) => r matches Some((v, next)) && tags_view(v@) == t && next <= b@.len()
                && rest == b@.skip(next as int),
            None => r is None,
        },
{
    let ghost whole = take_tags(b@.skip(at as int), n as nat);
    let mut tags: Vec<(String, String)> = Vec::new();
    let mut off: usize = at;
    let mut i: u32 = 0;
    proof {
        match whole {
            Some((t, _)) => {
                assert(tags_view(tags@) + t =~= t);
            },
            None => {},
        }
    }
    while i < n
        invariant
            i <= n,
            off <= b@.len(),
            whole == take_tags(b@.skip(at as int), n as nat),
            match take_tags(b@.skip(off as int), (n - i) as nat) {
                Some((t, rest)) => whole == Some((tags_view(tags@) + t, rest)),
                None => whole is None,
            },
        decreases n - i,
    {
        let ghost here = b@.skip(off as int);
        let (k, mid) = match parse_text(b, off) {
            Some(p) => p,
            None => {
                return None;
            },
        };
        let (v, next) = match parse_text(b, mid) {
            Some(p) => p,
            None => {
                return None;
            },
        };
        let ghost before = tags@;
        proof {
            let t = (k@, v@);
            assert(take_tag(here) == Some((t, b@.skip(next as int))));
        }
        tags.push((k, v));
        proof {
            let t = (k@, v@);
            assert(tags_view(tags@) =~= tags_view(before).push(t));
            match take_tags(b@.skip(next as int), (n - i - 1) as nat) {
                Some((more, after)) => {
                    assert(tags_view(before) + (seq![t] + more) =~= tags_view(tags@) + more);
                },
                None => {},
            }
        }
        off = next;
        i = i + 1;
    }
    proof {
        assert(tags_view(tags@) + Seq::<(Seq<char>, Seq<char>)>::empty() =~= tags_view(tags@));
    }
    Some((tags, off))
}

fn parse_u32s(b: &Vec<u8>, at: usize, n: u32) -> (r: Option<(Vec<u32>, usize)>)
    requires
        at <= b@.len(),
    ensures
        match take_u32s(b@.skip(at as int), n as nat) {
            Some((t, rest)) => r matches Some((v, next)) && v@ == t && next <= b@.len() && rest
                == b@.skip(next as int),
            None => r is None,
        },
{
    let ghost whole = take_u32s(b@.skip(at as int), n as nat);
    let mut out: Vec<u32> = Vec::new();
    let mut off: usize = at;
    let mut i: u32 = 0;
    proof {
        match whole {
            Some((t, _)) => {
                assert(out@ + t =~= t);
            },
            None => {},
        }
    }
    while i < n
        invariant
            i <= n,
            off <= b@.len(),
            whole == take_u32s(b@.skip(at as int), n as nat),
            match take_u32s(b@.skip(off as int), (n - i) as nat) {
                Some((t, rest)) => whole == Some((out@ + t, rest)),
                None => whole is None,
            },
        decreases n - i,
    {
        let x: u32 = match parse_u32(b, off) {
            Some(x) => x,
            None => {
                return None;
            },
        };
        let ghost before = out@;
        out.push(x);
        proof {
            match take_u32s(b@.skip(off + 4), (n - i - 1) as nat) {
                Some((more, after)) => {
                    assert(before + (seq![x] + more) =~= out@ + more);
                },
                None => {},
            }
        }
        off = off + 4;
        i = i + 1;
    }
    proof {
        assert(out@ + Seq::<u32>::empty() =~= out@);
    }
    Some((out, off))
}

fn parse_placement(b: &Vec<u8>, at: usize) -> (r: Option<QueryPlacement>)
    requires
        at <= b@.len(),
    ensures
        match take_placement(b@.skip(at as int)) {
            Some(p) => r matches Some(q) && q@ == p,
            None => r is None,
        },
{
    let generation: u64 = match parse_u64(b, at) {
        Some(x) => x,
        None => {
            return None;
        },
    };
    let num_shards: u32 = match parse_u32(b, at + 8) {
        Some(x) => x,
        None => {
            return None;
        },
    };
    let m: usize = at + 12;
    if b.len() - m < 1 {
        return None;
    }
    let mode: u8 = b[m];
    assert(b@.skip(m as int).skip(1) =~= b@.skip(m + 1));
    let count: u32 = match parse_u32(b, m + 1) {
        Some(x) => x,
        None => {
            return None;
        },
    };
    let (positions, end) = match parse_u32s(b, m + 5, count) {
        Some(p) => p,
        None => {
            return None;
        },
    };
    if end != b.len() {
        return None;
    }
    QueryPlacement::from_raw(PlacementGeneration(generation), num_shards, mode, positions)
}

fn parse_row(b: &Vec<u8>, at: usize) -> (r: Option<
    (u64, u32, String, Vec<(String, String)>, QueryPlacement),
>)
    requires
        at <= b@.len(),
    ensures
        match take_row(b@.skip(at as int)) {
            Some(row) => r matches Some((logical, version, dsl, tags, placement)) && row == (
            RowView {
                logical,
                version,
                dsl: dsl@,
                tags: tags_view(tags@),
                placement: placement@,
            }),
            None => r is None,
        },
{
    let logical: u64 = match parse_u64(b, at) {
        Some(x) => x,
        None => {
            return None;
        },
    };
    let version: u32 = match parse_u32(b, at + 8) {
        Some(x) => x,
        None => {
            return None;
        },
    };
    let (dsl, t) = match parse_text(b, at + 12) {
        Some(p) => p,
        None => {
            return None;
        },
    };
    let count: u32 = match parse_u32(b, t) {
        Some(x) => x,
        None => {
            return None;
        },
    };
    let (tags, p) = match parse_tags(b, t + 4, count) {
        Some(p) => p,
        None => {
            return None;
        },
    };
    match parse_placement(b, p) {
        Some(placement) => Some((logical, version, dsl, tags, placement)),
        None => None,
    }
}

/// The record that a body holds.
pub fn parse_body(body: &Vec<u8>) -> (r: Option<(LogPos, ClusterMutation)>)
    ensures
        match decode_body(body@) {
            Some((seq, m)) => r matches Some((pos, x)) && pos.0 == seq && x@ == m,
            None => r is None,
        },
{
    if body.len() < 9 {
        return None;
    }
    let seq: u64 = read_le64(body.as_slice(), 0);
    assert(body@.take(8) =~= body@.subrange(0, 8));
    let op: u8 = body[8];
    if op == OP_ADD {
        match parse_row(body, 9) {
            Some((logical, version, dsl, tags, placement)) => Some(
                (LogPos(seq), ClusterMutation::Add { logical, version, dsl, tags, placement }),
            ),
            None => None,
        }
    } else if op == OP_UPSERT {
        match parse_row(body, 9) {
            Some((logical, version, dsl, tags, placement)) => Some(
                (LogPos(seq), ClusterMutation::Upsert { logical, version, dsl, tags, placement }),
            ),
            None => None,
        }
    } else if op == OP_REMOVE {
        match parse_u64(body, 9) {
            Some(logical) => Some((LogPos(seq), ClusterMutation::Remove { logical })),
            None => None,
        }
    } else {
        None
    }
}

/// The records in a run of frames and the number of bytes behind them that were skipped.
pub fn parse_entries(data: &[u8]) -> (r: (Vec<(LogPos, ClusterMutation)>, usize))
    ensures
        entries_view(r.0@) == decoded(data@),
        r.1 == skipped(data@),
{
    let n: usize = data.len();
    let mut entries: Vec<(LogPos, ClusterMutation)> = Vec::new();
    let mut cursor: usize = 0;
    assert(data@.skip(0) =~= data@);
    assert(entries_view(entries@) + decoded(data@) =~= decoded(data@));
    loop
        invariant
            n == data@.len(),
            cursor <= n,
            entries_view(entries@) + decoded(data@.skip(cursor as int)) == decoded(data@),
            skipped(data@.skip(cursor as int)) == skipped(data@),
        decreases n - cursor,
    {
        let ghost rest = data@.skip(cursor as int);
        let head = match read_frame(data, cursor) {
            Some(body) => match parse_body(&body) {
                Some(e) => Some((e, body.len())),
                None => None,
            },
            None => None,
        };
        match head {
            Some((e, len)) => {
                let ghost before = entries@;
                proof {
                    assert(head_record(rest) == Some(((e.0.0, e.1@), len as nat)));
                    assert(8 + len <= rest.len());
                    assert(rest.skip(8 + len as int) =~= data@.skip(cursor + 8 + len));
                }
                let ghost ev = (e.0.0, e.1@);
                entries.push(e);
                proof {
                    assert(entries_view(entries@) =~= entries_view(before).push(ev));
                    assert(entries_view(before) + (seq![ev] + decoded(
                        data@.skip(cursor + 8 + len),
                    )) =~= entries_view(entries@) + decoded(data@.skip(cursor + 8 + len)));
                }
                cursor = cursor + 8 + len;
            },
            None => {
                proof {
                    assert(head_record(rest) is None);
                    assert(entries_view(entries@) + Seq::<(u64, MutationView)>::empty()
                        =~= entries_view(entries@));
                }
                return (entries, n - cursor);
            },
        }
    }
}

/// Why a log image cannot be read at all.
#[derive(Clone, Copy, Debug, PartialEq, Eq, Structural)]
pub enum LogFormatError {
    /// Shorter than the header.
    TooSmall,
    /// The first four bytes are not `CMLG`.
    BadMagic,
    /// A version before placement was recorded.
    Predates(u32),
    /// A version that is not known yet.
    Unsupported(u32),
}

/// The text of a [`LogFormatError`].
pub open spec fn format_error_text(e: LogFormatError) -> Seq<char> {
    match e {
        LogFormatError::TooSmall => "clog too small"@,
        LogFormatError::BadMagic => "bad clog magic"@,
        LogFormatError::Predates(v) => "cluster log format v"@ + decimal(v as nat)
            + " predates ADR-109 ownership metadata; rebuild the cluster with this binary"@,
        LogFormatError::Unsupported(v) => "unsupported cluster log format v"@ + decimal(v as nat),
    }
}

impl LogFormatError {
    /// The text of the error.
    pub fn message(&self) -> (r: String)
        ensures
            r@ == format_error_text(*self),
    {
        match self {
            LogFormatError::TooSmall => String::from_str("clog too small"),
            LogFormatError::BadMagic => String::from_str("bad clog magic"),
            LogFormatError::Predates(v) => {
                let mut s = String::from_str("cluster log format v");
                push_decimal(&mut s, *v as u64);
                s.append(
                    " predates ADR-109 ownership metadata; rebuild the cluster with this binary",
                );
                s
            },
            LogFormatError::Unsupported(v) => {
                let mut s = String::from_str("unsupported cluster log format v");
                push_decimal(&mut s, *v as u64);
                s
            },
        }
    }
}

/// What is wrong with the header of a log image.
pub open spec fn header_error(data: Seq<u8>) -> Option<LogFormatError> {
    if data.len() < 8 {
        Some(LogFormatError::TooSmall)
    } else if data.take(4) != seq![67u8, 77u8, 76u8, 71u8] {
        Some(LogFormatError::BadMagic)
    } else {
        let version = le_value(data.subrange(4, 8));
        if version < CLOG_VERSION {
            Some(LogFormatError::Predates(version as u32))
        } else if version > CLOG_VERSION {
            Some(LogFormatError::Unsupported(version as u32))
        } else {
            None
        }
    }
}

/// Reads a log image: its records, and the number of trailing bytes that were skipped.
pub fn read_entries(data: &[u8]) -> (r: Result<
    (Vec<(LogPos, ClusterMutation)>, usize),
    LogFormatError,
>)
    ensures
        match header_error(data@) {
            Some(e) => r == Err::<(Vec<(LogPos, ClusterMutation)>, usize), LogFormatError>(e),
            None => r matches Ok((entries, torn)) && entries_view(entries@) == decoded(
                data@.skip(8),
            ) && torn == skipped(data@.skip(8)),
        },
{
    let n: usize = data.len();
    if n < CLOG_HEADER_SIZE {
        return Err(LogFormatError::TooSmall);
    }
    let ghost magic = seq![67u8, 77u8, 76u8, 71u8];
    if !(data[0] == 67 && data[1] == 77 && data[2] == 76 && data[3] == 71) {
        proof {
            if data@.take(4) == magic {
                assert(data@.take(4)[0] == magic[0]);
                assert(data@.take(4)[1] == magic[1]);
                assert(data@.take(4)[2] == magic[2]);
                assert(data@.take(4)[3] == magic[3]);
            }
        }
        return Err(LogFormatError::BadMagic);
    }
    assert(data@.take(4) =~= magic);
    let version: u32 = read_le32(data, 4);
    if version < CLOG_VERSION {
        return Err(LogFormatError::Predates(version));
    }
    if version > CLOG_VERSION {
        return Err(LogFormatError::Unsupported(version));
    }
    let body = copy_range(data, CLOG_HEADER_SIZE, n);
    assert(body@ =~= data@.skip(8));
    Ok(parse_entries(body.as_slice()))
}

/// The records behind position `from`.
pub open spec fn after(entries: Seq<(u64, MutationView)>, from: u64) -> Seq<(u64, MutationView)> {
    entries.filter(|e: (u64, MutationView)| e.0 > from)
}

/// Keeps the records behind position `from`.
pub fn keep_after(entries: Vec<(LogPos, ClusterMutation)>, from: LogPos) -> (r: Vec<
    (LogPos, ClusterMutation),
>)
    ensures
        entries_view(r@) == after(entries_view(entries@), from.0),
{
    let ghost all = entries@;
    let ghost view = |e: (LogPos, ClusterMutation)| (e.0.0, e.1@);
    let ghost keep = |e: (LogPos, ClusterMutation)| e.0.0 > from.0;
    let ghost keep_view = |e: (u64, MutationView)| e.0 > from.0;
    let mut kept: Vec<(LogPos, ClusterMutation)> = Vec::new();
    proof {
        assert(kept@ =~= all.take(0).filter(keep)) by {
            reveal(Seq::filter);
        }
    }
    for e in it: entries.into_iter()
        invariant
            it.seq() == all,
            keep == (|e: (LogPos, ClusterMutation)| e.0.0 > from.0),
            kept@ == all.take(it.index()).filter(keep),
    {
        proof {
            crate::seqs::lemma_filter_step(all, keep, it.index());
        }
        if e.0.0 > from.0 {
            kept.push(e);
        }
    }
    proof {
        assert(all.take(all.len() as int) =~= all);
        crate::seqs::lemma_filter_map(all, keep, view, keep_view);
        assert(entries_view(kept@) =~= kept@.map_values(view));
        assert(entries_view(all) =~= all.map_values(view));
    }
    kept
}

/// What a replay gives: the records to apply, oldest first, and the torn tail.
#[derive(Debug)]
pub struct ClusterReplay {
    pub entries: Vec<(LogPos, ClusterMutation)>,
    pub skipped_bytes: usize,
}

/// The position counter of a log on disk. What is on disk is handed in as an image, and what is to
/// be written is handed out as bytes.
#[derive(Debug)]
pub struct FileClusterLog {
    next_seq: u64,
    end: u64,
}

/// Where the records that can be read end in a log image. What is behind is a torn tail.
pub open spec fn sound_end(image: Seq<u8>) -> nat {
    (image.len() - skipped(image.skip(8))) as nat
}

/// A log file whose first `end` bytes are a header and whole records. Behind them may be what a
/// crash or a failed write left.
pub open spec fn sound(file: Seq<u8>, end: nat) -> bool {
    &&& 8 <= end <= file.len()
    &&& header_error(file.take(end as int)) is None
    &&& skipped(file.take(end as int).skip(8)) == 0
}

/// The records in the sound part of a log file.
pub open spec fn sound_records(file: Seq<u8>, end: nat) -> Seq<(u64, MutationView)> {
    decoded(file.take(end as int).skip(8))
}

/// The highest position among `entries`, or `floor` where that is higher.
pub open spec fn highest(entries: Seq<(u64, MutationView)>, floor: u64) -> u64
    decreases entries.len(),
{
    if entries.len() == 0 {
        floor
    } else {
        let h = highest(entries.drop_last(), floor);
        if entries.last().0 > h {
            entries.last().0
        } else {
            h
        }
    }
}

/// The highest position among `entries`, or `floor` where that is higher.
fn highest_position(entries: &Vec<(LogPos, ClusterMutation)>, floor: u64) -> (r: u64)
    ensures
        r == highest(entries_view(entries@), floor),
{
    let mut top: u64 = floor;
    let n: usize = entries.len();
    let ghost ev = entries_view(entries@);
    let mut i: usize = 0;
    assert(ev.take(0).len() == 0);
    while i < n
        invariant
            n == entries@.len(),
            ev == entries_view(entries@),
            i <= n,
            top == highest(ev.take(i as int), floor),
        decreases n - i,
    {
        proof {
            assert(ev.take(i + 1).drop_last() =~= ev.take(i as int));
        }
        if entries[i].0.0 > top {
            top = entries[i].0.0;
        }
        i = i + 1;
    }
    assert(ev.take(n as int) =~= ev);
    top
}

impl FileClusterLog {
    /// The position that the next record gets.
    pub closed spec fn next(self) -> u64 {
        self.next_seq
    }

    /// The image of an empty log.
    pub fn empty_image() -> (r: Vec<u8>)
        ensures
            r@ == log_image(Seq::empty()),
    {
        let mut r: Vec<u8> = Vec::new();
        r.push(67);
        r.push(77);
        r.push(76);
        r.push(71);
        push_le32(&mut r, CLOG_VERSION as u64);
        assert(r@ =~= log_image(Seq::empty()));
        r
    }

    /// Where the next record is to be written: at the end of the records that can be read. What is
    /// in the file behind that point is cut off first.
    pub closed spec fn end_spec(self) -> u64 {
        self.end
    }

    /// Where the next record is to be written.
    pub fn end(&self) -> (r: u64)
        ensures
            r == self.end_spec(),
    {
        self.end
    }

    /// Opens a log. Positions go on behind both the records and `floor_pos`, the position up to which
    /// a snapshot holds everything. Writing goes on behind the last record that can be read, so that
    /// a torn tail never stands before a record that is written later.
    pub fn open(image: &[u8], floor_pos: LogPos) -> (r: Result<Self, LogFormatError>)
        requires
            header_error(image@) is None ==> highest(decoded(image@.skip(8)), floor_pos.0)
                < u64::MAX,
        ensures
            match header_error(image@) {
                Some(e) => r == Err::<Self, LogFormatError>(e),
                None => r matches Ok(log) && log.next() == highest(
                    decoded(image@.skip(8)),
                    floor_pos.0,
                ) + 1 && log.end_spec() == sound_end(image@),
            },
    {
        let n: usize = image.len();
        let (entries, torn) = match read_entries(image) {
            Ok(v) => v,
            Err(e) => return Err(e),
        };
        let top: u64 = highest_position(&entries, floor_pos.0);
        proof {
            lemma_skipped_bound(image@.skip(8));
        }
        Ok(FileClusterLog { next_seq: top + 1, end: (n - torn) as u64 })
    }

    /// Whether a log can be opened: whether positions are left behind its records and `floor_pos`.
    pub fn has_positions(image: &[u8], floor_pos: LogPos) -> (r: bool)
        ensures
            r == (header_error(image@) is None ==> highest(decoded(image@.skip(8)), floor_pos.0)
                < u64::MAX),
    {
        match read_entries(image) {
            Ok((entries, _)) => highest_position(&entries, floor_pos.0) < u64::MAX,
            Err(_) => true,
        }
    }

    /// Goes on writing at the end of an image that has replaced the file.
    pub fn resume(&mut self, image: &[u8])
        requires
            header_error(image@) is None,
        ensures
            final(self).next() == old(self).next(),
            final(self).end_spec() == sound_end(image@),
    {
        let n: usize = image.len();
        proof {
            lemma_skipped_bound(image@.skip(8));
        }
        if let Ok((_, torn)) = read_entries(image) {
            self.end = (n - torn) as u64;
        }
    }

    /// What appending `m` does to the file: its frame, at the position that it will get, goes behind
    /// the last record that can be read.
    pub fn frame_of(&self, m: &ClusterMutation) -> (r: LogWrite)
        ensures
            r.at == self.end_spec(),
            r.bytes@ == frame(body_bytes(self.next(), m@)),
    {
        let body = encode_body(self.next_seq, m);
        let mut r: Vec<u8> = Vec::new();
        push_frame(&mut r, &body);
        assert(r@ =~= frame(body@));
        LogWrite { at: self.end, bytes: r }
    }

    /// Takes note of how writing at the end went. Only a durable write is given its position;
    /// a failed one leaves the position free, and the next write starts where it started.
    pub fn append(&mut self, write: &LogWrite, written: Result<(), String>) -> (r: Result<
        LogPos,
        ShardError,
    >)
        requires
            old(self).next() < u64::MAX,
            write.at == old(self).end_spec(),
            write.at + write.bytes@.len() <= u64::MAX,
        ensures
            match written {
                Ok(_) => r == Ok::<LogPos, ShardError>(LogPos(old(self).next()))
                    && final(self).next() == old(self).next() + 1 && final(self).end_spec()
                    == write.at + write.bytes@.len(),
                Err(e) => (r matches Err(x) && x@ == crate::shard::ShardErrorView::Log(
                    "append: "@ + e@,
                )) && *final(self) == *old(self),
            },
    {
        match written {
            Ok(_) => {
                let pos = LogPos(self.next_seq);
                self.next_seq = self.next_seq + 1;
                self.end = self.end + write.bytes.len() as u64;
                Ok(pos)
            },
            Err(e) => {
                let mut m = String::from_str("append: ");
                m.append(e.as_str());
                Err(ShardError::Log(m))
            },
        }
    }

    /// Replays every record of `image` behind `from`, oldest first.
    pub fn replay(image: &[u8], from: LogPos) -> (r: Result<ClusterReplay, ShardError>)
        ensures
            match header_error(image@) {
                Some(e) => r matches Err(x) && x@ == crate::shard::ShardErrorView::Log(
                    "replay: "@ + format_error_text(e),
                ),
                None => r matches Ok(p) && entries_view(p.entries@) == after(
                    decoded(image@.skip(8)),
                    from.0,
                ) && p.skipped_bytes == skipped(image@.skip(8)),
            },
    {
        match read_entries(image) {
            Ok((all, skipped_bytes)) => {
                let entries = keep_after(all, from);
                Ok(ClusterReplay { entries, skipped_bytes })
            },
            Err(e) => {
                let mut m = String::from_str("replay: ");
                m.append(e.message().as_str());
                Err(ShardError::Log(m))
            },
        }
    }

    /// The highest position that was given out.
    pub fn last_pos(&self) -> (r: LogPos)
        ensures
            r.0 == if self.next() == 0 {
                0
            } else {
                self.next() - 1
            },
    {
        if self.next_seq == 0 {
            LogPos(0)
        } else {
            LogPos(self.next_seq - 1)
        }
    }

    /// The image that replaces `image` once everything up to `up_to` is in a snapshot: the records
    /// behind `up_to`, without the torn tail.
    pub fn checkpoint(image: &[u8], up_to: LogPos) -> (r: Result<Vec<u8>, ShardError>)
        ensures
            match header_error(image@) {
                Some(e) => r matches Err(x) && x@ == crate::shard::ShardErrorView::Log(
                    "checkpoint read: "@ + format_error_text(e),
                ),
                None => r matches Ok(b) && b@ == log_image(
                    after(decoded(image@.skip(8)), up_to.0),
                ),
            },
    {
        let kept = match read_entries(image) {
            Ok((all, _)) => keep_after(all, up_to),
            Err(e) => {
                let mut m = String::from_str("checkpoint read: ");
                m.append(e.message().as_str());
                return Err(ShardError::Log(m));
            },
        };
        let mut out = FileClusterLog::empty_image();
        let ghost ev = entries_view(kept@);
        let n: usize = kept.len();
        let mut i: usize = 0;
        assert(ev.take(0) =~= Seq::empty());
        while i < n
            invariant
                n == kept@.len(),
                ev == entries_view(kept@),
                i <= n,
                out@ == log_image(ev.take(i as int)),
            decreases n - i,
        {
            let body = encode_body(kept[i].0.0, &kept[i].1);
            push_frame(&mut out, &body);
            proof {
                assert(ev.take(i + 1).drop_last() =~= ev.take(i as int));
                assert(out@ =~= log_image(ev.take(i + 1)));
            }
            i = i + 1;
        }
        assert(ev.take(n as int) =~= ev);
        Ok(out)
    }
}

/// A log that keeps nothing: it gives out positions and replays empty.
#[derive(Debug)]
pub struct NullClusterLog {
    next_seq: u64,
}

impl NullClusterLog {
    /// The position that the next record gets.
    pub closed spec fn next(self) -> u64 {
        self.next_seq
    }

    /// A log whose first position is one.
    pub fn new() -> (r: Self)
        ensures
            r.next() == 1,
    {
        NullClusterLog { next_seq: 1 }
    }

    /// Gives out the next position.
    pub fn append(&mut self, _m: &ClusterMutation) -> (r: Result<LogPos, ShardError>)
        requires
            old(self).next() < u64::MAX,
        ensures
            r == Ok::<LogPos, ShardError>(LogPos(old(self).next())),
            final(self).next() == old(self).next() + 1,
    {
        let pos = LogPos(self.next_seq);
        self.next_seq = self.next_seq + 1;
        Ok(pos)
    }

    /// Nothing was kept, so nothing is replayed.
    pub fn replay(&self, _from: LogPos) -> (r: Result<ClusterReplay, ShardError>)
        ensures
            r matches Ok(p) && p.entries@.len() == 0 && p.skipped_bytes == 0,
    {
        Ok(ClusterReplay { entries: Vec::new(), skipped_bytes: 0 })
    }

    /// The highest position that was given out.
    pub fn last_pos(&self) -> (r: Result<LogPos, ShardError>)
        ensures
            r matches Ok(p) && p.0 == if self.next() == 0 {
                0
            } else {
                self.next() - 1
            },
    {
        if self.next_seq == 0 {
            Ok(LogPos(0))
        } else {
            Ok(LogPos(self.next_seq - 1))
        }
    }

    /// There is nothing to drop.
    pub fn checkpoint(&mut self, _up_to: LogPos) -> (r: Result<(), ShardError>)
        ensures
            r is Ok,
            *final(self) == *old(self),
    {
        Ok(())
    }
}

// ---- laws ----

/// A record that fits a frame: its body has a four-byte length and its placement is valid.
pub open spec fn writable(e: (u64, MutationView)) -> bool {
    &&& body_bytes(e.0, e.1).len() <= u32::MAX
    &&& match e.1 {
        MutationView::Add(r) => r.placement.valid(),
        MutationView::Upsert(r) => r.placement.valid(),
        MutationView::Remove(_) => true,
    }
}

proof fn lemma_regroup(a: Seq<u8>, b: Seq<u8>, c: Seq<u8>, d: Seq<u8>)
    ensures
        (a + b + c) + d == a + (b + (c + d)),
{
    assert((a + b + c) + d =~= a + (b + (c + d)));
}

proof fn lemma_shift_last<A>(s: Seq<A>, t: Seq<A>)
    requires
        s.len() > 0,
    ensures
        s.drop_last() + (seq![s.last()] + t) == s + t,
{
    assert(s.drop_last() + (seq![s.last()] + t) =~= s + t);
}

proof fn lemma_take_u32(n: u32, rest: Seq<u8>)
    ensures
        take_u32(le_bytes(n as nat, 4) + rest) == Some((n, rest)),
{
    let s = le_bytes(n as nat, 4) + rest;
    lemma_le_round_trip_4(n as nat);
    assert(s.take(4) =~= le_bytes(n as nat, 4));
    assert(s.skip(4) =~= rest);
}

proof fn lemma_take_u64(n: u64, rest: Seq<u8>)
    ensures
        take_u64(le_bytes(n as nat, 8) + rest) == Some((n, rest)),
{
    let s = le_bytes(n as nat, 8) + rest;
    lemma_le_round_trip_8(n as nat);
    assert(s.take(8) =~= le_bytes(n as nat, 8));
    assert(s.skip(8) =~= rest);
}

proof fn lemma_take_text(t: Seq<char>, rest: Seq<u8>)
    requires
        encode_utf8(t).len() <= u32::MAX,
    ensures
        take_text(text_bytes(t) + rest) == Some((t, rest)),
{
    broadcast use vstd::utf8::encode_utf8_valid_utf8, vstd::utf8::encode_utf8_decode_utf8;

    let e = encode_utf8(t);
    let n = e.len() as u32;
    let s = text_bytes(t) + rest;
    assert(s =~= le_bytes(n as nat, 4) + (e + rest));
    lemma_take_u32(n, e + rest);
    assert((e + rest).take(n as int) =~= e);
    assert((e + rest).skip(n as int) =~= rest);
}

proof fn lemma_text_bytes_len(t: Seq<char>)
    ensures
        text_bytes(t).len() == 4 + encode_utf8(t).len(),
{
    crate::codec::lemma_le_bytes_len(encode_utf8(t).len(), 4);
}

proof fn lemma_take_tag(t: (Seq<char>, Seq<char>), rest: Seq<u8>)
    requires
        text_bytes(t.0).len() + text_bytes(t.1).len() <= u32::MAX,
    ensures
        take_tag(text_bytes(t.0) + (text_bytes(t.1) + rest)) == Some((t, rest)),
{
    lemma_text_bytes_len(t.0);
    lemma_text_bytes_len(t.1);
    lemma_take_text(t.0, text_bytes(t.1) + rest);
    lemma_take_text(t.1, rest);
}

#[verifier::spinoff_prover]
#[verifier::rlimit(60)]
proof fn lemma_take_tags(tags: Seq<(Seq<char>, Seq<char>)>, rest: Seq<u8>)
    requires
        tags_bytes(tags).len() <= u32::MAX,
    ensures
        take_tags(tags_bytes(tags) + rest, tags.len()) == Some((tags, rest)),
        tags.len() <= tags_bytes(tags).len(),
    decreases tags.len(),
{
    if tags.len() == 0 {
        assert(tags_bytes(tags) + rest =~= rest);
        assert(tags =~= Seq::empty());
    } else {
        let more = tags.skip(1);
        let a = text_bytes(tags[0].0);
        let b = text_bytes(tags[0].1);
        let c = tags_bytes(more);
        lemma_text_bytes_len(tags[0].0);
        assert(a.len() >= 1);
        assert(tags_bytes(tags) == a + b + c);
        assert((a + b + c).len() == a.len() + b.len() + c.len());
        lemma_take_tags(more, rest);
        lemma_regroup(a, b, c, rest);
        lemma_take_tag(tags[0], c + rest);
        let s = tags_bytes(tags) + rest;
        assert(take_tag(s) == Some((tags[0], c + rest)));
        assert(take_tags(s, tags.len()) == Some((seq![tags[0]] + more, rest)));
        assert(seq![tags[0]] + more =~= tags);
    }
}

proof fn lemma_take_u32s(xs: Seq<u32>, rest: Seq<u8>)
    ensures
        take_u32s(positions_bytes(xs) + rest, xs.len()) == Some((xs, rest)),
        positions_bytes(xs).len() == 4 * xs.len(),
    decreases xs.len(),
{
    if xs.len() == 0 {
        assert(positions_bytes(xs) + rest =~= rest);
        assert(xs =~= Seq::empty());
    } else {
        let more = xs.skip(1);
        lemma_take_u32s(more, rest);
        crate::codec::lemma_le_bytes_len(xs[0] as nat, 4);
        assert(positions_bytes(xs) + rest =~= le_bytes(xs[0] as nat, 4) + (positions_bytes(more)
            + rest));
        lemma_take_u32(xs[0], positions_bytes(more) + rest);
        assert(seq![xs[0]] + more =~= xs);
    }
}

proof fn lemma_take_placement(p: QueryPlacementView)
    requires
        p.valid(),
        placement_bytes(p).len() <= u32::MAX,
    ensures
        take_placement(placement_bytes(p)) == Some(p),
{
    let s4 = Seq::<u8>::empty();
    let s3 = positions_bytes(p.positions);
    lemma_take_u32s(p.positions, s4);
    assert(s3 + s4 =~= s3);
    let n = p.positions.len() as u32;
    crate::codec::lemma_le_bytes_len(p.generation as nat, 8);
    crate::codec::lemma_le_bytes_len(p.num_shards as nat, 4);
    crate::codec::lemma_le_bytes_len(p.positions.len(), 4);
    assert(p.positions.len() <= u32::MAX);
    lemma_take_u32(n, s3);
    let s2 = seq![mode_byte(p.mode)] + (le_bytes(p.positions.len(), 4) + s3);
    assert(s2.skip(1) =~= le_bytes(n as nat, 4) + s3);
    lemma_take_u32(p.num_shards, s2);
    lemma_take_u64(p.generation, le_bytes(p.num_shards as nat, 4) + s2);
}

proof fn lemma_take_row(r: RowView)
    requires
        r.placement.valid(),
        row_bytes(r).len() <= u32::MAX,
    ensures
        take_row(row_bytes(r)) == Some(r),
{
    let s5 = placement_bytes(r.placement);
    let s4 = tags_bytes(r.tags) + s5;
    let s3 = le_bytes(r.tags.len(), 4) + s4;
    let s2 = text_bytes(r.dsl) + s3;
    let s1 = le_bytes(r.version as nat, 4) + s2;
    lemma_take_placement(r.placement);
    lemma_take_tags(r.tags, s5);
    lemma_take_u32(r.tags.len() as u32, s4);
    lemma_take_text(r.dsl, s3);
    lemma_take_u32(r.version, s2);
    lemma_take_u64(r.logical, s1);
}

/// Reading the body of a record gives back the record.
pub proof fn law_body_round_trip(e: (u64, MutationView))
    requires
        writable(e),
    ensures
        decode_body(body_bytes(e.0, e.1)) == Some(e),
{
    let body = body_bytes(e.0, e.1);
    lemma_le_round_trip_8(e.0 as nat);
    assert(body.take(8) =~= le_bytes(e.0 as nat, 8));
    match e.1 {
        MutationView::Add(r) => {
            assert(body.skip(9) =~= row_bytes(r));
            lemma_take_row(r);
            assert(body.len() >= 9);
        },
        MutationView::Upsert(r) => {
            assert(body.skip(9) =~= row_bytes(r));
            lemma_take_row(r);
        },
        MutationView::Remove(logical) => {
            assert(body.skip(9) =~= le_bytes(logical as nat, 8) + Seq::<u8>::empty());
            lemma_take_u64(logical, Seq::empty());
        },
    }
}

proof fn lemma_decoded_step(e: (u64, MutationView), rest: Seq<u8>)
    requires
        writable(e),
    ensures
        decoded(frame(body_bytes(e.0, e.1)) + rest) == seq![e] + decoded(rest),
        skipped(frame(body_bytes(e.0, e.1)) + rest) == skipped(rest),
{
    let body = body_bytes(e.0, e.1);
    law_body_round_trip(e);
    lemma_frame_round_trip(body, rest);
}

/// A run of whole records is read back in full, whatever follows it.
pub proof fn law_whole_records_are_read_back(entries: Seq<(u64, MutationView)>, tail: Seq<u8>)
    requires
        forall|i: int| 0 <= i < entries.len() ==> writable(#[trigger] entries[i]),
    ensures
        decoded(frames(entries) + tail) == entries + decoded(tail),
        skipped(frames(entries) + tail) == skipped(tail),
    decreases entries.len(),
{
    if entries.len() == 0 {
        assert(frames(entries) + tail =~= tail);
        assert(entries + decoded(tail) =~= decoded(tail));
    } else {
        let e = entries.last();
        let f = frame(body_bytes(e.0, e.1));
        assert(writable(entries[entries.len() - 1]));
        assert forall|i: int| 0 <= i < entries.drop_last().len() implies writable(
            #[trigger] entries.drop_last()[i],
        ) by {
            assert(writable(entries[i]));
        }
        law_whole_records_are_read_back(entries.drop_last(), f + tail);
        lemma_decoded_step(e, tail);
        vstd::seq_lib::lemma_concat_associative(frames(entries.drop_last()), f, tail);
        lemma_shift_last(entries, decoded(tail));
    }
}

/// Reading a log image gives back exactly the records that were written, with nothing skipped.
pub proof fn law_log_round_trip(entries: Seq<(u64, MutationView)>)
    requires
        forall|i: int| 0 <= i < entries.len() ==> writable(#[trigger] entries[i]),
    ensures
        header_error(log_image(entries)) is None,
        decoded(log_image(entries).skip(8)) == entries,
        skipped(log_image(entries).skip(8)) == 0,
{
    let image = log_image(entries);
    let none = Seq::<u8>::empty();
    lemma_le_round_trip_4(CLOG_VERSION as nat);
    assert(image.skip(8) =~= frames(entries) + none);
    assert(image.take(4) =~= seq![67u8, 77u8, 76u8, 71u8]);
    assert(image.subrange(4, 8) =~= le_bytes(CLOG_VERSION as nat, 4));
    law_whole_records_are_read_back(entries, none);
    assert(entries + decoded(none) =~= entries);
}

/// A write that a crash cut short loses only itself: every record before it is read back, and all
/// of the tail is counted.
pub proof fn law_torn_tail_keeps_the_whole_records(
    entries: Seq<(u64, MutationView)>,
    torn: (u64, MutationView),
    cut: int,
)
    requires
        forall|i: int| 0 <= i < entries.len() ==> writable(#[trigger] entries[i]),
        writable(torn),
        0 <= cut < frame(body_bytes(torn.0, torn.1)).len(),
    ensures
        decoded(frames(entries) + frame(body_bytes(torn.0, torn.1)).take(cut)) == entries,
        skipped(frames(entries) + frame(body_bytes(torn.0, torn.1)).take(cut)) == cut,
{
    let body = body_bytes(torn.0, torn.1);
    let tail = frame(body).take(cut);
    lemma_le_round_trip_4(body.len());
    lemma_frame_round_trip(body, Seq::empty());
    if cut >= 8 {
        assert(tail.subrange(0, 4) =~= le_bytes(body.len(), 4));
    }
    assert(frame_body(tail) is None);
    law_whole_records_are_read_back(entries, tail);
    assert(entries + decoded(tail) =~= entries);
}

proof fn lemma_u32_taken(s: Seq<u8>)
    ensures
        take_u32(s) matches Some((n, rest)) ==> s == le_bytes(n as nat, 4) + rest,
{
    if s.len() >= 4 {
        lemma_le_value_bound_4(s.take(4));
        lemma_le_bytes_of_value(s.take(4));
        assert(s =~= s.take(4) + s.skip(4));
    }
}

proof fn lemma_u64_taken(s: Seq<u8>)
    ensures
        take_u64(s) matches Some((n, rest)) ==> s == le_bytes(n as nat, 8) + rest,
{
    if s.len() >= 8 {
        lemma_le_value_bound_8(s.take(8));
        lemma_le_bytes_of_value(s.take(8));
        assert(s =~= s.take(8) + s.skip(8));
    }
}

proof fn lemma_text_taken(s: Seq<u8>)
    ensures
        take_text(s) matches Some((t, rest)) ==> s == text_bytes(t) + rest,
{
    broadcast use vstd::utf8::decode_utf8_encode_utf8;

    lemma_u32_taken(s);
    match take_text(s) {
        Some((t, rest)) => {
            let (n, r) = take_u32(s)->0;
            assert(encode_utf8(t) == r.take(n as int));
            assert(r =~= r.take(n as int) + r.skip(n as int));
            assert(s =~= text_bytes(t) + rest);
        },
        None => {},
    }
}

proof fn lemma_tags_taken(s: Seq<u8>, n: nat)
    ensures
        take_tags(s, n) matches Some((t, rest)) ==> s == tags_bytes(t) + rest && t.len() == n,
    decreases n,
{
    match take_tags(s, n) {
        Some((t, rest)) => {
            if n == 0 {
                assert(tags_bytes(t) + rest =~= s);
            } else {
                lemma_text_taken(s);
                let (k, s1) = take_text(s)->0;
                lemma_text_taken(s1);
                let (v, s2) = take_text(s1)->0;
                lemma_tags_taken(s2, (n - 1) as nat);
                let (more, after_) = take_tags(s2, (n - 1) as nat)->0;
                assert(t.skip(1) =~= more);
                assert(t[0] == (k, v));
                lemma_regroup(text_bytes(k), text_bytes(v), tags_bytes(more), rest);
            }
        },
        None => {},
    }
}

proof fn lemma_u32s_taken(s: Seq<u8>, n: nat)
    ensures
        take_u32s(s, n) matches Some((t, rest)) ==> s == positions_bytes(t) + rest && t.len() == n,
    decreases n,
{
    match take_u32s(s, n) {
        Some((t, rest)) => {
            if n == 0 {
                assert(positions_bytes(t) + rest =~= s);
            } else {
                lemma_u32_taken(s);
                let (x, s1) = take_u32(s)->0;
                lemma_u32s_taken(s1, (n - 1) as nat);
                let (more, after_) = take_u32s(s1, (n - 1) as nat)->0;
                assert(t.skip(1) =~= more);
                assert(s =~= positions_bytes(t) + rest);
            }
        },
        None => {},
    }
}

proof fn lemma_placement_taken(s: Seq<u8>)
    ensures
        take_placement(s) matches Some(p) ==> s == placement_bytes(p) && p.valid(),
{
    match take_placement(s) {
        Some(p) => {
            lemma_u64_taken(s);
            let (_, s1) = take_u64(s)->0;
            lemma_u32_taken(s1);
            let (_, s2) = take_u32(s1)->0;
            lemma_u32_taken(s2.skip(1));
            let (count, s3) = take_u32(s2.skip(1))->0;
            lemma_u32s_taken(s3, count as nat);
            let (_, s4) = take_u32s(s3, count as nat)->0;
            assert(s2 =~= seq![s2[0]] + s2.skip(1));
            assert(s3 =~= positions_bytes(p.positions));
            assert(s =~= placement_bytes(p));
        },
        None => {},
    }
}

proof fn lemma_row_taken(s: Seq<u8>)
    ensures
        take_row(s) matches Some(r) ==> s == row_bytes(r) && r.placement.valid(),
{
    match take_row(s) {
        Some(r) => {
            lemma_u64_taken(s);
            let (_, s1) = take_u64(s)->0;
            lemma_u32_taken(s1);
            let (_, s2) = take_u32(s1)->0;
            lemma_text_taken(s2);
            let (_, s3) = take_text(s2)->0;
            lemma_u32_taken(s3);
            let (count, s4) = take_u32(s3)->0;
            lemma_tags_taken(s4, count as nat);
            let (_, s5) = take_tags(s4, count as nat)->0;
            lemma_placement_taken(s5);
            assert(s =~= row_bytes(r));
        },
        None => {},
    }
}

/// What was read can be written again.
pub proof fn law_what_is_read_is_writable(data: Seq<u8>)
    ensures
        forall|i: int| 0 <= i < decoded(data).len() ==> writable(#[trigger] decoded(data)[i]),
    decreases data.len(),
{
    match head_record(data) {
        Some((e, n)) => {
            let body = frame_body(data)->0;
            lemma_le_value_bound_4(data.subrange(0, 4));
            assert(body.len() <= u32::MAX);
            lemma_le_bytes_of_value(body.take(8));
            lemma_le_value_bound_8(body.take(8));
            lemma_row_taken(body.skip(9));
            crate::codec::lemma_le_bytes_len(e.0 as nat, 8);
            assert(writable(e)) by {
                match e.1 {
                    MutationView::Add(r) => {
                        assert(body_bytes(e.0, e.1).len() == body.len());
                    },
                    MutationView::Upsert(r) => {
                        assert(body_bytes(e.0, e.1).len() == body.len());
                    },
                    MutationView::Remove(logical) => {
                        crate::codec::lemma_le_bytes_len(logical as nat, 8);
                    },
                }
            }
            let rest = data.skip(8 + n as int);
            law_what_is_read_is_writable(rest);
            assert forall|i: int| 0 <= i < decoded(data).len() implies writable(
                #[trigger] decoded(data)[i],
            ) by {
                if i > 0 {
                    assert(decoded(data)[i] == decoded(rest)[i - 1]);
                }
            }
        },
        None => {},
    }
}

proof fn lemma_after_after(entries: Seq<(u64, MutationView)>, a: u64, b: u64)
    ensures
        after(after(entries, a), b) == after(
            entries,
            if a > b {
                a
            } else {
                b
            },
        ),
    decreases entries.len(),
{
    reveal(Seq::filter);
    let c = if a > b {
        a
    } else {
        b
    };
    if entries.len() > 0 {
        let d = entries.drop_last();
        let e = entries.last();
        lemma_after_after(d, a, b);
        assert(after(entries, a) == if e.0 > a {
            after(d, a).push(e)
        } else {
            after(d, a)
        });
        assert(after(d, a).push(e).drop_last() =~= after(d, a));
        assert(after(after(entries, a), b) =~= after(entries, c));
    } else {
        assert(after(after(entries, a), b) =~= after(entries, c));
    }
}

/// Replaying a checkpointed log gives what replaying the log itself from behind the checkpoint
/// gives: no record behind the checkpoint is lost, none before it comes back.
pub proof fn law_checkpoint_keeps_the_tail(image: Seq<u8>, up_to: u64, from: u64)
    requires
        header_error(image) is None,
    ensures
        ({
            let kept = log_image(after(decoded(image.skip(8)), up_to));
            &&& header_error(kept) is None
            &&& skipped(kept.skip(8)) == 0
            &&& after(decoded(kept.skip(8)), from) == after(
                decoded(image.skip(8)),
                if up_to > from {
                    up_to
                } else {
                    from
                },
            )
        }),
{
    let entries = decoded(image.skip(8));
    law_what_is_read_is_writable(image.skip(8));
    let kept = after(entries, up_to);
    crate::seqs::lemma_filter_members(entries, |e: (u64, MutationView)| e.0 > up_to);
    assert forall|i: int| 0 <= i < kept.len() implies writable(#[trigger] kept[i]) by {
        assert(kept.contains(kept[i]));
        assert(entries.contains(kept[i]));
        let k = choose|k: int| 0 <= k < entries.len() && entries[k] == kept[i];
        assert(writable(entries[k]));
    }
    law_log_round_trip(kept);
    lemma_after_after(entries, up_to, from);
}

proof fn lemma_skipped_bound(data: Seq<u8>)
    ensures
        skipped(data) <= data.len(),
    decreases data.len(),
{
    match head_record(data) {
        Some((_, n)) => {
            lemma_skipped_bound(data.skip(8 + n as int));
        },
        None => {},
    }
}

/// The record at the head depends on its own bytes alone.
proof fn lemma_head_record(data: Seq<u8>, k: int, tail: Seq<u8>)
    requires
        head_record(data) matches Some((_, n)) && 8 + n <= k <= data.len(),
    ensures
        head_record(data.take(k) + tail) == head_record(data),
{
    let other = data.take(k) + tail;
    let n: nat = match head_record(data) {
        Some((_, n)) => n,
        None => 0,
    };
    assert(other.subrange(0, 4) =~= data.subrange(0, 4));
    assert(other.subrange(4, 8) =~= data.subrange(4, 8));
    assert(other.subrange(8, 8 + n as int) =~= data.subrange(8, 8 + n as int));
}

/// Without its torn tail a run of frames holds the same records, and what is put in place of the
/// tail is read after them.
proof fn lemma_sound_part(data: Seq<u8>, tail: Seq<u8>)
    ensures
        decoded(data.take(data.len() - skipped(data)) + tail) == decoded(data) + decoded(tail),
        skipped(data.take(data.len() - skipped(data)) + tail) == skipped(tail),
    decreases data.len(),
{
    lemma_skipped_bound(data);
    let k = data.len() - skipped(data);
    match head_record(data) {
        Some((e, n)) => {
            let m = 8 + n as int;
            let rest = data.skip(m);
            lemma_skipped_bound(rest);
            lemma_sound_part(rest, tail);
            lemma_head_record(data, k, tail);
            let other = data.take(k) + tail;
            assert(other.skip(m) =~= rest.take(rest.len() - skipped(rest)) + tail);
            assert(seq![e] + (decoded(rest) + decoded(tail)) =~= (seq![e] + decoded(rest))
                + decoded(tail));
        },
        None => {
            assert(data.take(k) + tail =~= tail);
            assert(decoded(data) + decoded(tail) =~= decoded(tail));
        },
    }
}

/// Every log image with a good header is sound up to where writing goes on after it is opened, and
/// that part holds every record that can be read.
pub proof fn law_opened_log_is_sound(image: Seq<u8>)
    requires
        header_error(image) is None,
    ensures
        sound(image, sound_end(image)),
        sound_records(image, sound_end(image)) == decoded(image.skip(8)),
{
    let data = image.skip(8);
    let end = sound_end(image) as int;
    lemma_skipped_bound(data);
    let part = image.take(end);
    assert(part.take(4) =~= image.take(4));
    assert(part.subrange(4, 8) =~= image.subrange(4, 8));
    assert(part.skip(8) =~= data.take(data.len() - skipped(data)) + Seq::<u8>::empty());
    lemma_sound_part(data, Seq::empty());
    assert(decoded(data) + decoded(Seq::empty()) =~= decoded(data));
}

/// An append that was acknowledged is replayed, whatever a crash or a failed write left in the file
/// before it: a record that is written at the end of the sound part is read back behind all that
/// were there, nothing is skipped, and the file is sound up to its end.
pub proof fn law_acknowledged_append_is_replayed(
    file: Seq<u8>,
    end: nat,
    e: (u64, MutationView),
)
    requires
        sound(file, end),
        writable(e),
    ensures
        ({
            let after = written_at(file, end, frame(body_bytes(e.0, e.1)));
            &&& header_error(after) is None
            &&& decoded(after.skip(8)) == sound_records(file, end).push(e)
            &&& skipped(after.skip(8)) == 0
            &&& sound(after, end + frame(body_bytes(e.0, e.1)).len())
            &&& sound_records(after, end + frame(body_bytes(e.0, e.1)).len()) == sound_records(
                file,
                end,
            ).push(e)
        }),
{
    let f = frame(body_bytes(e.0, e.1));
    let part = file.take(end as int);
    let data = part.skip(8);
    let after = written_at(file, end, f);
    assert(after.take(4) =~= part.take(4));
    assert(after.subrange(4, 8) =~= part.subrange(4, 8));
    assert(data.take(data.len() - skipped(data)) =~= data);
    assert(after.skip(8) =~= data.take(data.len() - skipped(data)) + f);
    lemma_sound_part(data, f);
    let none = Seq::<u8>::empty();
    lemma_decoded_step(e, none);
    assert(f + none =~= f);
    assert(decoded(none) =~= Seq::empty());
    assert(decoded(data) + (seq![e] + Seq::<(u64, MutationView)>::empty()) =~= decoded(data).push(
        e,
    ));
    assert(after.take((end + f.len()) as int) =~= after);
}

/// A write that failed takes nothing away: whatever it left in the file, the sound part is as it
/// was, and the next write goes where this one went.
pub proof fn law_failed_append_takes_nothing(file: Seq<u8>, end: nat, left: Seq<u8>, bytes: Seq<u8>)
    requires
        sound(file, end),
    ensures
        sound(written_at(file, end, left), end),
        sound_records(written_at(file, end, left), end) == sound_records(file, end),
        written_at(written_at(file, end, left), end, bytes) == written_at(file, end, bytes),
{
    let after = written_at(file, end, left);
    assert(after.take(end as int) =~= file.take(end as int));
}

/// A log that is opened after a crash and appended to replays every record that could be read and
/// then the new one.
pub proof fn law_append_after_reopen(image: Seq<u8>, e: (u64, MutationView), write: LogWrite)
    requires
        header_error(image) is None,
        writable(e),
        write.at == sound_end(image),
        write.bytes@ == frame(body_bytes(e.0, e.1)),
    ensures
        header_error(write.applied_to(image)) is None,
        decoded(write.applied_to(image).skip(8)) == decoded(image.skip(8)).push(e),
        skipped(write.applied_to(image).skip(8)) == 0,
{
    law_opened_log_is_sound(image);
    law_acknowledged_append_is_replayed(image, sound_end(image), e);
}

/// Appending one record to a log image adds exactly that record to what is read back.
pub proof fn law_append_then_replay(entries: Seq<(u64, MutationView)>, e: (u64, MutationView))
    requires
        forall|i: int| 0 <= i < entries.len() ==> writable(#[trigger] entries[i]),
        writable(e),
    ensures
        log_image(entries) + frame(body_bytes(e.0, e.1)) == log_image(entries.push(e)),
        decoded((log_image(entries) + frame(body_bytes(e.0, e.1))).skip(8)) == entries.push(e),
{
    let more = entries.push(e);
    assert(more.drop_last() =~= entries);
    assert(log_image(entries) + frame(body_bytes(e.0, e.1)) =~= log_image(more));
    law_log_round_trip(more);
}

/// A record's body is its position, the byte of its operation and its payload: zero for an added
/// query, one for a removal, two for a replacement. The payload of a removal is the id.
pub proof fn law_the_layout_of_a_record(seq: u64, m: MutationView)
    ensures
        body_bytes(seq, m).len() >= 9,
        le_value(body_bytes(seq, m).take(8)) == seq,
        body_bytes(seq, m)[8] == 0 <==> m is Add,
        body_bytes(seq, m)[8] == 1 <==> m is Remove,
        body_bytes(seq, m)[8] == 2 <==> m is Upsert,
        m matches MutationView::Remove(id) ==> le_value(body_bytes(seq, m).skip(9)) == id
            && body_bytes(seq, m).len() == 17,
        m matches MutationView::Add(r) ==> body_bytes(seq, m).skip(9) == row_bytes(r),
        m matches MutationView::Upsert(r) ==> body_bytes(seq, m).skip(9) == row_bytes(r),
{
    let b = body_bytes(seq, m);
    lemma_le_round_trip_8(seq as nat);
    assert(b.take(8) =~= le_bytes(seq as nat, 8));
    match m {
        MutationView::Remove(id) => {
            lemma_le_round_trip_8(id as nat);
            assert(b.skip(9) =~= le_bytes(id as nat, 8));
        },
        MutationView::Add(r) => {
            assert(b.skip(9) =~= row_bytes(r));
        },
        MutationView::Upsert(r) => {
            assert(b.skip(9) =~= row_bytes(r));
        },
    }
}

/// A query's payload is its id, its version, its text, its tags and its placement, in this order;
/// a text is its length in bytes and its bytes, and the tags are their number and each key and
/// value.
pub proof fn law_the_layout_of_a_query(r: RowView)
    requires
        encode_utf8(r.dsl).len() <= u32::MAX,
        r.tags.len() <= u32::MAX,
    ensures
        ({
            let b = row_bytes(r);
            let n = encode_utf8(r.dsl).len() as int;
            &&& b.len() >= 20 + n
            &&& le_value(b.subrange(0, 8)) == r.logical
            &&& le_value(b.subrange(8, 12)) == r.version
            &&& le_value(b.subrange(12, 16)) == n
            &&& b.subrange(16, 16 + n) == encode_utf8(r.dsl)
            &&& le_value(b.subrange(16 + n, 20 + n)) == r.tags.len()
            &&& b.skip(20 + n) == tags_bytes(r.tags) + placement_bytes(r.placement)
        }),
        r.tags.len() > 0 ==> tags_bytes(r.tags) == text_bytes(r.tags[0].0) + text_bytes(
            r.tags[0].1,
        ) + tags_bytes(r.tags.skip(1)),
        tags_bytes(Seq::<(Seq<char>, Seq<char>)>::empty()).len() == 0,
{
    let b = row_bytes(r);
    let n = encode_utf8(r.dsl).len() as int;
    lemma_le_round_trip_8(r.logical as nat);
    lemma_le_round_trip_4(r.version as nat);
    lemma_le_round_trip_4(encode_utf8(r.dsl).len());
    lemma_le_round_trip_4(r.tags.len());
    assert(b.subrange(0, 8) =~= le_bytes(r.logical as nat, 8));
    assert(b.subrange(8, 12) =~= le_bytes(r.version as nat, 4));
    assert(b.subrange(12, 16) =~= le_bytes(encode_utf8(r.dsl).len(), 4));
    assert(b.subrange(16, 16 + n) =~= encode_utf8(r.dsl));
    assert(b.subrange(16 + n, 20 + n) =~= le_bytes(r.tags.len(), 4));
    assert(b.skip(20 + n) =~= tags_bytes(r.tags) + placement_bytes(r.placement));
}

/// A placement is its generation, its number of shards, the byte of its mode, the number of its
/// positions and each of them, in this order.
pub proof fn law_the_layout_of_a_placement(p: QueryPlacementView, i: int)
    requires
        p.positions.len() <= u32::MAX,
    ensures
        ({
            let b = placement_bytes(p);
            &&& b.len() == 17 + 4 * p.positions.len()
            &&& le_value(b.subrange(0, 8)) == p.generation
            &&& le_value(b.subrange(8, 12)) == p.num_shards
            &&& b[12] == mode_byte(p.mode)
            &&& le_value(b.subrange(13, 17)) == p.positions.len()
            &&& 0 <= i < p.positions.len() ==> le_value(b.subrange(17 + 4 * i, 21 + 4 * i))
                == p.positions[i]
        }),
{
    let b = placement_bytes(p);
    let q = positions_bytes(p.positions);
    lemma_le_round_trip_8(p.generation as nat);
    lemma_le_round_trip_4(p.num_shards as nat);
    lemma_le_round_trip_4(p.positions.len());
    lemma_positions_layout(p.positions, i);
    assert(b.subrange(0, 8) =~= le_bytes(p.generation as nat, 8));
    assert(b.subrange(8, 12) =~= le_bytes(p.num_shards as nat, 4));
    assert(b.subrange(13, 17) =~= le_bytes(p.positions.len(), 4));
    if 0 <= i < p.positions.len() {
        assert(b.subrange(17 + 4 * i, 21 + 4 * i) =~= q.subrange(4 * i, 4 * i + 4));
    }
}

proof fn lemma_positions_layout(positions: Seq<u32>, i: int)
    ensures
        positions_bytes(positions).len() == 4 * positions.len(),
        0 <= i < positions.len() ==> le_value(
            positions_bytes(positions).subrange(4 * i, 4 * i + 4),
        ) == positions[i],
    decreases positions.len(),
{
    if positions.len() > 0 {
        let b = positions_bytes(positions);
        let rest = positions.skip(1);
        lemma_le_round_trip_4(positions[0] as nat);
        lemma_positions_layout(rest, i - 1);
        if i == 0 {
            assert(b.subrange(0, 4) =~= le_bytes(positions[0] as nat, 4));
        } else if 0 < i < positions.len() {
            assert(b.subrange(4 * i, 4 * i + 4) =~= positions_bytes(rest).subrange(
                4 * (i - 1),
                4 * (i - 1) + 4,
            ));
        }
    }
}

/// A log can be read exactly where it starts with the magic and the version of this format; an
/// older and a newer version are told apart, and named.
pub proof fn law_what_a_log_starts_with(data: Seq<u8>)
    ensures
        header_error(data) is None <==> data.len() >= 8 && data[0] == 0x43 && data[1] == 0x4D
            && data[2] == 0x4C && data[3] == 0x47 && le_value(data.subrange(4, 8)) == 4,
        header_error(data) matches Some(LogFormatError::Predates(v)) ==> v < 4 && v == le_value(
            data.subrange(4, 8),
        ),
        header_error(data) matches Some(LogFormatError::Unsupported(v)) ==> v > 4 && v == le_value(
            data.subrange(4, 8),
        ),
        header_error(data) == Some(LogFormatError::TooSmall) <==> data.len() < 8,
{
    let magic = seq![67u8, 77u8, 76u8, 71u8];
    if data.len() >= 8 {
        lemma_le_value_bound_4(data.subrange(4, 8));
        if data[0] == 0x43 && data[1] == 0x4D && data[2] == 0x4C && data[3] == 0x47 {
            assert(data.take(4) =~= magic);
        }
        if data.take(4) == magic {
            assert(data[0] == data.take(4)[0] && data[1] == data.take(4)[1] && data[2]
                == data.take(4)[2] && data[3] == data.take(4)[3]);
        }
    }
}

/// What is replayed are the records behind the position, all of them, in their order.
pub proof fn law_replay_starts_behind_the_position(
    entries: Seq<(u64, MutationView)>,
    from: u64,
    e: (u64, MutationView),
)
    ensures
        after(entries, from).contains(e) <==> entries.contains(e) && e.0 > from,
        after(entries.push(e), from) == if e.0 > from {
            after(entries, from).push(e)
        } else {
            after(entries, from)
        },
{
    reveal(Seq::filter);
    crate::seqs::lemma_filter_members(entries, |x: (u64, MutationView)| x.0 > from);
    assert(entries.push(e).drop_last() =~= entries);
}

/// The highest position is that of some record, or the floor; and no record and not the floor is
/// above it. So an opened log gives out positions that are above all of them.
pub proof fn law_the_highest_position_is_above_all(
    entries: Seq<(u64, MutationView)>,
    floor: u64,
    i: int,
)
    ensures
        highest(entries, floor) >= floor,
        0 <= i < entries.len() ==> highest(entries, floor) >= entries[i].0,
        highest(entries, floor) == floor || exists|k: int|
            0 <= k < entries.len() && (#[trigger] entries[k]).0 == highest(entries, floor),
    decreases entries.len(),
{
    if entries.len() > 0 {
        let d = entries.drop_last();
        law_the_highest_position_is_above_all(d, floor, i);
        if 0 <= i < d.len() {
            assert(d[i] == entries[i]);
        }
        if entries.last().0 > highest(d, floor) {
            assert(entries[entries.len() - 1].0 == highest(entries, floor));
        } else if highest(d, floor) != floor {
            let k = choose|k: int|
                0 <= k < d.len() && (#[trigger] d[k]).0 == highest(d, floor);
            assert(entries[k] == d[k]);
        }
    }
}

} // verus!
