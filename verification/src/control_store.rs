//! The files in which a manager node keeps its consensus state: a framed record log, and files
//! that hold one value each.
//!
//! A log image is a header, `RRRL` and the format version, and then one frame per record. Reading
//! stops at the first frame that is torn, or whose body does not parse; the records before it are
//! kept.
use crate::codec::{
    frame, frame_body, le_bytes, lemma_body_is_framed, lemma_frame_round_trip, lemma_le_bytes_len,
    push_frame, push_le32, read_frame, written_at, LogWrite,
};
use vstd::prelude::*;

verus! {

/// The version of the record log's format.
pub const LOG_VERSION: u32 = 1;

/// The length of the record log's header.
pub const LOG_HEADER: usize = 8;

/// A file of the store, in the directory of one manager node.
#[derive(Clone, Copy, Debug, PartialEq, Eq, Structural)]
pub enum RaftFile {
    /// The record log of entries.
    Log,
    /// The vote.
    Vote,
    /// The id of the last committed entry.
    Committed,
    /// The id of the last purged entry.
    Purged,
    /// The snapshot of the document.
    Snapshot,
}

/// The name of a file of the store.
pub open spec fn file_name(f: RaftFile) -> Seq<char> {
    match f {
        RaftFile::Log => "raft-log.bin"@,
        RaftFile::Vote => "raft-vote.json"@,
        RaftFile::Committed => "raft-committed.json"@,
        RaftFile::Purged => "raft-purged.json"@,
        RaftFile::Snapshot => "raft-snapshot.json"@,
    }
}

impl RaftFile {
    /// The file's name in its directory.
    pub fn name(self) -> (r: &'static str)
        ensures
            r@ == file_name(self),
    {
        match self {
            RaftFile::Log => "raft-log.bin",
            RaftFile::Vote => "raft-vote.json",
            RaftFile::Committed => "raft-committed.json",
            RaftFile::Purged => "raft-purged.json",
            RaftFile::Snapshot => "raft-snapshot.json",
        }
    }
}

/// The contents of byte strings.
pub open spec fn byte_views(bodies: Seq<Vec<u8>>) -> Seq<Seq<u8>> {
    bodies.map_values(|b: Vec<u8>| b@)
}

/// The header of the record log.
pub open spec fn log_header() -> Seq<u8> {
    seq![0x52u8, 0x52u8, 0x52u8, 0x4Cu8] + le_bytes(LOG_VERSION as nat, 4)
}

/// The frames of records, one after the other.
pub open spec fn framed(bodies: Seq<Seq<u8>>) -> Seq<u8>
    decreases bodies.len(),
{
    if bodies.len() == 0 {
        Seq::empty()
    } else {
        framed(bodies.drop_last()) + frame(bodies.last())
    }
}

/// A record log that holds these records and nothing else.
pub open spec fn store_image(bodies: Seq<Seq<u8>>) -> Seq<u8> {
    log_header() + framed(bodies)
}

/// The bodies of the whole frames at the head of `data`.
pub open spec fn bodies_in(data: Seq<u8>) -> Seq<Seq<u8>>
    decreases data.len(),
{
    match frame_body(data) {
        Some(body) => if data.len() >= 8 + body.len() {
            seq![body] + bodies_in(data.skip(8 + body.len() as int))
        } else {
            Seq::empty()
        },
        None => Seq::empty(),
    }
}

/// The image starts with the log's magic and is long enough for a header.
pub open spec fn has_header(image: Seq<u8>) -> bool {
    image.len() >= LOG_HEADER && image.take(4) == seq![0x52u8, 0x52u8, 0x52u8, 0x4Cu8]
}

/// The image of a log without records.
pub fn empty_log() -> (r: Vec<u8>)
    ensures
        r@ == store_image(Seq::empty()),
{
    let mut r: Vec<u8> = vec![0x52u8, 0x52u8, 0x52u8, 0x4Cu8];
    push_le32(&mut r, LOG_VERSION as u64);
    assert(r@ =~= log_header() + framed(Seq::empty()));
    r
}

/// The bytes that appending one record adds to the log.
pub fn append_record(body: &Vec<u8>) -> (r: Vec<u8>)
    ensures
        r@ == frame(body@),
{
    let mut r: Vec<u8> = Vec::new();
    push_frame(&mut r, body);
    assert(r@ =~= frame(body@));
    r
}

/// The image of the log that holds exactly these records: what replaces the file where entries
/// were dropped.
pub fn rewrite_records(bodies: &Vec<Vec<u8>>) -> (r: Vec<u8>)
    ensures
        r@ == store_image(byte_views(bodies@)),
{
    let mut r = empty_log();
    let ghost all = byte_views(bodies@);
    let n: usize = bodies.len();
    let mut i: usize = 0;
    assert(all.take(0) =~= Seq::empty());
    while i < n
        invariant
            n == bodies@.len(),
            i <= n,
            all == byte_views(bodies@),
            r@ == store_image(all.take(i as int)),
        decreases n - i,
    {
        push_frame(&mut r, &bodies[i]);
        proof {
            assert(all.take(i + 1).drop_last() =~= all.take(i as int));
            assert(all.take(i + 1).last() == bodies@[i as int]@);
            assert(r@ =~= log_header() + (framed(all.take(i as int)) + frame(all[i as int])));
        }
        i = i + 1;
    }
    assert(all.take(n as int) =~= all);
    r
}

/// Why a record log is not read.
#[derive(Clone, Copy, Debug, PartialEq, Eq, Structural)]
pub enum StoreFormatError {
    /// The file is shorter than a header, or starts with other bytes.
    BadMagic,
}

impl StoreFormatError {
    /// The message.
    pub fn message(self) -> (r: &'static str)
        ensures
            r@ == "raft log: bad magic or too small"@,
    {
        "raft log: bad magic or too small"
    }
}

/// The bodies of the records of a log; a file that is not there holds none.
pub fn read_records(image: Option<&Vec<u8>>) -> (r: Result<Vec<Vec<u8>>, StoreFormatError>)
    ensures
        match image {
            None => r matches Ok(v) && v@.len() == 0,
            Some(data) => match r {
                Ok(v) => has_header(data@) && byte_views(v@) == bodies_in(
                    data@.skip(LOG_HEADER as int),
                ),
                Err(_) => !has_header(data@),
            },
        },
{
    let data = match image {
        None => return Ok(Vec::new()),
        Some(data) => data,
    };
    let n: usize = data.len();
    if n < LOG_HEADER {
        return Err(StoreFormatError::BadMagic);
    }
    let magic = data[0] == 0x52 && data[1] == 0x52 && data[2] == 0x52 && data[3] == 0x4C;
    assert(magic <==> data@.take(4) =~= seq![0x52u8, 0x52u8, 0x52u8, 0x4Cu8]) by {
        let head = data@.take(4);
        assert(head[0] == data@[0] && head[1] == data@[1] && head[2] == data@[2] && head[3]
            == data@[3]);
    }
    if !magic {
        return Err(StoreFormatError::BadMagic);
    }
    let ghost tail = data@.skip(LOG_HEADER as int);
    let mut out: Vec<Vec<u8>> = Vec::new();
    let mut at: usize = LOG_HEADER;
    assert(byte_views(out@) + bodies_in(tail) =~= bodies_in(tail));
    loop
        invariant
            n == data@.len(),
            image == Some(data),
            LOG_HEADER <= at <= n,
            tail == data@.skip(LOG_HEADER as int),
            has_header(data@),
            byte_views(out@) + bodies_in(data@.skip(at as int)) == bodies_in(tail),
        decreases n - at,
    {
        let ghost rest = data@.skip(at as int);
        match read_frame(data.as_slice(), at) {
            Some(body) => {
                let ghost before = out@;
                let ghost b = body@;
                let len: usize = body.len();
                assert(8 + len <= rest.len());
                assert(rest.skip(8 + len as int) =~= data@.skip(at + 8 + len));
                out.push(body);
                proof {
                    assert(byte_views(out@) =~= byte_views(before).push(b));
                    assert(byte_views(before) + (seq![b] + bodies_in(data@.skip(at + 8 + len)))
                        =~= byte_views(out@) + bodies_in(data@.skip(at + 8 + len)));
                }
                at = at + 8 + len;
            },
            None => {
                assert(byte_views(out@) + Seq::<Seq<u8>>::empty() =~= byte_views(out@));
                return Ok(out);
            },
        }
    }
}

/// The values before the first that is missing.
pub open spec fn present_prefix<T>(values: Seq<Option<T>>) -> Seq<T>
    decreases values.len(),
{
    if values.len() == 0 || values[0] is None {
        Seq::empty()
    } else {
        seq![values[0]->0] + present_prefix(values.skip(1))
    }
}

/// The records of a log, given for each body what it parsed to: those before the first that did
/// not parse.
pub fn parsed_records<T>(values: Vec<Option<T>>) -> (r: Vec<T>)
    ensures
        r@ == present_prefix(values@),
{
    let ghost all = values@;
    let mut r: Vec<T> = Vec::new();
    let mut done = false;
    assert(all.skip(0) =~= all);
    assert(r@ + present_prefix(all) =~= present_prefix(all));
    for v in it: values.into_iter()
        invariant
            it.seq() == all,
            !done ==> r@ + present_prefix(all.skip(it.index())) == present_prefix(all),
            done ==> r@ == present_prefix(all),
    {
        let ghost i = it.index();
        let ghost before = r@;
        if !done {
            assert(all.skip(i)[0] == v);
            match v {
                Some(x) => {
                    r.push(x);
                    assert(all.skip(i).skip(1) =~= all.skip(i + 1));
                    assert(before + (seq![x] + present_prefix(all.skip(i + 1))) =~= r@
                        + present_prefix(all.skip(i + 1)));
                },
                None => {
                    done = true;
                    assert(before + Seq::<T>::empty() =~= before);
                },
            }
        }
    }
    if !done {
        assert(all.skip(all.len() as int) =~= Seq::empty());
        assert(r@ + Seq::<T>::empty() =~= r@);
    }
    r
}

/// Where writing goes on in the record log: behind the records that are kept. What is in the file
/// behind that point, a torn frame or a record that did not parse, is cut off before the next
/// record is written.
#[derive(Clone, Copy, Debug, PartialEq, Eq)]
pub struct LogEnd {
    end: u64,
}

/// The length of a log file up to the end of its first `kept` records.
pub open spec fn kept_len(bodies: Seq<Seq<u8>>, kept: nat) -> nat {
    LOG_HEADER as nat + framed(bodies.take(kept as int)).len()
}

impl LogEnd {
    /// The number of bytes that are kept.
    pub closed spec fn end_spec(self) -> u64 {
        self.end
    }

    /// The number of bytes that are kept: where the next record is written.
    pub fn end(&self) -> (r: u64)
        ensures
            r == self.end_spec(),
    {
        self.end
    }

    /// The end of a log that was read: `bodies` came out of it, and the first `kept` of them parsed.
    pub fn after(bodies: &Vec<Vec<u8>>, kept: usize) -> (r: Option<Self>)
        requires
            kept <= bodies@.len(),
        ensures
            match r {
                Some(e) => e.end_spec() == kept_len(byte_views(bodies@), kept as nat),
                None => kept_len(byte_views(bodies@), kept as nat) > u64::MAX,
            },
    {
        let ghost all = byte_views(bodies@);
        let mut end: u64 = LOG_HEADER as u64;
        let mut i: usize = 0;
        assert(all.take(0) =~= Seq::empty());
        while i < kept
            invariant
                kept <= bodies@.len(),
                i <= kept,
                all == byte_views(bodies@),
                end == kept_len(all, i as nat),
            decreases kept - i,
        {
            let n: u64 = bodies[i].len() as u64;
            proof {
                assert(all.take(i + 1).drop_last() =~= all.take(i as int));
                assert(all.take(i + 1).last() == bodies@[i as int]@);
                lemma_le_bytes_len(n as nat, 4);
                lemma_le_bytes_len(crate::codec::crc32_spec(all[i as int]) as nat, 4);
                assert(kept_len(all, (i + 1) as nat) == end + 8 + n);
                lemma_kept_grows(all, (i + 1) as nat, kept as nat);
            }
            if n > u64::MAX - 8 || end > u64::MAX - (8 + n) {
                return None;
            }
            end = end + (8 + n);
            i = i + 1;
        }
        Some(LogEnd { end })
    }

    /// The end of a log image that has replaced the file.
    pub fn of_image(image: &Vec<u8>) -> (r: Self)
        ensures
            r.end_spec() == image@.len(),
    {
        LogEnd { end: image.len() as u64 }
    }

    /// What appending a record does to the file.
    pub fn write_of(&self, body: &Vec<u8>) -> (r: LogWrite)
        ensures
            r.at == self.end_spec(),
            r.bytes@ == frame(body@),
    {
        LogWrite { at: self.end, bytes: append_record(body) }
    }

    /// Takes note of how writing at the end went: a write that failed leaves the end where it was,
    /// so the next one starts there again.
    pub fn append<E>(&mut self, write: &LogWrite, written: Result<(), E>) -> (r: Result<(), E>)
        requires
            write.at == old(self).end_spec(),
            write.at + write.bytes@.len() <= u64::MAX,
        ensures
            r == written,
            final(self).end_spec() == if written is Ok {
                write.at + write.bytes@.len()
            } else {
                old(self).end_spec() as int
            },
    {
        if written.is_ok() {
            self.end = self.end + write.bytes.len() as u64;
        }
        written
    }
}

/// A value read from its file: nothing where the file is not there, and an error, never nothing,
/// where it is there and does not parse.
pub fn read_value<T, E>(contents: Option<Result<T, E>>) -> (r: Result<Option<T>, E>)
    ensures
        match contents {
            None => r == Ok::<Option<T>, E>(None),
            Some(Ok(v)) => r == Ok::<Option<T>, E>(Some(v)),
            Some(Err(e)) => r == Err::<Option<T>, E>(e),
        },
{
    match contents {
        None => Ok(None),
        Some(Ok(v)) => Ok(Some(v)),
        Some(Err(e)) => Err(e),
    }
}

/// Bytes that do not start with a whole frame hold no record.
pub open spec fn torn(tail: Seq<u8>) -> bool {
    frame_body(tail) is None
}

/// Every body is short enough for a frame.
pub open spec fn frameable(bodies: Seq<Seq<u8>>) -> bool {
    forall|i: int| 0 <= i < bodies.len() ==> (#[trigger] bodies[i]).len() <= u32::MAX
}

/// Whole frames are read back, whatever follows them.
pub proof fn law_frames_are_read_back(bodies: Seq<Seq<u8>>, rest: Seq<u8>)
    requires
        frameable(bodies),
    ensures
        bodies_in(framed(bodies) + rest) == bodies + bodies_in(rest),
    decreases bodies.len(),
{
    if bodies.len() == 0 {
        assert(framed(bodies) + rest =~= rest);
        assert(bodies + bodies_in(rest) =~= bodies_in(rest));
    } else {
        let b = bodies.last();
        let init = bodies.drop_last();
        law_frames_are_read_back(init, frame(b) + rest);
        lemma_frame_round_trip(b, rest);
        assert(framed(bodies) + rest =~= framed(init) + (frame(b) + rest));
        assert(bodies_in(frame(b) + rest) == seq![b] + bodies_in(rest));
        assert(init + (seq![b] + bodies_in(rest)) =~= bodies + bodies_in(rest));
    }
}

/// The log holds exactly the records that it was written with.
pub proof fn law_store_round_trip(bodies: Seq<Seq<u8>>)
    requires
        frameable(bodies),
    ensures
        has_header(store_image(bodies)),
        bodies_in(store_image(bodies).skip(LOG_HEADER as int)) == bodies,
{
    lemma_header(bodies, Seq::empty());
    law_frames_are_read_back(bodies, Seq::empty());
    assert(store_image(bodies) + Seq::<u8>::empty() =~= store_image(bodies));
    assert(bodies_in(Seq::<u8>::empty()) =~= Seq::empty());
    assert(bodies + Seq::<Seq<u8>>::empty() =~= bodies);
}

/// A torn tail loses none of the whole records before it.
pub proof fn law_store_torn_tail(bodies: Seq<Seq<u8>>, tail: Seq<u8>)
    requires
        frameable(bodies),
        torn(tail),
    ensures
        has_header(store_image(bodies) + tail),
        bodies_in((store_image(bodies) + tail).skip(LOG_HEADER as int)) == bodies,
{
    lemma_header(bodies, tail);
    law_frames_are_read_back(bodies, tail);
    assert(bodies + Seq::<Seq<u8>>::empty() =~= bodies);
}

/// An appended record is read after those that were there, and takes none of them away.
pub proof fn law_store_append(bodies: Seq<Seq<u8>>, body: Seq<u8>)
    requires
        frameable(bodies),
        body.len() <= u32::MAX,
    ensures
        store_image(bodies) + frame(body) == store_image(bodies.push(body)),
        bodies_in((store_image(bodies) + frame(body)).skip(LOG_HEADER as int)) == bodies.push(body),
{
    let more = bodies.push(body);
    assert(more.drop_last() =~= bodies);
    assert(store_image(bodies) + frame(body) =~= store_image(more));
    assert(frameable(more)) by {
        assert forall|i: int| 0 <= i < more.len() implies (#[trigger] more[i]).len()
            <= u32::MAX by {
            if i < bodies.len() {
                assert(more[i] == bodies[i]);
            }
        }
    }
    law_store_round_trip(more);
}

proof fn lemma_kept_grows(bodies: Seq<Seq<u8>>, a: nat, b: nat)
    requires
        a <= b <= bodies.len(),
    ensures
        kept_len(bodies, a) <= kept_len(bodies, b),
    decreases b,
{
    if a < b {
        lemma_kept_grows(bodies, a, (b - 1) as nat);
        assert(bodies.take(b as int).drop_last() =~= bodies.take(b - 1));
    }
}

proof fn lemma_framed_first(body: Seq<u8>, rest: Seq<Seq<u8>>)
    ensures
        framed(seq![body] + rest) == frame(body) + framed(rest),
    decreases rest.len(),
{
    let all = seq![body] + rest;
    if rest.len() == 0 {
        assert(all.drop_last() =~= Seq::empty());
        assert(framed(all.drop_last()) =~= Seq::empty());
        assert(all.last() == body);
        assert(frame(body) + framed(rest) =~= framed(all));
    } else {
        lemma_framed_first(body, rest.drop_last());
        assert(all.drop_last() =~= seq![body] + rest.drop_last());
        assert(framed(all) =~= frame(body) + framed(rest));
    }
}

proof fn lemma_bodies_are_framed(data: Seq<u8>, kept: nat)
    requires
        kept <= bodies_in(data).len(),
    ensures
        framed(bodies_in(data).take(kept as int)).len() <= data.len(),
        data.take(framed(bodies_in(data).take(kept as int)).len() as int) == framed(
            bodies_in(data).take(kept as int),
        ),
        frameable(bodies_in(data)),
    decreases data.len(),
{
    lemma_body_is_framed(data);
    let all = bodies_in(data);
    if all.len() > 0 {
        let body = frame_body(data)->0;
        let m = 8 + body.len() as int;
        let rest = data.skip(m);
        let k: nat = if kept == 0 {
            0
        } else {
            (kept - 1) as nat
        };
        lemma_bodies_are_framed(rest, k);
        assert(frameable(all)) by {
            assert forall|i: int| 0 <= i < all.len() implies (#[trigger] all[i]).len()
                <= u32::MAX by {
                if i > 0 {
                    assert(all[i] == bodies_in(rest)[i - 1]);
                }
            }
        }
        if kept > 0 {
            let part = bodies_in(rest).take(k as int);
            assert(all.take(kept as int) =~= seq![body] + part);
            lemma_framed_first(body, part);
            assert(frame(body).len() == m);
            assert(data.take(m + framed(part).len()) =~= data.take(m) + rest.take(
                framed(part).len() as int,
            ));
        } else {
            assert(all.take(0) =~= Seq::empty());
            assert(data.take(0) =~= Seq::empty());
        }
    } else {
        assert(all.take(kept as int) =~= Seq::empty());
        assert(data.take(0) =~= Seq::empty());
    }
}

/// A record that is appended after a crash is read: for every log with a header, and however many
/// of its records are kept, writing at the end of the kept ones gives a log that holds exactly
/// those and then the new one.
pub proof fn law_append_after_torn_tail(image: Seq<u8>, kept: nat, body: Seq<u8>)
    requires
        has_header(image),
        kept <= bodies_in(image.skip(LOG_HEADER as int)).len(),
        body.len() <= u32::MAX,
    ensures
        ({
            let bodies = bodies_in(image.skip(LOG_HEADER as int));
            let after = written_at(image, kept_len(bodies, kept), frame(body));
            &&& kept_len(bodies, kept) <= image.len()
            &&& image.take(kept_len(bodies, kept) as int) == image.take(LOG_HEADER as int) + framed(
                bodies.take(kept as int),
            )
            &&& has_header(after)
            &&& bodies_in(after.skip(LOG_HEADER as int)) == bodies.take(kept as int).push(body)
            &&& after.len() == kept_len(bodies.take(kept as int).push(body), kept + 1)
        }),
{
    let data = image.skip(LOG_HEADER as int);
    let bodies = bodies_in(data);
    let end = kept_len(bodies, kept) as int;
    let part = bodies.take(kept as int);
    let more = part.push(body);
    lemma_bodies_are_framed(data, kept);
    assert(image.take(end) =~= image.take(LOG_HEADER as int) + data.take(framed(part).len() as int));
    let after = written_at(image, end as nat, frame(body));
    assert(after.take(4) =~= image.take(4));
    assert(more.drop_last() =~= part);
    assert(after.skip(LOG_HEADER as int) =~= framed(more));
    assert(frameable(more)) by {
        assert forall|i: int| 0 <= i < more.len() implies (#[trigger] more[i]).len()
            <= u32::MAX by {
            if i < part.len() {
                assert(more[i] == bodies[i]);
            }
        }
    }
    law_frames_are_read_back(more, Seq::empty());
    assert(framed(more) + Seq::<u8>::empty() =~= framed(more));
    assert(bodies_in(Seq::<u8>::empty()) =~= Seq::empty());
    assert(more + Seq::<Seq<u8>>::empty() =~= more);
    assert(more.take(kept as int + 1) =~= more);
}

/// The records of a log, under a reading of their bodies: those before the first that does not
/// parse.
pub open spec fn records_in<T>(image: Seq<u8>, parse: spec_fn(Seq<u8>) -> Option<T>) -> Seq<T> {
    present_prefix(bodies_in(image.skip(LOG_HEADER as int)).map_values(parse))
}

proof fn lemma_present_prefix<T>(values: Seq<Option<T>>)
    ensures
        present_prefix(values).len() <= values.len(),
        forall|i: int|
            0 <= i < present_prefix(values).len() ==> values[i] == Some(
                #[trigger] present_prefix(values)[i],
            ),
    decreases values.len(),
{
    if values.len() > 0 && values[0] is Some {
        lemma_present_prefix(values.skip(1));
        let rest = present_prefix(values.skip(1));
        assert forall|i: int| 0 <= i < present_prefix(values).len() implies values[i] == Some(
            #[trigger] present_prefix(values)[i],
        ) by {
            if i > 0 {
                assert(values.skip(1)[i - 1] == Some(rest[i - 1]));
            }
        }
    }
}

proof fn lemma_all_present<T>(values: Seq<Option<T>>, xs: Seq<T>)
    requires
        values.len() == xs.len(),
        forall|i: int| 0 <= i < xs.len() ==> values[i] == Some(#[trigger] xs[i]),
    ensures
        present_prefix(values) == xs,
    decreases values.len(),
{
    if values.len() > 0 {
        assert(values[0] == Some(xs[0]));
        assert forall|i: int| 0 <= i < xs.skip(1).len() implies values.skip(1)[i] == Some(
            #[trigger] xs.skip(1)[i],
        ) by {
            assert(values[i + 1] == Some(xs[i + 1]));
        }
        lemma_all_present(values.skip(1), xs.skip(1));
        assert(seq![xs[0]] + xs.skip(1) =~= xs);
    } else {
        assert(present_prefix(values) =~= xs);
    }
}

/// What was appended is read back, whatever the log was before: a log that is opened, with a torn
/// tail or with a record that does not parse, and appended to holds every record that could be read
/// and then the new one.
pub proof fn law_appended_record_is_read_back<T>(
    image: Seq<u8>,
    parse: spec_fn(Seq<u8>) -> Option<T>,
    body: Seq<u8>,
    record: T,
    write: LogWrite,
)
    requires
        has_header(image),
        body.len() <= u32::MAX,
        parse(body) == Some(record),
        write.at == kept_len(
            bodies_in(image.skip(LOG_HEADER as int)),
            records_in(image, parse).len(),
        ),
        write.bytes@ == frame(body),
    ensures
        records_in(image, parse).len() <= bodies_in(image.skip(LOG_HEADER as int)).len(),
        has_header(write.applied_to(image)),
        records_in(write.applied_to(image), parse) == records_in(image, parse).push(record),
{
    let bodies = bodies_in(image.skip(LOG_HEADER as int));
    let values = bodies.map_values(parse);
    let xs = present_prefix(values);
    lemma_present_prefix(values);
    law_append_after_torn_tail(image, xs.len(), body);
    let more = bodies.take(xs.len() as int).push(body);
    let mv = more.map_values(parse);
    assert forall|i: int| 0 <= i < xs.push(record).len() implies mv[i] == Some(
        #[trigger] xs.push(record)[i],
    ) by {
        if i < xs.len() {
            assert(values[i] == Some(xs[i]));
            assert(more[i] == bodies[i]);
        }
    }
    lemma_all_present(mv, xs.push(record));
}

/// A write that failed takes no record away: whatever it left behind the kept records, the next
/// write replaces it.
pub proof fn law_failed_write_is_overwritten(file: Seq<u8>, end: nat, left: Seq<u8>, bytes: Seq<u8>)
    requires
        end <= file.len(),
    ensures
        written_at(written_at(file, end, left), end, bytes) == written_at(file, end, bytes),
{
    assert(written_at(file, end, left).take(end as int) =~= file.take(end as int));
}

/// A frame that stops short is torn.
pub proof fn law_cut_frame_is_torn(body: Seq<u8>, n: int)
    requires
        body.len() <= u32::MAX,
        0 <= n < frame(body).len(),
    ensures
        torn(frame(body).take(n)),
{
    let cut = frame(body).take(n);
    lemma_frame_round_trip(body, Seq::empty());
    assert(frame(body) + Seq::<u8>::empty() =~= frame(body));
    if n >= 8 {
        assert(cut.subrange(0, 4) =~= frame(body).subrange(0, 4));
        crate::codec::lemma_le_round_trip_4(body.len());
        assert(frame(body).subrange(0, 4) =~= le_bytes(body.len(), 4));
    }
}

proof fn lemma_header(bodies: Seq<Seq<u8>>, tail: Seq<u8>)
    ensures
        has_header(store_image(bodies) + tail),
        (store_image(bodies) + tail).skip(LOG_HEADER as int) == framed(bodies) + tail,
{
    lemma_le_bytes_len(LOG_VERSION as nat, 4);
    let image = store_image(bodies) + tail;
    assert(image.take(4) =~= seq![0x52u8, 0x52u8, 0x52u8, 0x4Cu8]);
    assert(image.skip(LOG_HEADER as int) =~= framed(bodies) + tail);
}

/// A record log is one exactly where it is long enough for a header and starts with the magic.
pub proof fn law_what_a_record_log_starts_with(image: Seq<u8>)
    ensures
        has_header(image) <==> image.len() >= 8 && image[0] == 0x52 && image[1] == 0x52 && image[2]
            == 0x52 && image[3] == 0x4C,
{
    let magic = seq![0x52u8, 0x52u8, 0x52u8, 0x4Cu8];
    if image.len() >= 8 {
        if image[0] == 0x52 && image[1] == 0x52 && image[2] == 0x52 && image[3] == 0x4C {
            assert(image.take(4) =~= magic);
        }
        if image.take(4) == magic {
            assert(image[0] == image.take(4)[0] && image[1] == image.take(4)[1] && image[2]
                == image.take(4)[2] && image[3] == image.take(4)[3]);
        }
    }
}

/// The records that are kept are those before the first that did not parse, each as it parsed.
pub proof fn law_records_are_kept_up_to_the_first_that_fails<T>(values: Seq<Option<T>>, i: int)
    ensures
        present_prefix(values).len() <= values.len(),
        0 <= i < present_prefix(values).len() ==> values[i] == Some(present_prefix(values)[i]),
        present_prefix(values).len() < values.len() ==> values[present_prefix(values).len() as int]
            is None,
    decreases values.len(),
{
    if values.len() > 0 && values[0] is Some {
        law_records_are_kept_up_to_the_first_that_fails(values.skip(1), i - 1);
    }
}

/// No two files of the store share a name.
pub proof fn law_files_have_names_of_their_own(a: RaftFile, b: RaftFile)
    ensures
        file_name(a) == file_name(b) <==> a == b,
{
    reveal_strlit("raft-log.bin");
    reveal_strlit("raft-vote.json");
    reveal_strlit("raft-committed.json");
    reveal_strlit("raft-purged.json");
    reveal_strlit("raft-snapshot.json");
    if a != b {
        assert(file_name(a).len() != file_name(b).len());
    }
}

} // verus!
