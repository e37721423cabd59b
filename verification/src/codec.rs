//! Bytes on disk: little-endian integers, length-prefixed text, checksums and frames.
use vstd::prelude::*;
use vstd::utf8::{decode_utf8, valid_utf8};

verus! {

/// The number that `b` writes in little-endian order.
pub open spec fn le_value(b: Seq<u8>) -> nat
    decreases b.len(),
{
    if b.len() == 0 {
        0
    } else {
        b[0] as nat + 256 * le_value(b.skip(1))
    }
}

/// The low `width` bytes of `n`, least significant first.
pub open spec fn le_bytes(n: nat, width: nat) -> Seq<u8>
    decreases width,
{
    if width == 0 {
        Seq::empty()
    } else {
        seq![(n % 256) as u8] + le_bytes(n / 256, (width - 1) as nat)
    }
}

pub proof fn lemma_le_bytes_len(n: nat, width: nat)
    ensures
        le_bytes(n, width).len() == width,
    decreases width,
{
    if width > 0 {
        lemma_le_bytes_len(n / 256, (width - 1) as nat);
    }
}

/// Reading four bytes gives back the number that was written.
pub proof fn lemma_le_round_trip_4(n: nat)
    requires
        n <= u32::MAX,
    ensures
        le_value(le_bytes(n, 4)) == n,
        le_bytes(n, 4).len() == 4,
{
    lemma_le_bytes_len(n, 4);
    lemma_le_push(n, 4);
    lemma_le_push(n / 256, 3);
    lemma_le_push(n / 256 / 256, 2);
    lemma_le_push(n / 256 / 256 / 256, 1);
    assert(le_value(le_bytes(0, 0)) == 0);
    assert(n / 256 / 256 / 256 / 256 == 0);
}

/// Reading eight bytes gives back the number that was written.
pub proof fn lemma_le_round_trip_8(n: nat)
    requires
        n <= u64::MAX,
    ensures
        le_value(le_bytes(n, 8)) == n,
        le_bytes(n, 8).len() == 8,
{
    lemma_le_bytes_len(n, 8);
    let high = n / 256 / 256 / 256 / 256;
    assert(high <= u32::MAX);
    lemma_le_round_trip_4(high);
    lemma_le_push(n, 8);
    lemma_le_push(n / 256, 7);
    lemma_le_push(n / 256 / 256, 6);
    lemma_le_push(n / 256 / 256 / 256, 5);
}

proof fn lemma_le_push(n: nat, width: nat)
    requires
        width > 0,
    ensures
        le_value(le_bytes(n, width)) == n % 256 + 256 * le_value(
            le_bytes(n / 256, (width - 1) as nat),
        ),
{
    lemma_le_bytes_len(n, width);
    assert(le_bytes(n, width).skip(1) =~= le_bytes(n / 256, (width - 1) as nat));
}

/// The number in four bytes is below two to the thirty-two.
pub proof fn lemma_le_value_bound_4(b: Seq<u8>)
    requires
        b.len() == 4,
    ensures
        le_value(b) <= u32::MAX,
        le_value(b) == b[0] + 256 * (b[1] + 256 * (b[2] + 256 * b[3])),
{
    reveal_with_fuel(le_value, 5);
    assert(b.skip(1).skip(1) =~= b.skip(2));
    assert(b.skip(2).skip(1) =~= b.skip(3));
    assert(b.skip(3).skip(1).len() == 0);
}

/// The number in eight bytes is below two to the sixty-four.
pub proof fn lemma_le_value_bound_8(b: Seq<u8>)
    requires
        b.len() == 8,
    ensures
        le_value(b) <= u64::MAX,
        le_value(b) == le_value(b.take(4)) + 0x1_0000_0000 * le_value(b.skip(4)),
{
    reveal_with_fuel(le_value, 5);
    lemma_le_value_bound_4(b.take(4));
    lemma_le_value_bound_4(b.skip(4));
    assert(b.skip(1).skip(1) =~= b.skip(2));
    assert(b.skip(2).skip(1) =~= b.skip(3));
    assert(b.skip(3).skip(1) =~= b.skip(4));
}

/// Appends the low four bytes of `n`.
pub fn push_le32(out: &mut Vec<u8>, n: u64)
    ensures
        final(out)@ == old(out)@ + le_bytes(n as nat, 4),
{
    out.push((n % 256) as u8);
    out.push((n / 256 % 256) as u8);
    out.push((n / 256 / 256 % 256) as u8);
    out.push((n / 256 / 256 / 256 % 256) as u8);
    proof {
        reveal_with_fuel(le_bytes, 5);
        assert(out@ =~= old(out)@ + le_bytes(n as nat, 4));
    }
}

/// Appends the eight bytes of `n`.
pub fn push_le64(out: &mut Vec<u8>, n: u64)
    ensures
        final(out)@ == old(out)@ + le_bytes(n as nat, 8),
{
    let high: u64 = n / 256 / 256 / 256 / 256;
    push_le32(out, n);
    push_le32(out, high);
    proof {
        let m = n as nat;
        assert(le_bytes(m, 8) =~= le_bytes(m, 4) + le_bytes(high as nat, 4)) by {
            reveal_with_fuel(le_bytes, 5);
        }
        assert(out@ =~= old(out)@ + le_bytes(m, 8));
    }
}

/// The number in the four bytes of `b` at `at`.
pub fn read_le32(b: &[u8], at: usize) -> (r: u32)
    requires
        at + 4 <= b@.len(),
    ensures
        r as nat == le_value(b@.subrange(at as int, at + 4)),
{
    proof {
        lemma_le_value_bound_4(b@.subrange(at as int, at + 4));
    }
    b[at] as u32 + 256 * (b[at + 1] as u32 + 256 * (b[at + 2] as u32 + 256 * (b[at + 3] as u32)))
}

/// The number in the eight bytes of `b` at `at`.
pub fn read_le64(b: &[u8], at: usize) -> (r: u64)
    requires
        at + 8 <= b@.len(),
    ensures
        r as nat == le_value(b@.subrange(at as int, at + 8)),
{
    let n: usize = b.len();
    assert(at + 8 <= n);
    let low: u32 = read_le32(b, at);
    let high: u32 = read_le32(b, at + 4);
    proof {
        let s = b@.subrange(at as int, at + 8);
        lemma_le_value_bound_8(s);
        assert(s.take(4) =~= b@.subrange(at as int, at + 4));
        assert(s.skip(4) =~= b@.subrange(at + 4, at + 8));
    }
    low as u64 + 0x1_0000_0000 * (high as u64)
}

/// Appends a copy of `more`.
pub fn push_bytes(out: &mut Vec<u8>, more: &[u8])
    ensures
        final(out)@ == old(out)@ + more@,
{
    let n: usize = more.len();
    let mut i: usize = 0;
    assert(out@ =~= old(out)@ + more@.take(0));
    while i < n
        invariant
            n == more@.len(),
            i <= n,
            out@ == old(out)@ + more@.take(i as int),
        decreases n - i,
    {
        out.push(more[i]);
        proof {
            assert(more@.take(i + 1) =~= more@.take(i as int).push(more@[i as int]));
            assert(out@ =~= old(out)@ + more@.take(i + 1));
        }
        i = i + 1;
    }
    assert(more@.take(n as int) =~= more@);
}

/// A copy of `b[from..to]`.
pub fn copy_range(b: &[u8], from: usize, to: usize) -> (r: Vec<u8>)
    requires
        from <= to <= b@.len(),
    ensures
        r@ == b@.subrange(from as int, to as int),
{
    let mut r: Vec<u8> = Vec::new();
    let mut i: usize = from;
    while i < to
        invariant
            from <= i <= to <= b@.len(),
            r@ == b@.subrange(from as int, i as int),
        decreases to - i,
    {
        r.push(b[i]);
        i = i + 1;
        assert(r@ =~= b@.subrange(from as int, i as int));
    }
    r
}

/// One step of the 64-bit FNV-1a hash: exclusive-or with a byte, then multiply modulo two to the
/// sixty-four.
pub open spec fn fnv1a64_step(h: u64, b: u8) -> u64 {
    (((h ^ (b as u64)) as int * 0x100000001b3) % 0x1_0000_0000_0000_0000) as u64
}

/// The 64-bit FNV-1a hash of `b`.
pub open spec fn fnv1a64_spec(b: Seq<u8>) -> u64
    decreases b.len(),
{
    if b.len() == 0 {
        0xcbf29ce484222325
    } else {
        fnv1a64_step(fnv1a64_spec(b.drop_last()), b.last())
    }
}

/// The 64-bit FNV-1a hash.
pub fn fnv1a64(b: &[u8]) -> (r: u64)
    ensures
        r == fnv1a64_spec(b@),
{
    let mut h: u64 = 0xcbf29ce484222325;
    let n: usize = b.len();
    let mut i: usize = 0;
    assert(b@.take(0).len() == 0);
    while i < n
        invariant
            n == b@.len(),
            i <= n,
            h == fnv1a64_spec(b@.take(i as int)),
        decreases n - i,
    {
        let x: u64 = h ^ (b[i] as u64);
        proof {
            assert(b@.take(i + 1).drop_last() =~= b@.take(i as int));
        }
        h = x.wrapping_mul(0x100000001b3);
        i = i + 1;
    }
    assert(b@.take(n as int) =~= b@);
    h
}

/// One bit of the reflected CRC-32 division.
pub open spec fn crc32_bit(c: u32) -> u32 {
    if c & 1 == 1 {
        (c >> 1) ^ 0xEDB88320
    } else {
        c >> 1
    }
}

/// `n` bits of the reflected CRC-32 division.
pub open spec fn crc32_bits(c: u32, n: nat) -> u32
    decreases n,
{
    if n == 0 {
        c
    } else {
        crc32_bit(crc32_bits(c, (n - 1) as nat))
    }
}

/// The CRC-32 remainder register after `b`.
pub open spec fn crc32_register(b: Seq<u8>) -> u32
    decreases b.len(),
{
    if b.len() == 0 {
        0xFFFF_FFFF
    } else {
        crc32_bits(crc32_register(b.drop_last()) ^ (b.last() as u32), 8)
    }
}

/// The IEEE CRC-32 of `b`.
pub open spec fn crc32_spec(b: Seq<u8>) -> u32 {
    crc32_register(b) ^ 0xFFFF_FFFF
}

/// The IEEE CRC-32.
pub fn crc32(b: &[u8]) -> (r: u32)
    ensures
        r == crc32_spec(b@),
{
    let mut c: u32 = 0xFFFF_FFFF;
    let n: usize = b.len();
    let mut i: usize = 0;
    assert(b@.take(0).len() == 0);
    while i < n
        invariant
            n == b@.len(),
            i <= n,
            c == crc32_register(b@.take(i as int)),
        decreases n - i,
    {
        let start: u32 = c ^ (b[i] as u32);
        c = start;
        let mut k: u32 = 0;
        while k < 8
            invariant
                k <= 8,
                c == crc32_bits(start, k as nat),
            decreases 8 - k,
        {
            if c & 1 == 1 {
                c = (c >> 1) ^ 0xEDB88320;
            } else {
                c = c >> 1;
            }
            k = k + 1;
        }
        proof {
            assert(b@.take(i + 1).drop_last() =~= b@.take(i as int));
        }
        i = i + 1;
    }
    assert(b@.take(n as int) =~= b@);
    c ^ 0xFFFF_FFFF
}

/// The text whose UTF-8 encoding is `bytes`, by `String::from_utf8` of the standard library: a
/// string exactly where the bytes are valid UTF-8, and then the one that they encode.
#[verifier::external_body]
pub(crate) fn utf8_text(bytes: Vec<u8>) -> (r: Option<String>)
    ensures
        match r {
            Some(s) => valid_utf8(bytes@) && s@ == decode_utf8(bytes@),
            None => !valid_utf8(bytes@),
        },
{
    String::from_utf8(bytes).ok()
}

/// The frame around a body: its length and its checksum, four bytes each, then the body.
pub open spec fn frame(body: Seq<u8>) -> Seq<u8> {
    le_bytes(body.len(), 4) + le_bytes(crc32_spec(body) as nat, 4) + body
}

/// The body of the frame at the head of `data`, where there is a whole frame with the right
/// checksum.
pub open spec fn frame_body(data: Seq<u8>) -> Option<Seq<u8>> {
    if data.len() < 8 {
        None
    } else {
        let len = le_value(data.subrange(0, 4));
        if 8 + len > data.len() {
            None
        } else {
            let body = data.subrange(8, 8 + len as int);
            if crc32_spec(body) as nat == le_value(data.subrange(4, 8)) {
                Some(body)
            } else {
                None
            }
        }
    }
}

/// Bytes are the bytes of their value.
pub proof fn lemma_le_bytes_of_value(b: Seq<u8>)
    ensures
        le_bytes(le_value(b), b.len()) == b,
    decreases b.len(),
{
    if b.len() > 0 {
        lemma_le_bytes_of_value(b.skip(1));
        let n = le_value(b);
        let m = le_value(b.skip(1));
        assert(n == b[0] as nat + 256 * m);
        assert(n % 256 == b[0] as nat);
        assert(n / 256 == m);
        assert(seq![b[0]] + b.skip(1) =~= b);
    } else {
        assert(le_bytes(le_value(b), 0) =~= b);
    }
}

/// What is read as a frame's body stands in that frame.
pub proof fn lemma_body_is_framed(data: Seq<u8>)
    ensures
        frame_body(data) matches Some(body) ==> 8 + body.len() <= data.len() && body.len()
            <= u32::MAX && data.take(8 + body.len() as int) == frame(body),
{
    if let Some(body) = frame_body(data) {
        let n = le_value(data.subrange(0, 4));
        lemma_le_value_bound_4(data.subrange(0, 4));
        lemma_le_bytes_of_value(data.subrange(0, 4));
        lemma_le_bytes_of_value(data.subrange(4, 8));
        assert(data.take(8 + n as int) =~= data.subrange(0, 4) + data.subrange(4, 8)
            + data.subrange(8, 8 + n as int));
    }
}

/// A frame at the head of any data is read back as its body.
pub proof fn lemma_frame_round_trip(body: Seq<u8>, rest: Seq<u8>)
    requires
        body.len() <= u32::MAX,
    ensures
        frame_body(frame(body) + rest) == Some(body),
        frame(body).len() == 8 + body.len(),
        (frame(body) + rest).skip(8 + body.len() as int) == rest,
{
    lemma_le_round_trip_4(body.len());
    lemma_le_round_trip_4(crc32_spec(body) as nat);
    let data = frame(body) + rest;
    assert(data.subrange(0, 4) =~= le_bytes(body.len(), 4));
    assert(data.subrange(4, 8) =~= le_bytes(crc32_spec(body) as nat, 4));
    assert(data.subrange(8, 8 + body.len() as int) =~= body);
    assert(data.skip(8 + body.len() as int) =~= rest);
}

/// Appends the frame around `body`.
pub fn push_frame(out: &mut Vec<u8>, body: &Vec<u8>)
    ensures
        final(out)@ == old(out)@ + frame(body@),
{
    push_le32(out, body.len() as u64);
    push_le32(out, crc32(body.as_slice()) as u64);
    push_bytes(out, body.as_slice());
    assert(out@ =~= old(out)@ + frame(body@));
}

/// The body of the frame at `at`, where there is a whole frame with the right checksum.
pub fn read_frame(data: &[u8], at: usize) -> (r: Option<Vec<u8>>)
    requires
        at <= data@.len(),
    ensures
        match r {
            Some(body) => frame_body(data@.skip(at as int)) == Some(body@),
            None => frame_body(data@.skip(at as int)) is None,
        },
{
    let n: usize = data.len();
    let ghost rest = data@.skip(at as int);
    if n - at < 8 {
        return None;
    }
    let len: u32 = read_le32(data, at);
    let crc: u32 = read_le32(data, at + 4);
    proof {
        assert(rest.subrange(0, 4) =~= data@.subrange(at as int, at + 4));
        assert(rest.subrange(4, 8) =~= data@.subrange(at + 4, at + 8));
    }
    if len as usize > n - at - 8 {
        return None;
    }
    let body = copy_range(data, at + 8, at + 8 + len as usize);
    proof {
        assert(body@ =~= rest.subrange(8, 8 + len as int));
    }
    if crc32(body.as_slice()) == crc {
        Some(body)
    } else {
        None
    }
}

// ---- appending to a file ----

/// What an append does to a log file: the file is cut to `at` bytes, and then the bytes are written
/// behind them. What a crash or a failed write left there is gone with the cut.
#[derive(Clone, Debug, PartialEq, Eq)]
pub struct LogWrite {
    pub at: u64,
    pub bytes: Vec<u8>,
}

/// A file after bytes were written at `at`, in place of what was there.
pub open spec fn written_at(file: Seq<u8>, at: nat, bytes: Seq<u8>) -> Seq<u8> {
    file.take(at as int) + bytes
}

impl LogWrite {
    /// The file after the append.
    pub open spec fn applied_to(self, file: Seq<u8>) -> Seq<u8> {
        written_at(file, self.at as nat, self.bytes@)
    }

    /// Whether the file stays within what a length can count.
    pub fn fits(&self) -> (r: bool)
        ensures
            r == (self.at + self.bytes@.len() <= u64::MAX),
    {
        self.bytes.len() as u64 <= u64::MAX - self.at
    }
}

/// A number is written with its least significant byte first, in exactly the bytes asked for.
pub proof fn law_the_least_significant_byte_comes_first(n: nat, width: nat, b: Seq<u8>)
    ensures
        le_bytes(n, width).len() == width,
        width > 0 ==> le_bytes(n, width)[0] == n % 256 && le_bytes(n, width).skip(1) == le_bytes(
            n / 256,
            (width - 1) as nat,
        ),
        b.len() > 0 ==> le_value(b) == b[0] + 256 * le_value(b.skip(1)),
        le_value(Seq::<u8>::empty()) == 0,
{
    lemma_le_bytes_len(n, width);
    if width > 0 {
        assert(le_bytes(n, width).skip(1) =~= le_bytes(n / 256, (width - 1) as nat));
    }
}

/// A further byte is mixed into the hash by exclusive-or and a multiplication by the FNV prime,
/// modulo two to the sixty-four; the hash of nothing is the offset basis.
pub proof fn law_each_byte_is_mixed_into_the_hash(b: Seq<u8>, x: u8)
    ensures
        fnv1a64_spec(Seq::<u8>::empty()) == 0xcbf29ce484222325u64,
        fnv1a64_spec(b.push(x)) == ((fnv1a64_spec(b) ^ (x as u64)) as int * 0x100000001b3)
            % 0x1_0000_0000_0000_0000,
{
    assert(b.push(x).drop_last() =~= b);
}

/// A further byte takes the checksum's register through eight steps of the reflected division; a
/// step halves the register, and where it was odd takes the polynomial in.
pub proof fn law_each_byte_is_divided_into_the_checksum(b: Seq<u8>, x: u8, c: u32, n: nat)
    ensures
        crc32_spec(b) == crc32_register(b) ^ 0xFFFF_FFFFu32,
        crc32_register(Seq::<u8>::empty()) == 0xFFFF_FFFFu32,
        crc32_register(b.push(x)) == crc32_bits(crc32_register(b) ^ (x as u32), 8),
        crc32_bits(c, 0) == c,
        c % 2 == 0 ==> crc32_bits(c, n + 1) == crc32_bits(c / 2, n),
        c % 2 == 1 ==> crc32_bits(c, n + 1) == crc32_bits((c / 2) ^ 0xEDB8_8320u32, n),
    decreases n,
{
    assert(b.push(x).drop_last() =~= b);
    assert(c & 1 == c % 2) by (bit_vector);
    assert(c >> 1 == c / 2) by (bit_vector);
    if n > 0 {
        law_each_byte_is_divided_into_the_checksum(b, x, c, (n - 1) as nat);
    } else {
        reveal_with_fuel(crc32_bits, 2);
    }
}

/// A frame is the length of its body, the checksum of its body, and the body; and a body is read
/// exactly where the data starts with its frame.
pub proof fn law_what_a_frame_is(body: Seq<u8>, data: Seq<u8>)
    requires
        body.len() <= u32::MAX,
    ensures
        frame(body).len() == 8 + body.len(),
        le_value(frame(body).subrange(0, 4)) == body.len(),
        le_value(frame(body).subrange(4, 8)) == crc32_spec(body),
        frame(body).skip(8) == body,
        frame_body(data) == Some(body) <==> data.len() >= 8 + body.len() && data.take(
            8 + body.len() as int,
        ) == frame(body),
{
    let f = frame(body);
    lemma_le_round_trip_4(body.len());
    lemma_le_round_trip_4(crc32_spec(body) as nat);
    assert(f.subrange(0, 4) =~= le_bytes(body.len(), 4));
    assert(f.subrange(4, 8) =~= le_bytes(crc32_spec(body) as nat, 4));
    assert(f.skip(8) =~= body);
    lemma_body_is_framed(data);
    if data.len() >= 8 + body.len() && data.take(8 + body.len() as int) == f {
        let rest = data.skip(8 + body.len() as int);
        assert(data =~= f + rest);
        lemma_frame_round_trip(body, rest);
    }
}

} // verus!
