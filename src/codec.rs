//! Binary framing of records.
//!
//! A frame is `key_len | value_len | checksum | key | value`, the three header
//! fields being little-endian `u32`s and the checksum the CRC-32 of the key
//! bytes immediately followed by the value bytes.
use vstd::prelude::*;
use crate::checksum::{checksum, crc32_of};
use crate::record::{Log, LogView};

verus! {

/// Length of the fixed frame header.
pub const HEADER_LEN: usize = 12;

/// The four little-endian bytes of `x`.
pub open spec fn le_bytes(x: u32) -> Seq<u8> {
    seq![
        (x & 0xff) as u8,
        ((x >> 8u32) & 0xff) as u8,
        ((x >> 16u32) & 0xff) as u8,
        ((x >> 24u32) & 0xff) as u8,
    ]
}

/// The little-endian `u32` held in the four bytes of `s` that start at `i`.
pub open spec fn le_field(s: Seq<u8>, i: int) -> u32 {
    (s[i] as u32) | ((s[i + 1] as u32) << 8u32) | ((s[i + 2] as u32) << 16u32) | ((s[i + 3] as u32)
        << 24u32)
}

/// The frame of a record.
pub open spec fn frame(r: LogView) -> Seq<u8> {
    le_bytes(r.key.len() as u32) + le_bytes(r.value.len() as u32) + le_bytes(r.checksum()) + r.key
        + r.value
}

/// What decoding finds at the start of a byte sequence.
pub enum Decoded {
    /// A valid record whose frame is the first `len` bytes.
    Record(LogView, nat),
    /// No bytes at all.
    EndOfLog,
    /// Some bytes, but fewer than a complete frame.
    Truncated,
    /// A complete frame whose stored checksum disagrees with its key and value.
    ChecksumMismatch,
}

/// Decoding of the first frame of `s`.
pub open spec fn decode(s: Seq<u8>) -> Decoded {
    if s.len() == 0 {
        Decoded::EndOfLog
    } else if s.len() < HEADER_LEN {
        Decoded::Truncated
    } else {
        let klen = le_field(s, 0) as int;
        let vlen = le_field(s, 4) as int;
        let end = HEADER_LEN + klen + vlen;
        if s.len() < end {
            Decoded::Truncated
        } else if crc32_of(s.subrange(HEADER_LEN as int, end)) != le_field(s, 8) {
            Decoded::ChecksumMismatch
        } else {
            Decoded::Record(
                LogView {
                    key: s.subrange(HEADER_LEN as int, HEADER_LEN + klen),
                    value: s.subrange(HEADER_LEN + klen, end),
                },
                end as nat,
            )
        }
    }
}

/// Why no record was decoded.
#[derive(Debug, Clone, Copy, PartialEq, Eq, Structural)]
pub enum DecodeOutcome {
    EndOfLog,
    Truncated,
    ChecksumMismatch,
}

/// `res` is what `decode` gives for the bytes from `pos` on, the consumed
/// length being turned into the offset just past the frame.
pub open spec fn decode_result_matches(
    bytes: Seq<u8>,
    pos: int,
    res: Result<(Log, usize), DecodeOutcome>,
) -> bool {
    match decode(bytes.subrange(pos, bytes.len() as int)) {
        Decoded::Record(r, n) => res is Ok && res->Ok_0.0@ == r && res->Ok_0.1 == pos + n,
        Decoded::EndOfLog => res == Err::<(Log, usize), DecodeOutcome>(DecodeOutcome::EndOfLog),
        Decoded::Truncated => res == Err::<(Log, usize), DecodeOutcome>(DecodeOutcome::Truncated),
        Decoded::ChecksumMismatch => res == Err::<(Log, usize), DecodeOutcome>(
            DecodeOutcome::ChecksumMismatch,
        ),
    }
}

fn push_u32(out: &mut Vec<u8>, x: u32)
    requires
        old(out)@.len() + 4 <= usize::MAX,
    ensures
        final(out)@ == old(out)@ + le_bytes(x),
{
    out.push((x & 0xff) as u8);
    out.push(((x >> 8u32) & 0xff) as u8);
    out.push(((x >> 16u32) & 0xff) as u8);
    out.push(((x >> 24u32) & 0xff) as u8);
    assert(out@ =~= old(out)@ + le_bytes(x));
}

fn read_u32(bytes: &[u8], i: usize) -> (r: u32)
    requires
        i + 4 <= bytes@.len(),
    ensures
        r == le_field(bytes@, i as int),
{
    (bytes[i] as u32) | ((bytes[i + 1] as u32) << 8u32) | ((bytes[i + 2] as u32) << 16u32) | ((
    bytes[i + 3] as u32) << 24u32)
}

impl Log {
    /// Appends the frame of this record to `out` and returns its length.
    pub fn write_data(&self, out: &mut Vec<u8>) -> (r: usize)
        requires
            old(out)@.len() + frame(self@).len() <= usize::MAX,
        ensures
            final(out)@ == old(out)@ + frame(self@),
            r == frame(self@).len(),
    {
        let key = self.key();
        let value = self.value();
        let sum = self.checksum();
        push_u32(out, key.len() as u32);
        push_u32(out, value.len() as u32);
        push_u32(out, sum);
        out.extend_from_slice(key);
        out.extend_from_slice(value);
        assert(out@ =~= old(out)@ + frame(self@));
        HEADER_LEN + key.len() + value.len()
    }

    /// The frame of this record.
    pub fn encode(&self) -> (r: Vec<u8>)
        requires
            frame(self@).len() <= usize::MAX,
        ensures
            r@ == frame(self@),
    {
        let mut out: Vec<u8> = Vec::new();
        self.write_data(&mut out);
        assert(out@ =~= frame(self@));
        out
    }

    /// Decodes the frame that starts at `pos`; on success also returns the
    /// offset just past it.
    pub fn read_data(bytes: &[u8], pos: usize) -> (res: Result<(Log, usize), DecodeOutcome>)
        requires
            pos <= bytes@.len(),
        ensures
            decode_result_matches(bytes@, pos as int, res),
    {
        let ghost s = bytes@.subrange(pos as int, bytes@.len() as int);
        let avail = bytes.len() - pos;
        if avail == 0 {
            return Err(DecodeOutcome::EndOfLog);
        }
        if avail < HEADER_LEN {
            return Err(DecodeOutcome::Truncated);
        }
        let klen = read_u32(bytes, pos) as usize;
        let vlen = read_u32(bytes, pos + 4) as usize;
        let stored = read_u32(bytes, pos + 8);
        assert(le_field(bytes@, pos as int) == le_field(s, 0));
        assert(le_field(bytes@, pos + 4) == le_field(s, 4));
        assert(le_field(bytes@, pos + 8) == le_field(s, 8));
        let body = avail - HEADER_LEN;
        if klen > body || vlen > body - klen {
            return Err(DecodeOutcome::Truncated);
        }
        let start = pos + HEADER_LEN;
        let mid = start + klen;
        let end = mid + vlen;
        let payload = vstd::slice::slice_subrange(bytes, start, end);
        assert(payload@ =~= s.subrange(HEADER_LEN as int, HEADER_LEN + klen + vlen));
        if checksum(payload) != stored {
            return Err(DecodeOutcome::ChecksumMismatch);
        }
        let key = vstd::slice::slice_to_vec(vstd::slice::slice_subrange(bytes, start, mid));
        let value = vstd::slice::slice_to_vec(vstd::slice::slice_subrange(bytes, mid, end));
        assert(key@ =~= s.subrange(HEADER_LEN as int, HEADER_LEN + klen));
        assert(value@ =~= s.subrange(HEADER_LEN + klen, HEADER_LEN + klen + vlen));
        assert(key@ + value@ =~= payload@);
        let r = Log::from_checked(key, value, stored);
        Ok((r, end))
    }
}

/// Reading back the four little-endian bytes of `x` gives `x`.
pub proof fn lemma_le_round_trip(x: u32)
    ensures
        le_field(le_bytes(x), 0) == x,
{
    let b = le_bytes(x);
    assert(((((x & 0xff) as u8) as u32) | (((((x >> 8u32) & 0xff) as u8) as u32) << 8u32) | ((
    (((x >> 16u32) & 0xff) as u8) as u32) << 16u32) | (((((x >> 24u32) & 0xff) as u8) as u32)
        << 24u32)) == x) by (bit_vector);
}

/// Four bytes are the little-endian bytes of the `u32` they hold.
pub proof fn lemma_le_bytes_of_field(s: Seq<u8>)
    requires
        s.len() == 4,
    ensures
        le_bytes(le_field(s, 0)) == s,
{
    let (b0, b1, b2, b3) = (s[0], s[1], s[2], s[3]);
    let x = le_field(s, 0);
    assert(x == (b0 as u32) | ((b1 as u32) << 8u32) | ((b2 as u32) << 16u32) | ((b3 as u32)
        << 24u32));
    assert((x & 0xff) as u8 == b0 && ((x >> 8u32) & 0xff) as u8 == b1 && ((x >> 16u32) & 0xff) as u8
        == b2 && ((x >> 24u32) & 0xff) as u8 == b3) by (bit_vector)
        requires
            x == (b0 as u32) | ((b1 as u32) << 8u32) | ((b2 as u32) << 16u32) | ((b3 as u32)
                << 24u32),
    ;
    assert(le_bytes(x) =~= s);
}

/// Decoding a frame followed by any bytes gives back the record and the
/// frame's length.
pub proof fn lemma_decode_frame(r: LogView, rest: Seq<u8>)
    requires
        r.valid(),
    ensures
        decode(frame(r) + rest) == Decoded::Record(r, frame(r).len()),
{
    let s = frame(r) + rest;
    let klen = r.key.len() as u32;
    let vlen = r.value.len() as u32;
    lemma_le_round_trip(klen);
    lemma_le_round_trip(vlen);
    lemma_le_round_trip(r.checksum());
    assert(le_field(s, 0) == le_field(le_bytes(klen), 0));
    assert(le_field(s, 4) == le_field(le_bytes(vlen), 0));
    assert(le_field(s, 8) == le_field(le_bytes(r.checksum()), 0));
    let end = HEADER_LEN + r.key.len() + r.value.len();
    assert(s.subrange(HEADER_LEN as int, end) =~= r.payload());
    assert(s.subrange(HEADER_LEN as int, HEADER_LEN + r.key.len()) =~= r.key);
    assert(s.subrange(HEADER_LEN + r.key.len(), end) =~= r.value);
}

/// Round trip: the frame of a valid record decodes to that record.
pub proof fn lemma_round_trip(r: LogView)
    requires
        r.valid(),
    ensures
        decode(frame(r)) == Decoded::Record(r, frame(r).len()),
{
    lemma_decode_frame(r, Seq::empty());
    assert(frame(r) + Seq::empty() =~= frame(r));
}

/// Truncation safety: every non-empty strict prefix of a frame decodes as
/// `Truncated`. (The empty prefix is the end of the log.)
pub proof fn lemma_prefix_truncated(r: LogView, n: int)
    requires
        r.valid(),
        0 < n < frame(r).len(),
    ensures
        decode(frame(r).take(n)) == Decoded::Truncated,
{
    let f = frame(r);
    let p = f.take(n);
    if n >= HEADER_LEN {
        lemma_le_round_trip(r.key.len() as u32);
        lemma_le_round_trip(r.value.len() as u32);
        assert(le_field(p, 0) == le_field(le_bytes(r.key.len() as u32), 0));
        assert(le_field(p, 4) == le_field(le_bytes(r.value.len() as u32), 0));
    }
}

/// `f` with bit `b` of byte `i` inverted.
pub open spec fn flip_bit(f: Seq<u8>, i: int, b: u8) -> Seq<u8> {
    f.update(i, f[i] ^ (1u8 << b))
}

/// Corruption detection: inverting any one bit of the checksum field of a
/// frame makes it decode as `ChecksumMismatch`.
pub proof fn lemma_checksum_bit_flip(r: LogView, i: int, b: u8)
    requires
        r.valid(),
        8 <= i < HEADER_LEN,
        b < 8,
    ensures
        decode(flip_bit(frame(r), i, b)) == Decoded::ChecksumMismatch,
{
    let f = frame(r);
    let g = flip_bit(f, i, b);
    let c = r.checksum();
    let old_byte = f[i];
    assert(old_byte ^ (1u8 << b) != old_byte) by (bit_vector)
        requires
            b < 8,
    ;
    lemma_le_round_trip(r.key.len() as u32);
    lemma_le_round_trip(r.value.len() as u32);
    assert(le_field(g, 0) == le_field(le_bytes(r.key.len() as u32), 0));
    assert(le_field(g, 4) == le_field(le_bytes(r.value.len() as u32), 0));
    let end = HEADER_LEN + r.key.len() + r.value.len();
    assert(g.subrange(HEADER_LEN as int, end) =~= r.payload());
    let field = g.subrange(8, 12);
    assert(le_field(g, 8) == le_field(field, 0));
    lemma_le_bytes_of_field(field);
    if le_field(g, 8) == c {
        assert(field[i - 8] != le_bytes(c)[i - 8]);
    }
}

} // verus!
