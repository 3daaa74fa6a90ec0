//! Appending records to a byte store and replaying a store from its start.
use vstd::prelude::*;
use vstd::seq_lib::lemma_flatten_concat;
use crate::codec::{decode, frame, lemma_decode_frame, lemma_prefix_truncated, DecodeOutcome, Decoded};
use crate::record::{Log, LogView};

verus! {

/// The abstract contents of a list of records.
pub open spec fn views(logs: Seq<Log>) -> Seq<LogView> {
    logs.map_values(|l: Log| l@)
}

/// The frames of `rs`, one after the other.
pub open spec fn frames(rs: Seq<LogView>) -> Seq<u8> {
    rs.map_values(|r: LogView| frame(r)).flatten()
}

/// What a replay recovers: the records decoded in order, and the offset of
/// the frame whose checksum did not match, if the scan stopped on one.
pub struct ReplayView {
    pub records: Seq<LogView>,
    pub corrupt_at: Option<int>,
}

/// Replay of a store holding the bytes `s`: decode frames from the start,
/// stopping at the end of the bytes, at a truncated frame, or at a checksum
/// mismatch.
pub open spec fn replay(s: Seq<u8>) -> ReplayView
    decreases s.len(),
{
    match decode(s) {
        Decoded::Record(r, n) => {
            let rest = replay(s.subrange(n as int, s.len() as int));
            ReplayView {
                records: seq![r] + rest.records,
                corrupt_at: match rest.corrupt_at {
                    Some(o) => Some(o + n),
                    None => None,
                },
            }
        },
        Decoded::ChecksumMismatch => ReplayView { records: Seq::empty(), corrupt_at: Some(0) },
        _ => ReplayView { records: Seq::empty(), corrupt_at: None },
    }
}

/// The failure a replay reports alongside the records it recovered.
#[derive(Debug, Clone, Copy, PartialEq, Eq, Structural)]
pub enum ReplayError {
    /// A complete frame at `offset` failed its checksum.
    Corruption { offset: usize },
}

/// The records recovered by a replay, and the corruption that stopped it, if any.
#[derive(Debug)]
pub struct Replay {
    pub records: Vec<Log>,
    pub error: Option<ReplayError>,
}

impl View for Replay {
    type V = ReplayView;

    open spec fn view(&self) -> ReplayView {
        ReplayView {
            records: views(self.records@),
            corrupt_at: match self.error {
                Some(ReplayError::Corruption { offset }) => Some(offset as int),
                None => None,
            },
        }
    }
}

/// The frames of the first `i` records, then of the rest, make up the whole.
proof fn lemma_frames_split(rs: Seq<LogView>, i: int)
    requires
        0 <= i <= rs.len(),
    ensures
        frames(rs) == frames(rs.take(i)) + frames(rs.skip(i)),
{
    let f = |r: LogView| frame(r);
    assert(rs.map_values(f) =~= rs.take(i).map_values(f) + rs.skip(i).map_values(f));
    lemma_flatten_concat(rs.take(i).map_values(f), rs.skip(i).map_values(f));
}

/// The frames of the first `i + 1` records are those of the first `i`, then
/// the frame of record `i`.
proof fn lemma_frames_step(rs: Seq<LogView>, i: int)
    requires
        0 <= i < rs.len(),
    ensures
        frames(rs.take(i + 1)) == frames(rs.take(i)) + frame(rs[i]),
{
    let f = |r: LogView| frame(r);
    assert(rs.take(i + 1).map_values(f) =~= rs.take(i).map_values(f).push(frame(rs[i])));
    rs.take(i).map_values(f).lemma_flatten_push(frame(rs[i]));
}

/// The frames of a non-empty list are the first record's frame, then the
/// frames of the others.
proof fn lemma_frames_first(rs: Seq<LogView>)
    requires
        rs.len() > 0,
    ensures
        frames(rs) == frame(rs[0]) + frames(rs.drop_first()),
{
    let f = |r: LogView| frame(r);
    assert(rs.map_values(f).drop_first() =~= rs.drop_first().map_values(f));
}

/// Every record of `rs` fits the frame header.
pub open spec fn all_valid(rs: Seq<LogView>) -> bool {
    forall|i: int| 0 <= i < rs.len() ==> #[trigger] rs[i].valid()
}

/// Replaying whole frames followed by any bytes recovers those records, then
/// whatever the bytes after them give.
pub proof fn lemma_replay_after_frames(rs: Seq<LogView>, tail: Seq<u8>)
    requires
        all_valid(rs),
    ensures
        replay(frames(rs) + tail) == (ReplayView {
            records: rs + replay(tail).records,
            corrupt_at: match replay(tail).corrupt_at {
                Some(o) => Some(o + frames(rs).len()),
                None => None,
            },
        }),
    decreases rs.len(),
{
    if rs.len() == 0 {
        assert(rs.map_values(|r: LogView| frame(r)) =~= Seq::<Seq<u8>>::empty());
        assert(frames(rs) + tail =~= tail);
        assert(rs + replay(tail).records =~= replay(tail).records);
        match replay(tail).corrupt_at {
            Some(o) => {},
            None => {},
        }
    } else {
        let first = rs[0];
        let others = rs.drop_first();
        assert(first.valid());
        assert(all_valid(others)) by {
            assert forall|i: int| 0 <= i < others.len() implies #[trigger] others[i].valid() by {
                assert(others[i] == rs[i + 1]);
            }
        }
        lemma_frames_first(rs);
        let rest = frames(others) + tail;
        assert(frames(rs) + tail =~= frame(first) + rest);
        lemma_decode_frame(first, rest);
        let s = frame(first) + rest;
        assert(s.subrange(frame(first).len() as int, s.len() as int) =~= rest);
        lemma_replay_after_frames(others, tail);
        assert(rs + replay(tail).records =~= seq![first] + (others + replay(tail).records));
    }
}

/// Appending records in order and replaying the store gives back exactly
/// those records, in that order, with no error.
pub proof fn lemma_append_order(rs: Seq<LogView>)
    requires
        all_valid(rs),
    ensures
        replay(frames(rs)) == (ReplayView { records: rs, corrupt_at: None }),
{
    lemma_replay_after_frames(rs, Seq::empty());
    assert(frames(rs) + Seq::empty() =~= frames(rs));
    assert(rs + Seq::<LogView>::empty() =~= rs);
}

/// A store that ends in a strict prefix of a frame, as a writer that crashed
/// in the middle of an append leaves it, replays to the records before that
/// frame, with no error.
pub proof fn lemma_torn_tail(rs: Seq<LogView>, r: LogView, n: int)
    requires
        all_valid(rs),
        r.valid(),
        0 <= n < frame(r).len(),
    ensures
        replay(frames(rs) + frame(r).take(n)) == (ReplayView { records: rs, corrupt_at: None }),
{
    let tail = frame(r).take(n);
    if n > 0 {
        lemma_prefix_truncated(r, n);
    }
    assert(replay(tail) == ReplayView { records: Seq::empty(), corrupt_at: None });
    lemma_replay_after_frames(rs, tail);
    assert(rs + Seq::<LogView>::empty() =~= rs);
}

/// An empty store replays to no records and no error.
pub proof fn lemma_empty_store()
    ensures
        replay(Seq::empty()) == (ReplayView { records: Seq::empty(), corrupt_at: None }),
{
}

/// Replaying the same unmodified store twice yields the same result.
pub proof fn lemma_replay_idempotent(bytes: Seq<u8>, first: Replay, second: Replay)
    requires
        first@ == replay(bytes),
        second@ == replay(bytes),
    ensures
        first@ == second@,
{
}

impl Log {
    /// Appends the frames of `logs`, in order, to `out` and returns the number
    /// of bytes appended.
    pub fn write_multi_data(logs: &[Log], out: &mut Vec<u8>) -> (r: usize)
        requires
            old(out)@.len() + frames(views(logs@)).len() <= usize::MAX,
        ensures
            final(out)@ == old(out)@ + frames(views(logs@)),
            r == frames(views(logs@)).len(),
    {
        let ghost rs = views(logs@);
        let mut written: usize = 0;
        let mut i: usize = 0;
        proof {
            assert(rs.take(0) =~= Seq::<LogView>::empty());
            assert(rs.take(0).map_values(|r: LogView| frame(r)) =~= Seq::<Seq<u8>>::empty());
            assert(out@ =~= old(out)@ + frames(rs.take(0)));
        }
        while i < logs.len()
            invariant
                i <= logs@.len(),
                rs == views(logs@),
                old(out)@.len() + frames(rs).len() <= usize::MAX,
                out@ == old(out)@ + frames(rs.take(i as int)),
                written == frames(rs.take(i as int)).len(),
            decreases logs@.len() - i,
        {
            proof {
                lemma_frames_step(rs, i as int);
                lemma_frames_split(rs, i as int + 1);
                assert(rs[i as int] == logs@[i as int]@);
            }
            let n = logs[i].write_data(out);
            written = written + n;
            i = i + 1;
            proof {
                assert(out@ =~= old(out)@ + frames(rs.take(i as int)));
            }
        }
        proof {
            assert(rs.take(i as int) =~= rs);
        }
        written
    }

    /// Replays a store from its start: every record up to the end of the
    /// bytes, a truncated frame, or a frame that fails its checksum; in the
    /// last case the corruption is reported with the records before it.
    pub fn read_multi_data(bytes: &[u8]) -> (r: Replay)
        ensures
            r@ == replay(bytes@),
    {
        let mut records: Vec<Log> = Vec::new();
        let mut pos: usize = 0;
        proof {
            assert(bytes@.subrange(0, bytes@.len() as int) =~= bytes@);
            assert(views(records@) + replay(bytes@).records =~= replay(bytes@).records);
        }
        loop
            invariant
                pos <= bytes@.len(),
                replay(bytes@).records == views(records@) + replay(
                    bytes@.subrange(pos as int, bytes@.len() as int),
                ).records,
                replay(bytes@).corrupt_at == match replay(
                    bytes@.subrange(pos as int, bytes@.len() as int),
                ).corrupt_at {
                    Some(o) => Some(o + pos),
                    None => None,
                },
            decreases bytes@.len() - pos,
        {
            let ghost s = bytes@.subrange(pos as int, bytes@.len() as int);
            match Log::read_data(bytes, pos) {
                Ok((log, next)) => {
                    proof {
                        assert(s.subrange((next - pos) as int, s.len() as int) =~= bytes@.subrange(
                            next as int,
                            bytes@.len() as int,
                        ));
                        assert(views(records@.push(log)) =~= views(records@).push(log@));
                    }
                    records.push(log);
                    pos = next;
                },
                Err(DecodeOutcome::ChecksumMismatch) => {
                    return Replay { records, error: Some(ReplayError::Corruption { offset: pos }) };
                },
                Err(_) => {
                    proof {
                        assert(views(records@) + Seq::<LogView>::empty() =~= views(records@));
                    }
                    return Replay { records, error: None };
                },
            }
        }
    }
}

} // verus!
