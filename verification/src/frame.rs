//! Length-prefixed framing of records inside one payload.
//!
//! A payload is the concatenation of frames; a frame is the length of a
//! record's canonical form in eight big-endian bytes, followed by that form.
//! Reading goes frame by frame and stops at the first fault, since behind a
//! faulty frame no position can be trusted.

use crate::endian::{append_bytes, be64, be64_value, get_be64, lemma_be64_value_of_be64, put_be64};
use crate::error::DecodeError;
use crate::record::{lemma_parse_of_record_bytes, parse_record, record_bytes, RecordView, WireRecord};
use vstd::prelude::*;
use vstd::slice::slice_subrange;

verus! {

/// A record can be framed if the length of its canonical form fits the prefix.
pub open spec fn frameable(r: RecordView) -> bool {
    record_bytes(r).len() <= u64::MAX
}

pub open spec fn all_frameable(rs: Seq<RecordView>) -> bool {
    forall|i: int| 0 <= i < rs.len() ==> frameable(#[trigger] rs[i])
}

/// One record with its length prefix.
pub open spec fn frame(r: RecordView) -> Seq<u8> {
    be64(record_bytes(r).len() as u64) + record_bytes(r)
}

/// The payload that holds the given records, in order.
pub open spec fn frames(rs: Seq<RecordView>) -> Seq<u8>
    decreases rs.len(),
{
    if rs.len() == 0 {
        Seq::empty()
    } else {
        frames(rs.drop_last()) + frame(rs.last())
    }
}

/// What reading a payload yields: the records of its frames in order, up to
/// and including the first fault.
pub open spec fn parse_frames(b: Seq<u8>) -> Seq<Result<RecordView, DecodeError>>
    decreases b.len(),
{
    if b.len() == 0 {
        Seq::empty()
    } else if b.len() < 8 {
        seq![Err(DecodeError::TruncatedPrefix)]
    } else {
        let n = be64_value(b.subrange(0, 8));
        if n > b.len() - 8 {
            seq![Err(DecodeError::LengthOverrun)]
        } else {
            match parse_record(b.subrange(8, 8 + n)) {
                None => seq![Err(DecodeError::MalformedRecord)],
                Some(r) => seq![Ok(r)] + parse_frames(b.skip(8 + n)),
            }
        }
    }
}

/// The given records, each as a successful reading.
pub open spec fn oks(rs: Seq<RecordView>) -> Seq<Result<RecordView, DecodeError>> {
    rs.map_values(|r: RecordView| Ok::<RecordView, DecodeError>(r))
}

pub open spec fn result_view(r: Result<WireRecord, DecodeError>) -> Result<RecordView, DecodeError> {
    match r {
        Ok(record) => Ok(record@),
        Err(e) => Err(e),
    }
}

/// The mathematical value of a list of readings.
pub open spec fn results_view(s: Seq<Result<WireRecord, DecodeError>>) -> Seq<
    Result<RecordView, DecodeError>,
> {
    s.map_values(|r: Result<WireRecord, DecodeError>| result_view(r))
}

/// The mathematical value of a list of records.
pub open spec fn views(s: Seq<WireRecord>) -> Seq<RecordView> {
    s.map_values(|r: WireRecord| r@)
}

/// A frame is at least 26 bytes long: prefix, path length and ten fields.
pub proof fn lemma_frame_len(r: RecordView)
    ensures
        frame(r).len() == 8 + record_bytes(r).len(),
        frame(r).len() >= 26,
{
    crate::record::lemma_record_bytes_len(r);
}

/// The payload of a concatenation is the concatenation of the payloads.
pub proof fn lemma_frames_concat(a: Seq<RecordView>, b: Seq<RecordView>)
    ensures
        frames(a + b) == frames(a) + frames(b),
    decreases b.len(),
{
    if b.len() == 0 {
        assert(a + b =~= a);
        assert(frames(a) + frames(b) =~= frames(a));
    } else {
        lemma_frames_concat(a, b.drop_last());
        assert((a + b).drop_last() =~= a + b.drop_last());
        assert(frames(a + b) =~= frames(a) + frames(b));
    }
}

/// The payload of a single record is its frame.
pub proof fn lemma_frames_single(r: RecordView)
    ensures
        frames(seq![r]) == frame(r),
{
    let one = seq![r];
    assert(one.len() == 1 && one.last() == r);
    assert(one.drop_last() =~= Seq::<RecordView>::empty());
    assert(frames(one.drop_last()) =~= Seq::<u8>::empty());
    assert(frames(one) == frames(one.drop_last()) + frame(one.last()));
    assert(frames(one) =~= frame(r));
}

/// A payload is at least 26 bytes long for each record in it.
pub proof fn lemma_frames_len(rs: Seq<RecordView>)
    ensures
        frames(rs).len() >= 26 * rs.len(),
    decreases rs.len(),
{
    if rs.len() > 0 {
        lemma_frames_len(rs.drop_last());
        lemma_frame_len(rs.last());
    }
}

/// Reading a frame followed by anything yields the record of the frame and
/// then what reading the rest yields.
pub proof fn lemma_parse_frames_step(r: RecordView, tail: Seq<u8>)
    requires
        frameable(r),
    ensures
        parse_frames(frame(r) + tail) == seq![Ok::<RecordView, DecodeError>(r)] + parse_frames(tail),
{
    let body = record_bytes(r);
    let head = be64(body.len() as u64);
    let b = frame(r) + tail;
    let n = body.len() as int;
    lemma_be64_value_of_be64(body.len() as u64);
    assert(head.len() == 8);
    assert(b =~= head + body + tail);
    assert(b.subrange(0, 8) =~= head);
    assert(be64_value(b.subrange(0, 8)) == n);
    assert(b.subrange(8, 8 + n) =~= body);
    assert(b.skip(8 + n) =~= tail);
    assert(parse_record(body) == Some(r)) by {
        crate::record::lemma_record_bytes_len(r);
        lemma_parse_of_record_bytes(r);
    }
}

/// Reading the payload of some records yields exactly those records, in
/// order and without a fault.
pub proof fn lemma_parse_frames_of_frames(rs: Seq<RecordView>)
    requires
        all_frameable(rs),
    ensures
        parse_frames(frames(rs)) == oks(rs),
    decreases rs.len(),
{
    if rs.len() == 0 {
        assert(parse_frames(frames(rs)) =~= oks(rs));
    } else {
        let first = rs.first();
        let rest = rs.drop_first();
        assert(rs =~= seq![first] + rest);
        lemma_frames_concat(seq![first], rest);
        lemma_frames_single(first);
        lemma_parse_frames_step(first, frames(rest));
        lemma_parse_frames_of_frames(rest);
        assert(seq![Ok::<RecordView, DecodeError>(first)] + oks(rest) =~= oks(rs));
    }
}

/// Appends the frame of `record` to `buf`.
pub fn write_frame(record: &WireRecord, buf: &mut Vec<u8>)
    ensures
        frameable(record@),
        final(buf)@ == old(buf)@ + frame(record@),
{
    let body = record.to_bytes();
    put_be64(buf, body.len() as u64);
    append_bytes(buf, body.as_slice());
    assert(buf@ =~= old(buf)@ + frame(record@));
}

/// Reads a payload frame by frame. The result ends with the first fault, if
/// there is one; the records in front of it are the ones that were read
/// before it was met.
pub fn unpack(payload: &[u8]) -> (out: Vec<Result<WireRecord, DecodeError>>)
    ensures
        results_view(out@) == parse_frames(payload@),
{
    let mut out: Vec<Result<WireRecord, DecodeError>> = Vec::new();
    let mut pos: usize = 0;
    assert(payload@.skip(0) =~= payload@);
    assert(results_view(out@) =~= Seq::empty());
    while pos < payload.len()
        invariant
            pos <= payload@.len(),
            parse_frames(payload@) == results_view(out@) + parse_frames(payload@.skip(pos as int)),
        decreases payload@.len() - pos,
    {
        let ghost rest = payload@.skip(pos as int);
        let ghost before = results_view(out@);
        let left: usize = payload.len() - pos;
        if left < 8 {
            out.push(Err(DecodeError::TruncatedPrefix));
            proof {
                assert(results_view(out@) =~= before + parse_frames(rest));
            }
            return out;
        }
        let n: u64 = get_be64(payload, pos);
        proof {
            assert(payload@.subrange(pos as int, pos + 8) =~= rest.subrange(0, 8));
        }
        if n > (left - 8) as u64 {
            out.push(Err(DecodeError::LengthOverrun));
            proof {
                assert(results_view(out@) =~= before + parse_frames(rest));
            }
            return out;
        }
        let start: usize = pos + 8;
        let end: usize = start + n as usize;
        let body = slice_subrange(payload, start, end);
        proof {
            assert(body@ =~= rest.subrange(8, 8 + n));
        }
        match WireRecord::from_bytes(body) {
            None => {
                out.push(Err(DecodeError::MalformedRecord));
                proof {
                    assert(results_view(out@) =~= before + parse_frames(rest));
                }
                return out;
            },
            Some(record) => {
                out.push(Ok(record));
                proof {
                    assert(rest.skip(8 + n) =~= payload@.skip(end as int));
                    assert(results_view(out@) =~= before + seq![Ok::<RecordView, DecodeError>(record@)]);
                    assert(results_view(out@) + parse_frames(payload@.skip(end as int)) =~= before
                        + parse_frames(rest));
                }
                pos = end;
            },
        }
    }
    proof {
        assert(payload@.skip(pos as int).len() == 0);
        assert(results_view(out@) + parse_frames(payload@.skip(pos as int)) =~= results_view(out@));
    }
    out
}

} // verus!
