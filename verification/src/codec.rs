//! Batches: compressed payloads, and the way back to the records.
//!
//! A batch is one payload, compressed as a whole. Each batch stands for
//! itself: it is decompressed and read without a look at its neighbours, so a
//! damaged batch costs its own records and no others.

use crate::batch::{
    blobs_view, chunks, joined, lemma_chunks_frameable, lemma_chunks_joined, pack, payloads,
};
use crate::error::{DecodeError, EncodeError};
use crate::frame::{
    all_frameable, frames, lemma_parse_frames_of_frames, oks, parse_frames, results_view, unpack,
    views,
};
use crate::gzip::{gunzip, gzip, gzip_compressed, gzip_decompressed};
use crate::record::{RecordView, WireRecord};
use vstd::prelude::*;

verus! {

/// `batch` is the compressed form of `payload`: the stream that the
/// compressor makes of it, and one that decompresses to it.
pub open spec fn is_batch(batch: Seq<u8>, payload: Seq<u8>) -> bool {
    gzip_compressed(payload) == Some(batch) && gzip_decompressed(batch) == Some(payload)
}

/// What compressing `payload` comes to: its batch, or the error of encoding
/// where the compressor gives up on it.
pub open spec fn batch_outcome(payload: Seq<u8>) -> Result<Seq<u8>, EncodeError> {
    match gzip_compressed(payload) {
        Some(batch) => Ok(batch),
        None => Err(EncodeError::Compression),
    }
}

/// The mathematical value of a batch made or failed.
pub open spec fn outcome_view(r: Result<Vec<u8>, EncodeError>) -> Result<Seq<u8>, EncodeError> {
    match r {
        Ok(batch) => Ok(batch@),
        Err(e) => Err(e),
    }
}

/// Every one of the payloads compresses.
pub open spec fn all_compress(ps: Seq<Seq<u8>>) -> bool {
    forall|i: int| 0 <= i < ps.len() ==> gzip_compressed(#[trigger] ps[i]) is Some
}

/// `batches` are the batches of the records `rs`, cut at `bound`.
pub open spec fn encodes(batches: Seq<Seq<u8>>, rs: Seq<RecordView>, bound: nat) -> bool {
    &&& batches.len() == payloads(rs, bound).len()
    &&& forall|i: int|
        0 <= i < batches.len() ==> is_batch(#[trigger] batches[i], payloads(rs, bound)[i])
}

/// What reading one batch yields.
pub open spec fn decode_batch_spec(batch: Seq<u8>) -> Seq<Result<RecordView, DecodeError>> {
    match gzip_decompressed(batch) {
        None => seq![Err(DecodeError::Corrupt)],
        Some(payload) => parse_frames(payload),
    }
}

/// What reading several batches yields: the readings of each, in order.
pub open spec fn decode_spec(batches: Seq<Seq<u8>>) -> Seq<Result<RecordView, DecodeError>>
    decreases batches.len(),
{
    if batches.len() == 0 {
        Seq::empty()
    } else {
        decode_spec(batches.drop_last()) + decode_batch_spec(batches.last())
    }
}

/// Batches that decompress to the payloads of some chunks are read as the
/// records of those chunks.
proof fn lemma_decode_of_chunks(batches: Seq<Seq<u8>>, cs: Seq<Seq<RecordView>>)
    requires
        batches.len() == cs.len(),
        forall|i: int| 0 <= i < cs.len() ==> all_frameable(#[trigger] cs[i]),
        forall|i: int|
            0 <= i < cs.len() ==> gzip_decompressed(#[trigger] batches[i]) == Some(frames(cs[i])),
    ensures
        decode_spec(batches) == oks(joined(cs)),
    decreases cs.len(),
{
    if cs.len() == 0 {
        assert(decode_spec(batches) =~= oks(joined(cs)));
    } else {
        let k = cs.len() - 1;
        lemma_decode_of_chunks(batches.drop_last(), cs.drop_last());
        assert(all_frameable(cs[k]));
        assert(gzip_decompressed(batches[k]) == Some(frames(cs[k])));
        lemma_parse_frames_of_frames(cs.last());
        assert(oks(joined(cs.drop_last())) + oks(cs.last()) =~= oks(joined(cs)));
    }
}

/// Decoding what encoding made yields exactly the records that went in, in
/// their order and without a fault, whatever the bound.
pub proof fn lemma_decode_inverts_encode(rs: Seq<RecordView>, bound: nat, batches: Seq<Seq<u8>>)
    requires
        all_frameable(rs),
        encodes(batches, rs, bound),
    ensures
        decode_spec(batches) == oks(rs),
{
    let cs = chunks(rs, bound);
    lemma_chunks_joined(rs, bound);
    lemma_chunks_frameable(rs, bound);
    assert forall|i: int| 0 <= i < cs.len() implies gzip_decompressed(#[trigger] batches[i])
        == Some(frames(cs[i])) by {
        assert(is_batch(batches[i], payloads(rs, bound)[i]));
    }
    lemma_decode_of_chunks(batches, cs);
}

/// No batch, no record.
pub proof fn lemma_decode_of_nothing()
    ensures
        decode_spec(Seq::empty()) == Seq::<Result<RecordView, DecodeError>>::empty(),
{
}

/// What becomes of the compressor's report: the stream that it finished is
/// the batch, and whatever error it met is the one error of encoding.
pub fn batch_from(outcome: Result<Vec<u8>, std::io::Error>) -> (r: Result<Vec<u8>, EncodeError>)
    ensures
        match outcome {
            Ok(stream) => r == Ok::<Vec<u8>, EncodeError>(stream),
            Err(_) => r == Err::<Vec<u8>, EncodeError>(EncodeError::Compression),
        },
{
    match outcome {
        Ok(stream) => Ok(stream),
        Err(_) => Err(EncodeError::Compression),
    }
}

/// Compresses one payload into a batch: the whole payload goes to the
/// compressor as it is, and [`batch_from`] says what becomes of the report.
/// The outcome is the one that [`batch_outcome`] names for the payload, and a
/// batch that was made decompresses to the payload.
pub fn compress(payload: &[u8]) -> (r: Result<Vec<u8>, EncodeError>)
    ensures
        outcome_view(r) == batch_outcome(payload@),
        r matches Ok(batch) ==> is_batch(batch@, payload@),
{
    batch_from(gzip(payload))
}

/// Decompresses one batch into its payload.
pub fn decompress(batch: &[u8]) -> (r: Result<Vec<u8>, DecodeError>)
    ensures
        match r {
            Ok(payload) => gzip_decompressed(batch@) == Some(payload@),
            Err(e) => e == DecodeError::Corrupt && gzip_decompressed(batch@) is None,
        },
{
    match gunzip(batch) {
        Ok(payload) => Ok(payload),
        Err(_) => Err(DecodeError::Corrupt),
    }
}

/// Encodes `records` into batches cut at `size_bound` bytes of payload. There
/// is one outcome per payload, in order: the batch of the payload, or the
/// error of encoding where the compressor gives up on that payload.
pub fn encode(records: &Vec<WireRecord>, size_bound: usize) -> (out: Vec<Result<Vec<u8>, EncodeError>>)
    ensures
        all_frameable(views(records@)),
        out@.len() == payloads(views(records@), size_bound as nat).len(),
        forall|i: int|
            0 <= i < out@.len() ==> outcome_view(#[trigger] out@[i]) == batch_outcome(
                payloads(views(records@), size_bound as nat)[i],
            ),
        forall|i: int|
            0 <= i < out@.len() ==> (#[trigger] out@[i] matches Ok(batch) ==> is_batch(
                batch@,
                payloads(views(records@), size_bound as nat)[i],
            )),
{
    let packed = pack(records, size_bound);
    let ghost wanted = payloads(views(records@), size_bound as nat);
    let mut out: Vec<Result<Vec<u8>, EncodeError>> = Vec::new();
    let mut i: usize = 0;
    while i < packed.len()
        invariant
            i <= packed@.len(),
            out@.len() == i,
            blobs_view(packed@) == wanted,
            forall|k: int| 0 <= k < i ==> outcome_view(#[trigger] out@[k]) == batch_outcome(wanted[k]),
            forall|k: int|
                0 <= k < i ==> (#[trigger] out@[k] matches Ok(batch) ==> is_batch(batch@, wanted[k])),
        decreases packed@.len() - i,
    {
        proof {
            assert(blobs_view(packed@)[i as int] == packed@[i as int]@);
        }
        let made = compress(packed[i].as_slice());
        out.push(made);
        i += 1;
    }
    out
}

/// Encodes `records` and decodes what came of it. Where every payload
/// compresses, and only there, the records are read back: all of them, in
/// their order, and without a fault.
pub fn round_trip(records: &Vec<WireRecord>, size_bound: usize) -> (r: Option<
    Vec<Result<WireRecord, DecodeError>>,
>)
    ensures
        r is Some <==> all_compress(payloads(views(records@), size_bound as nat)),
        r matches Some(back) ==> results_view(back@) == oks(views(records@)),
{
    let ghost wanted = payloads(views(records@), size_bound as nat);
    let mut made = encode(records, size_bound);
    let ghost outcomes = made@;
    let mut batches: Vec<Vec<u8>> = Vec::new();
    let mut i: usize = 0;
    while i < made.len()
        invariant
            i <= made@.len(),
            wanted == payloads(views(records@), size_bound as nat),
            made@.len() == outcomes.len(),
            outcomes.len() == wanted.len(),
            batches@.len() == i,
            forall|k: int| i <= k < made@.len() ==> made@[k] == outcomes[k],
            forall|k: int|
                0 <= k < outcomes.len() ==> outcome_view(#[trigger] outcomes[k]) == batch_outcome(
                    wanted[k],
                ),
            forall|k: int|
                0 <= k < outcomes.len() ==> (#[trigger] outcomes[k] matches Ok(batch) ==> is_batch(
                    batch@,
                    wanted[k],
                )),
            forall|k: int| 0 <= k < i ==> is_batch(#[trigger] batches@[k]@, wanted[k]),
        decreases made@.len() - i,
    {
        let mut taken: Result<Vec<u8>, EncodeError> = Err(EncodeError::Compression);
        std::mem::swap(&mut taken, &mut made[i]);
        match taken {
            Ok(batch) => {
                batches.push(batch);
            },
            Err(_) => {
                proof {
                    assert(outcome_view(outcomes[i as int]) == batch_outcome(wanted[i as int]));
                    assert(gzip_compressed(wanted[i as int]) is None);
                    assert(!all_compress(wanted));
                }
                return None;
            },
        }
        i += 1;
    }
    let back = decode(&batches);
    proof {
        let streams = blobs_view(batches@);
        assert forall|k: int| 0 <= k < streams.len() implies is_batch(
            #[trigger] streams[k],
            wanted[k],
        ) by {
            assert(is_batch(batches@[k]@, wanted[k]));
        }
        lemma_decode_inverts_encode(views(records@), size_bound as nat, streams);
        assert forall|k: int| 0 <= k < wanted.len() implies gzip_compressed(
            #[trigger] wanted[k],
        ) is Some by {
            assert(is_batch(batches@[k]@, wanted[k]));
        }
    }
    Some(back)
}

/// Reads one batch: an error if it does not decompress, else its records up
/// to and including the first fault.
pub fn decode_batch(batch: &[u8]) -> (out: Vec<Result<WireRecord, DecodeError>>)
    ensures
        results_view(out@) == decode_batch_spec(batch@),
{
    match decompress(batch) {
        Ok(payload) => unpack(payload.as_slice()),
        Err(e) => {
            let mut out: Vec<Result<WireRecord, DecodeError>> = Vec::new();
            out.push(Err(e));
            assert(results_view(out@) =~= decode_batch_spec(batch@));
            out
        },
    }
}

/// Reads batches one after the other. A fault ends the reading of its own
/// batch and of no other.
pub fn decode(batches: &Vec<Vec<u8>>) -> (out: Vec<Result<WireRecord, DecodeError>>)
    ensures
        results_view(out@) == decode_spec(blobs_view(batches@)),
{
    let ghost all = blobs_view(batches@);
    let mut out: Vec<Result<WireRecord, DecodeError>> = Vec::new();
    let mut i: usize = 0;
    proof {
        assert(all.take(0) =~= Seq::<Seq<u8>>::empty());
        assert(results_view(out@) =~= decode_spec(all.take(0)));
    }
    while i < batches.len()
        invariant
            i <= batches@.len(),
            all == blobs_view(batches@),
            results_view(out@) == decode_spec(all.take(i as int)),
        decreases batches@.len() - i,
    {
        let ghost before = results_view(out@);
        let mut part = decode_batch(batches[i].as_slice());
        let ghost read = results_view(part@);
        out.append(&mut part);
        proof {
            assert(all.take(i + 1).drop_last() =~= all.take(i as int));
            assert(all.take(i + 1).last() == batches@[i as int]@);
            assert(results_view(out@) =~= before + read);
        }
        i += 1;
    }
    proof {
        assert(all.take(batches@.len() as int) =~= all);
    }
    out
}

} // verus!
