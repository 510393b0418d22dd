//! Cutting a stream of records into size-bounded payloads.
//!
//! Records are framed into an accumulator one by one. As soon as the
//! accumulator holds at least `bound` bytes it is sealed and starts empty
//! again; what is left when the stream ends is sealed as a last, possibly
//! smaller payload. The bound is a target, not a cap: a record larger than the
//! bound travels alone and whole.

use crate::frame::{
    all_frameable, frameable, frames, lemma_frames_len, views, write_frame,
};
use crate::record::{RecordView, WireRecord};
use vstd::prelude::*;

verus! {

/// The state of the accumulator after the records `rs` have gone in: the
/// chunks that were sealed so far, and the records still held back.
pub open spec fn feed(rs: Seq<RecordView>, bound: nat) -> (Seq<Seq<RecordView>>, Seq<RecordView>)
    decreases rs.len(),
{
    if rs.len() == 0 {
        (Seq::empty(), Seq::empty())
    } else {
        let (done, acc) = feed(rs.drop_last(), bound);
        let held = acc.push(rs.last());
        if frames(held).len() >= bound {
            (done.push(held), Seq::empty())
        } else {
            (done, held)
        }
    }
}

/// How the records `rs` are split into chunks, one chunk per payload.
pub open spec fn chunks(rs: Seq<RecordView>, bound: nat) -> Seq<Seq<RecordView>> {
    let (done, acc) = feed(rs, bound);
    if acc.len() > 0 {
        done.push(acc)
    } else {
        done
    }
}

/// All records of the given chunks, in order.
pub open spec fn joined(cs: Seq<Seq<RecordView>>) -> Seq<RecordView>
    decreases cs.len(),
{
    if cs.len() == 0 {
        Seq::empty()
    } else {
        joined(cs.drop_last()) + cs.last()
    }
}

/// The payload of each chunk.
pub open spec fn payloads_of(cs: Seq<Seq<RecordView>>) -> Seq<Seq<u8>> {
    Seq::new(cs.len(), |i: int| frames(cs[i]))
}

/// The payloads into which the records `rs` are packed.
pub open spec fn payloads(rs: Seq<RecordView>, bound: nat) -> Seq<Seq<u8>> {
    payloads_of(chunks(rs, bound))
}

/// The mathematical value of a list of byte strings.
pub open spec fn blobs_view(s: Seq<Vec<u8>>) -> Seq<Seq<u8>> {
    Seq::new(s.len(), |i: int| s[i]@)
}

/// A chunk that was sealed because it reached the bound: it is not empty, it
/// holds at least `bound` bytes, and it did not before its last record went in.
pub open spec fn sealed_at_bound(c: Seq<RecordView>, bound: nat) -> bool {
    &&& c.len() > 0
    &&& frames(c).len() >= bound
    &&& (c.len() == 1 || frames(c.drop_last()).len() < bound)
}

/// The sealed chunks and the records held back are, together, the records
/// that went in.
pub proof fn lemma_feed_joined(rs: Seq<RecordView>, bound: nat)
    ensures
        joined(feed(rs, bound).0) + feed(rs, bound).1 == rs,
    decreases rs.len(),
{
    let done = feed(rs, bound).0;
    let acc = feed(rs, bound).1;
    if rs.len() == 0 {
        assert(joined(done) + acc =~= rs);
    } else {
        let init = rs.drop_last();
        lemma_feed_joined(init, bound);
        let done0 = feed(init, bound).0;
        let acc0 = feed(init, bound).1;
        let held = acc0.push(rs.last());
        assert(joined(done0) + held =~= rs) by {
            assert(joined(done0) + acc0 == init);
            assert(rs =~= init.push(rs.last()));
        }
        if frames(held).len() >= bound {
            assert(done.drop_last() =~= done0);
            assert(done.last() == held);
            assert(joined(done) + acc =~= rs);
        }
    }
}

/// Every sealed chunk was sealed at the bound, and what is held back is
/// below it.
pub proof fn lemma_feed_sealed(rs: Seq<RecordView>, bound: nat)
    ensures
        forall|i: int|
            0 <= i < feed(rs, bound).0.len() ==> sealed_at_bound(
                #[trigger] feed(rs, bound).0[i],
                bound,
            ),
        feed(rs, bound).1.len() == 0 || frames(feed(rs, bound).1).len() < bound,
    decreases rs.len(),
{
    let done = feed(rs, bound).0;
    if rs.len() > 0 {
        let init = rs.drop_last();
        lemma_feed_sealed(init, bound);
        let done0 = feed(init, bound).0;
        let acc0 = feed(init, bound).1;
        let held = acc0.push(rs.last());
        assert(held.drop_last() =~= acc0);
        if frames(held).len() >= bound {
            assert(sealed_at_bound(held, bound));
            assert forall|i: int| 0 <= i < done.len() implies sealed_at_bound(
                #[trigger] done[i],
                bound,
            ) by {
                if i < done0.len() {
                    assert(done[i] == done0[i]);
                }
            }
        }
    }
}

/// Records that can be framed stay so, wherever the accumulator puts them.
pub proof fn lemma_feed_frameable(rs: Seq<RecordView>, bound: nat)
    requires
        all_frameable(rs),
    ensures
        all_frameable(feed(rs, bound).1),
        forall|i: int|
            0 <= i < feed(rs, bound).0.len() ==> all_frameable(#[trigger] feed(rs, bound).0[i]),
    decreases rs.len(),
{
    let done = feed(rs, bound).0;
    if rs.len() > 0 {
        let init = rs.drop_last();
        assert(all_frameable(init)) by {
            assert forall|i: int| 0 <= i < init.len() implies frameable(#[trigger] init[i]) by {
                assert(init[i] == rs[i]);
            }
        }
        lemma_feed_frameable(init, bound);
        let done0 = feed(init, bound).0;
        let acc0 = feed(init, bound).1;
        let held = acc0.push(rs.last());
        assert(all_frameable(held)) by {
            assert forall|i: int| 0 <= i < held.len() implies frameable(#[trigger] held[i]) by {
                if i < acc0.len() {
                    assert(held[i] == acc0[i]);
                } else {
                    assert(held[i] == rs[rs.len() - 1]);
                }
            }
        }
        if frames(held).len() >= bound {
            assert forall|i: int| 0 <= i < done.len() implies all_frameable(#[trigger] done[i]) by {
                if i < done0.len() {
                    assert(done[i] == done0[i]);
                }
            }
        }
    }
}

/// No record is lost, repeated or moved: the chunks, put together again, are
/// the records that went in, and no chunk is empty.
pub proof fn lemma_chunks_joined(rs: Seq<RecordView>, bound: nat)
    ensures
        joined(chunks(rs, bound)) == rs,
        forall|i: int| 0 <= i < chunks(rs, bound).len() ==> (#[trigger] chunks(rs, bound)[i]).len() > 0,
{
    lemma_feed_joined(rs, bound);
    lemma_feed_sealed(rs, bound);
    let done = feed(rs, bound).0;
    let acc = feed(rs, bound).1;
    let cs = chunks(rs, bound);
    if acc.len() > 0 {
        assert(cs.drop_last() =~= done);
        assert(cs.last() == acc);
    }
    assert forall|i: int| 0 <= i < cs.len() implies (#[trigger] cs[i]).len() > 0 by {
        if i < done.len() {
            assert(sealed_at_bound(done[i], bound));
        }
    }
}

/// Records that can be framed make chunks that can be framed.
pub proof fn lemma_chunks_frameable(rs: Seq<RecordView>, bound: nat)
    requires
        all_frameable(rs),
    ensures
        forall|i: int|
            0 <= i < chunks(rs, bound).len() ==> all_frameable(#[trigger] chunks(rs, bound)[i]),
{
    lemma_feed_frameable(rs, bound);
    let done = feed(rs, bound).0;
    let cs = chunks(rs, bound);
    assert forall|i: int| 0 <= i < cs.len() implies all_frameable(#[trigger] cs[i]) by {
        if i < done.len() {
            assert(cs[i] == done[i]);
        }
    }
}

/// Every payload but the last holds at least `bound` bytes before
/// compression, and held fewer before its last record went in, unless that
/// record is its only one. The last payload may be smaller.
pub proof fn lemma_size_bound(rs: Seq<RecordView>, bound: nat)
    ensures
        forall|i: int|
            0 <= i < chunks(rs, bound).len() ==> i == chunks(rs, bound).len() - 1
                || sealed_at_bound(#[trigger] chunks(rs, bound)[i], bound),
        forall|i: int|
            0 <= i < payloads(rs, bound).len() ==> i == payloads(rs, bound).len() - 1 || (
            #[trigger] payloads(rs, bound)[i]).len() >= bound,
{
    lemma_feed_sealed(rs, bound);
    let done = feed(rs, bound).0;
    let cs = chunks(rs, bound);
    assert forall|i: int| 0 <= i < cs.len() implies i == cs.len() - 1 || sealed_at_bound(
        #[trigger] cs[i],
        bound,
    ) by {
        if i < done.len() {
            assert(cs[i] == done[i]);
        }
    }
}

/// An empty stream gives no payload at all.
pub proof fn lemma_chunks_of_nothing(bound: nat)
    ensures
        chunks(Seq::empty(), bound) == Seq::<Seq<RecordView>>::empty(),
        payloads(Seq::empty(), bound) == Seq::<Seq<u8>>::empty(),
{
    assert(payloads(Seq::empty(), bound) =~= Seq::<Seq<u8>>::empty());
}

/// The accumulator: holds the frames of the records that were pushed since
/// the last payload was sealed.
pub struct Batcher {
    buf: Vec<u8>,
    bound: usize,
    held: Ghost<Seq<RecordView>>,
}

impl Batcher {
    /// The buffer holds the frames of the records held back, and fewer bytes
    /// than the bound.
    pub closed spec fn wf(self) -> bool {
        &&& self.buf@ == frames(self.held@)
        &&& all_frameable(self.held@)
        &&& (self.held@.len() == 0 || self.buf@.len() < self.bound)
    }

    /// The records that are held back.
    pub closed spec fn held(self) -> Seq<RecordView> {
        self.held@
    }

    /// The size at which a payload is sealed.
    pub closed spec fn bound(self) -> nat {
        self.bound as nat
    }

    /// An empty accumulator that seals a payload once it holds `bound` bytes.
    pub fn new(bound: usize) -> (b: Batcher)
        ensures
            b.wf(),
            b.held() == Seq::<RecordView>::empty(),
            b.bound() == bound,
    {
        Batcher { buf: Vec::new(), bound, held: Ghost(Seq::empty()) }
    }

    /// The number of bytes that are held back: always fewer than the bound,
    /// unless nothing is held.
    pub fn pending(&self) -> (n: usize)
        requires
            self.wf(),
        ensures
            n == frames(self.held()).len(),
            all_frameable(self.held()),
            self.held().len() == 0 || n < self.bound(),
    {
        self.buf.len()
    }

    /// Frames `record` into the accumulator. If that brings the accumulator
    /// to the bound, its contents are handed out as one payload and it starts
    /// empty again.
    pub fn push(&mut self, record: &WireRecord) -> (sealed: Option<Vec<u8>>)
        requires
            old(self).wf(),
        ensures
            final(self).wf(),
            final(self).bound() == old(self).bound(),
            frameable(record@),
            ({
                let now = old(self).held().push(record@);
                if frames(now).len() >= old(self).bound() {
                    sealed matches Some(payload) && payload@ == frames(now) && final(self).held()
                        == Seq::<RecordView>::empty()
                } else {
                    sealed is None && final(self).held() == now
                }
            }),
    {
        let ghost now = self.held@.push(record@);
        write_frame(record, &mut self.buf);
        proof {
            assert(now.drop_last() =~= old(self).held@);
            assert(self.buf@ == frames(now));
            assert(all_frameable(now)) by {
                assert forall|i: int| 0 <= i < now.len() implies frameable(#[trigger] now[i]) by {
                    if i < old(self).held@.len() {
                        assert(now[i] == old(self).held@[i]);
                    }
                }
            }
        }
        if self.buf.len() >= self.bound {
            let mut payload: Vec<u8> = Vec::new();
            std::mem::swap(&mut payload, &mut self.buf);
            self.held = Ghost(Seq::empty());
            Some(payload)
        } else {
            self.held = Ghost(now);
            None
        }
    }

    /// Ends the stream: what is still held back is handed out as the last
    /// payload, and the accumulator is empty again. Nothing is handed out
    /// where nothing is held.
    pub fn flush(&mut self) -> (last: Option<Vec<u8>>)
        requires
            old(self).wf(),
        ensures
            final(self).wf(),
            final(self).bound() == old(self).bound(),
            final(self).held() == Seq::<RecordView>::empty(),
            match last {
                Some(payload) => old(self).held().len() > 0 && payload@ == frames(old(self).held()),
                None => old(self).held().len() == 0,
            },
    {
        proof {
            lemma_frames_len(self.held@);
        }
        if self.buf.len() > 0 {
            let mut payload: Vec<u8> = Vec::new();
            std::mem::swap(&mut payload, &mut self.buf);
            self.held = Ghost(Seq::empty());
            Some(payload)
        } else {
            None
        }
    }
}

/// Packs all of `records` into payloads.
pub fn pack(records: &Vec<WireRecord>, bound: usize) -> (out: Vec<Vec<u8>>)
    ensures
        all_frameable(views(records@)),
        blobs_view(out@) == payloads(views(records@), bound as nat),
{
    let ghost rs = views(records@);
    let mut out: Vec<Vec<u8>> = Vec::new();
    let mut batcher = Batcher::new(bound);
    let mut i: usize = 0;
    proof {
        assert(rs.take(0) =~= Seq::<RecordView>::empty());
        assert(blobs_view(out@) =~= payloads_of(feed(rs.take(0), bound as nat).0));
    }
    while i < records.len()
        invariant
            i <= records@.len(),
            rs == views(records@),
            batcher.wf(),
            batcher.bound() == bound,
            batcher.held() == feed(rs.take(i as int), bound as nat).1,
            blobs_view(out@) == payloads_of(feed(rs.take(i as int), bound as nat).0),
            all_frameable(rs.take(i as int)),
        decreases records@.len() - i,
    {
        let ghost before = rs.take(i as int);
        let ghost after = rs.take(i + 1);
        let ghost sealed_before = blobs_view(out@);
        proof {
            assert(after.drop_last() =~= before);
            assert(after.last() == records@[i as int]@);
        }
        match batcher.push(&records[i]) {
            Some(payload) => {
                out.push(payload);
                proof {
                    assert(blobs_view(out@) =~= sealed_before.push(payload@));
                    assert(blobs_view(out@) =~= payloads_of(feed(after, bound as nat).0));
                }
            },
            None => {},
        }
        proof {
            assert forall|k: int| 0 <= k < after.len() implies frameable(#[trigger] after[k]) by {
                if k < before.len() {
                    assert(after[k] == before[k]);
                }
            }
        }
        i += 1;
    }
    let ghost sealed = blobs_view(out@);
    proof {
        assert(rs.take(records@.len() as int) =~= rs);
    }
    match batcher.flush() {
        Some(payload) => {
            out.push(payload);
            proof {
                assert(blobs_view(out@) =~= sealed.push(payload@));
            }
        },
        None => {},
    }
    proof {
        assert(blobs_view(out@) =~= payloads(rs, bound as nat));
    }
    out
}

} // verus!
