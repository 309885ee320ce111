//! Streaming frame reassembly.
//!
//! A transport delivers bytes in arbitrary pieces: one frame may arrive over
//! several reads and one read may carry several frames.  [`FrameBuffer`]
//! accumulates whatever arrives and hands back exactly one whole payload per
//! [`FrameBuffer::poll`], leaving a partial tail buffered.  The lemmas below
//! state why chunk boundaries cannot matter: the buffer is the plain
//! concatenation of everything fed, and a buffer holding a stream of frames
//! yields those frames one by one, in order, regardless of how the bytes
//! were split in transit.

use vstd::prelude::*;

use crate::codec::{
    append_bytes,
    be32_read,
    be32_val,
    lemma_be32_of_bytes,
    lemma_be32_of_val,
    spec_be32,
    spec_frame,
    MAX_PREFIX,
};

verus! {

/// The buffered bytes do not yet hold one whole frame: either the length
/// prefix itself is incomplete, or fewer payload bytes than it announces
/// have arrived.  This is the state that asks for more input; it is never an
/// error.
pub open spec fn incomplete_at(b: Seq<u8>) -> bool {
    b.len() < 4 || b.len() < 4 + be32_val(b.take(4))
}

/// Reassembles frames from a stream of byte chunks.  Its view is the
/// sequence of buffered, not yet consumed bytes.
pub struct FrameBuffer {
    buf: Vec<u8>,
}

impl View for FrameBuffer {
    type V = Seq<u8>;

    closed spec fn view(&self) -> Seq<u8> {
        self.buf@
    }
}

impl FrameBuffer {
    /// An empty buffer.
    pub fn new() -> (r: FrameBuffer)
        ensures
            r@ == Seq::<u8>::empty(),
    {
        FrameBuffer { buf: Vec::new() }
    }

    /// Appends one received chunk.  Nothing but concatenation happens here,
    /// so how a stream was cut into chunks cannot influence anything that
    /// follows.
    pub fn feed(&mut self, chunk: &[u8])
        ensures
            final(self)@ == old(self)@ + chunk@,
    {
        append_bytes(&mut self.buf, chunk);
    }

    /// Removes and returns the first whole payload, or returns `None` and
    /// leaves the buffer unchanged when no whole frame has arrived yet.
    pub fn poll(&mut self) -> (r: Option<Vec<u8>>)
        ensures
            (match r {
                None => final(self)@ == old(self)@ && incomplete_at(old(self)@),
                Some(p) => {
                    &&& !incomplete_at(old(self)@)
                    &&& p@.len() <= MAX_PREFIX
                    &&& old(self)@ == spec_frame(p@) + final(self)@
                    &&& p@ == old(self)@.subrange(4, 4 + be32_val(old(self)@.take(4)))
                    &&& final(self)@ == old(self)@.skip(4 + be32_val(old(self)@.take(4)))
                },
            }),
    {
        if self.buf.len() < 4 {
            return None;
        }
        let n = be32_read(self.buf.as_slice());
        if self.buf.len() - 4 < n as usize {
            return None;
        }
        let ghost b0 = self.buf@;
        let mut tail = self.buf.split_off(4);
        let rest = tail.split_off(n as usize);
        proof {
            lemma_be32_of_bytes(b0.take(4));
            assert(tail@ == b0.subrange(4, 4 + n as int));
            assert(rest@ =~= b0.skip(4 + n as int));
            assert(spec_frame(tail@) =~= b0.take(4) + tail@);
            assert(b0 =~= (b0.take(4) + tail@) + rest@);
        }
        self.buf = rest;
        Some(tail)
    }
}

/// The byte stream carrying the payload sequence `ps`, one frame per
/// payload, back to back.
pub open spec fn concat_frames(ps: Seq<Seq<u8>>) -> Seq<u8>
    decreases ps.len(),
{
    if ps.len() == 0 {
        Seq::empty()
    } else {
        spec_frame(ps[0]) + concat_frames(ps.drop_first())
    }
}

/// Every payload of the sequence fits its frame's length prefix.
pub open spec fn frames_fit(ps: Seq<Seq<u8>>) -> bool {
    forall|i: int| 0 <= i < ps.len() ==> #[trigger] ps[i].len() <= MAX_PREFIX
}

/// The concatenation of a sequence of chunks.
pub open spec fn concat_chunks(cs: Seq<Seq<u8>>) -> Seq<u8>
    decreases cs.len(),
{
    if cs.len() == 0 {
        Seq::empty()
    } else {
        cs[0] + concat_chunks(cs.drop_first())
    }
}

/// Chunk boundaries carry no information: cutting any one chunk in two
/// leaves the reassembled stream, and so everything the decoder does with
/// it, unchanged.
pub proof fn lemma_chunk_split_irrelevant(cs: Seq<Seq<u8>>, i: int, k: int)
    requires
        0 <= i < cs.len(),
        0 <= k <= cs[i].len(),
    ensures
        concat_chunks(cs.take(i) + seq![cs[i].take(k), cs[i].skip(k)] + cs.skip(i + 1))
            == concat_chunks(cs),
    decreases i,
{
    if i == 0 {
        let cs2 = cs.take(0) + seq![cs[0].take(k), cs[0].skip(k)] + cs.skip(1);
        assert(cs2.drop_first().drop_first() =~= cs.drop_first());
        assert(cs2.drop_first()[0] == cs[0].skip(k));
        assert(concat_chunks(cs2) == cs2[0] + concat_chunks(cs2.drop_first()));
        assert(concat_chunks(cs2.drop_first()) == cs2.drop_first()[0] + concat_chunks(
            cs2.drop_first().drop_first(),
        ));
        assert(concat_chunks(cs) == cs[0] + concat_chunks(cs.drop_first()));
        assert(cs2[0] + (cs2.drop_first()[0] + concat_chunks(cs.drop_first())) =~= cs[0]
            + concat_chunks(cs.drop_first()));
    } else {
        let cs2 = cs.take(i) + seq![cs[i].take(k), cs[i].skip(k)] + cs.skip(i + 1);
        let ds = cs.drop_first();
        lemma_chunk_split_irrelevant(ds, i - 1, k);
        assert(cs2.drop_first() =~= ds.take(i - 1) + seq![ds[i - 1].take(k), ds[i - 1].skip(k)]
            + ds.skip(i));
        assert(cs2[0] == cs[0]);
        assert(concat_chunks(cs2) == cs2[0] + concat_chunks(cs2.drop_first()));
        assert(concat_chunks(cs) == cs[0] + concat_chunks(ds));
    }
}

/// A strict prefix of one frame never counts as a whole frame: the buffer
/// reports it incomplete and waits for the rest.
pub proof fn lemma_partial_frame_incomplete(p: Seq<u8>, k: int)
    requires
        p.len() <= MAX_PREFIX,
        0 <= k < spec_frame(p).len(),
    ensures
        incomplete_at(spec_frame(p).take(k)),
{
    let t = spec_frame(p).take(k);
    if k >= 4 {
        assert(t.take(4) =~= spec_be32(p.len() as int));
        lemma_be32_of_val(p.len() as int);
    }
}

/// A buffer holding the frames of payloads `ps` and then a tail is complete
/// at its front, and one extraction yields exactly `ps[0]` and leaves the
/// stream of the remaining payloads and the tail.  Applied once per `poll`,
/// this reconstructs the original payload sequence in order, whatever the
/// chunking was.
pub proof fn lemma_stream_step(ps: Seq<Seq<u8>>, tail: Seq<u8>)
    requires
        ps.len() > 0,
        frames_fit(ps),
    ensures
        ({
            let b = concat_frames(ps) + tail;
            &&& !incomplete_at(b)
            &&& be32_val(b.take(4)) == ps[0].len()
            &&& b.subrange(4, 4 + ps[0].len() as int) == ps[0]
            &&& b.skip(4 + ps[0].len() as int) == concat_frames(ps.drop_first()) + tail
        }),
{
    let b = concat_frames(ps) + tail;
    let f0 = spec_frame(ps[0]);
    let rest = concat_frames(ps.drop_first()) + tail;
    assert(b =~= f0 + rest);
    assert(f0.len() == 4 + ps[0].len());
    assert(b.take(4) =~= spec_be32(ps[0].len() as int)) by {
        assert forall|i: int| 0 <= i < 4 implies b.take(4)[i] == spec_be32(
            ps[0].len() as int,
        )[i] by {
            assert(b[i] == f0[i]);
        }
    }
    lemma_be32_of_val(ps[0].len() as int);
    assert(b.subrange(4, 4 + ps[0].len() as int) =~= ps[0]) by {
        assert forall|i: int| 0 <= i < ps[0].len() implies b.subrange(4, 4 + ps[0].len() as int)[i]
            == ps[0][i] by {
            assert(b[4 + i] == f0[4 + i]);
        }
    }
    assert(b.skip(4 + ps[0].len() as int) =~= rest) by {
        assert forall|i: int| 0 <= i < rest.len() implies b.skip(4 + ps[0].len() as int)[i]
            == rest[i] by {
            assert(b[f0.len() + i] == rest[i]);
        }
    }
}

} // verus!
