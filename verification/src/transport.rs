//! The frame transport's inbound side: a stream buffer over the frame codec.
//!
//! The buffer holds the prefix of the inbound byte stream not yet parsed as
//! a complete frame. Bytes are appended as they arrive, in arbitrary
//! fragmentation; frames are taken off the front once whole. A `NeedMore`
//! leaves the buffer byte-identical, so decoding is retried safely on every
//! new batch.

use vstd::prelude::*;

use crate::frames::{
    frame_bytes, lemma_decode_bytes, spec_decode, Decision, Message, MessageCodec, SpecDecision,
};

verus! {

/// The concatenated encodings of a run of frames.
pub open spec fn cat_frames(ms: Seq<crate::frames::Frame>) -> Seq<u8>
    decreases ms.len(),
{
    if ms.len() == 0 {
        Seq::empty()
    } else {
        frame_bytes(ms[0]) + cat_frames(ms.skip(1))
    }
}

/// Appending a frame to a run appends its encoding to the run's bytes.
proof fn lemma_cat_frames_push(ms: Seq<crate::frames::Frame>, f: crate::frames::Frame)
    ensures
        cat_frames(ms.push(f)) == cat_frames(ms) + frame_bytes(f),
    decreases ms.len(),
{
    if ms.len() == 0 {
        assert(ms.push(f)[0] == f);
        assert(ms.push(f).skip(1) =~= Seq::<crate::frames::Frame>::empty());
        assert(cat_frames(Seq::<crate::frames::Frame>::empty()) == Seq::<u8>::empty());
        assert(cat_frames(ms.push(f)) == frame_bytes(f) + Seq::<u8>::empty());
        assert(cat_frames(ms.push(f)) =~= cat_frames(ms) + frame_bytes(f));
    } else {
        assert(ms.push(f).skip(1) =~= ms.skip(1).push(f));
        lemma_cat_frames_push(ms.skip(1), f);
        assert(cat_frames(ms.push(f)) =~= cat_frames(ms) + frame_bytes(f));
    }
}

/// One connection's inbound framing state: the bytes received but not yet
/// consumed as complete frames.
#[derive(Debug)]
pub struct FrameTransport {
    codec: MessageCodec,
    buffer: Vec<u8>,
}

impl View for FrameTransport {
    type V = Seq<u8>;

    closed spec fn view(&self) -> Seq<u8> {
        self.buffer@
    }
}

impl FrameTransport {
    /// An empty stream buffer.
    pub fn new() -> (t: Self)
        ensures
            t@ == Seq::<u8>::empty(),
    {
        FrameTransport { codec: MessageCodec, buffer: Vec::new() }
    }

    /// Append one batch of received bytes, exactly as they arrived.
    pub fn feed(&mut self, chunk: &Vec<u8>)
        ensures
            final(self)@ == old(self)@ + chunk@,
    {
        self.buffer.extend_from_slice(chunk.as_slice());
    }

    /// Try to take one frame off the front of the buffer. `NeedMore` and
    /// `ProtocolError` change nothing; a complete frame is removed, and the
    /// bytes removed are exactly that frame's encoding.
    pub fn next_frame(&mut self) -> (r: Decision)
        ensures
            r@ == spec_decode(old(self)@),
            r is NeedMore || r is ProtocolError ==> final(self)@ == old(self)@,
            (match r {
                Decision::Complete(m, c) => {
                    &&& crate::frames::wf_frame(m@)
                    &&& 1 <= c <= old(self)@.len()
                    &&& old(self)@ == frame_bytes(m@) + final(self)@
                    &&& final(self)@ == old(self)@.skip(c as int)
                },
                _ => true,
            }),
    {
        let d = self.codec.decode(&self.buffer);
        match d {
            Decision::Complete(m, c) => {
                proof {
                    lemma_decode_bytes(self.buffer@);
                }
                let mut rest: Vec<u8> = Vec::new();
                let mut k: usize = c;
                let blen = self.buffer.len();
                while k < blen
                    invariant
                        c <= k <= blen,
                        blen == self.buffer@.len(),
                        rest@ == self.buffer@.subrange(c as int, k as int),
                    decreases blen - k,
                {
                    rest.push(self.buffer[k]);
                    assert(self.buffer@.subrange(c as int, k + 1) == self.buffer@.subrange(
                        c as int,
                        k as int,
                    ).push(self.buffer@[k as int]));
                    k = k + 1;
                }
                assert(rest@ == self.buffer@.skip(c as int));
                let ghost before = self.buffer@;
                self.buffer = rest;
                proof {
                    assert(frame_bytes(m@) == before.subrange(0, c as int));
                    assert(before =~= frame_bytes(m@) + before.skip(c as int));
                }
                Decision::Complete(m, c)
            },
            Decision::NeedMore => Decision::NeedMore,
            Decision::ProtocolError => Decision::ProtocolError,
        }
    }

    /// Take every complete frame now buffered, in arrival order, stopping
    /// at an incomplete tail (`ok` true) or at an unusable byte (`ok`
    /// false). The bytes consumed are exactly the returned frames'
    /// encodings, in order.
    pub fn drain_frames(&mut self) -> (r: (Vec<Message>, bool))
        ensures
            old(self)@ == cat_frames(r.0@.map_values(|m: Message| m@)) + final(self)@,
            forall|j: int| 0 <= j < r.0@.len() ==> crate::frames::wf_frame(#[trigger] r.0@[j]@),
            r.1 ==> spec_decode(final(self)@) is NeedMore,
            !r.1 ==> spec_decode(final(self)@) is ProtocolError,
    {
        let mut out: Vec<Message> = Vec::new();
        loop
            invariant
                old(self)@ == cat_frames(out@.map_values(|m: Message| m@)) + self@,
                forall|j: int|
                    0 <= j < out@.len() ==> crate::frames::wf_frame(#[trigger] out@[j]@),
            decreases self@.len(),
        {
            let ghost frames_before = out@.map_values(|m: Message| m@);
            let d = self.next_frame();
            match d {
                Decision::Complete(m, _c) => {
                    proof {
                        lemma_cat_frames_push(frames_before, m@);
                    }
                    out.push(m);
                    proof {
                        assert(out@.map_values(|m: Message| m@) == frames_before.push(m@));
                        assert(cat_frames(frames_before) + (frame_bytes(m@) + self@)
                            =~= cat_frames(frames_before.push(m@)) + self@);
                    }
                },
                Decision::NeedMore => {
                    return (out, true);
                },
                Decision::ProtocolError => {
                    return (out, false);
                },
            }
        }
    }
}

} // verus!
