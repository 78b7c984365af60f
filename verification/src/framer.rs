//! Offset-tracking framer: turns a raw incoming byte stream, delivered in
//! arbitrary transport-determined chunks, into position-tagged frames, and
//! appends outgoing bytes verbatim to a transmit buffer.

use vstd::prelude::*;

verus! {

/// The contents of a `bytes::BytesMut` buffer, as a byte sequence.
/// `BytesMut` is opaque to the verifier; the trusted wrappers below state
/// their effect in terms of this view.
pub uninterp spec fn bytes_view(b: bytes::BytesMut) -> Seq<u8>;

#[verifier::external_type_specification]
#[verifier::external_body]
pub struct ExBytesMut(bytes::BytesMut);

/// Relies on `bytes::BytesMut::split`: removes and returns all bytes
/// currently in the buffer, leaving it empty.
#[verifier::external_body]
fn buf_take(src: &mut bytes::BytesMut) -> (r: Vec<u8>)
    ensures
        r@ == bytes_view(*old(src)),
        bytes_view(*final(src)).len() == 0,
{
    src.split().to_vec()
}

/// Relies on `bytes::BytesMut::extend_from_slice`: appends the given bytes
/// at the end of the buffer.
#[verifier::external_body]
fn buf_extend(dst: &mut bytes::BytesMut, data: &[u8])
    ensures
        bytes_view(*final(dst)) == bytes_view(*old(dst)) + data@,
{
    dst.extend_from_slice(data);
}

/// One decode step: given the cumulative offset and the chunk currently
/// buffered, the new offset and the frame emitted, if any. An empty chunk
/// emits nothing and leaves the offset unchanged; a non-empty chunk is
/// emitted whole, tagged with the old offset.
pub open spec fn decode_step(off: nat, chunk: Seq<u8>) -> (nat, Option<(nat, Seq<u8>)>) {
    if chunk.len() == 0 {
        (off, None)
    } else {
        ((off + chunk.len()) as nat, Some((off, chunk)))
    }
}

/// The frame returned by an exec decode call, as its mathematical value.
pub open spec fn frame_view(r: Option<(usize, Vec<u8>)>) -> Option<(nat, Seq<u8>)> {
    match r {
        Some((off, data)) => Some((off as nat, data@)),
        None => None,
    }
}

/// The frames a framer emits, starting at cumulative offset `off`, when the
/// transport delivers `chunks` in order: each non-empty chunk becomes one
/// frame, tagged with the offset accumulated so far. Returns the final
/// offset together with the emitted frames.
pub open spec fn decode_run(off: nat, chunks: Seq<Seq<u8>>) -> (nat, Seq<(nat, Seq<u8>)>)
    decreases chunks.len(),
{
    if chunks.len() == 0 {
        (off, Seq::<(nat, Seq<u8>)>::empty())
    } else {
        let step = decode_step(off, chunks[0]);
        let rest = decode_run(step.0, chunks.drop_first());
        let frames = match step.1 {
            Some(f) => seq![f] + rest.1,
            None => rest.1,
        };
        (rest.0, frames)
    }
}

/// The raw stream: all delivered chunks, concatenated in order.
pub open spec fn concat_chunks(chunks: Seq<Seq<u8>>) -> Seq<u8>
    decreases chunks.len(),
{
    if chunks.len() == 0 {
        Seq::<u8>::empty()
    } else {
        chunks[0] + concat_chunks(chunks.drop_first())
    }
}

/// The bytes of all emitted frames, concatenated in order.
pub open spec fn concat_frames(frames: Seq<(nat, Seq<u8>)>) -> Seq<u8>
    decreases frames.len(),
{
    if frames.len() == 0 {
        Seq::<u8>::empty()
    } else {
        frames[0].1 + concat_frames(frames.drop_first())
    }
}

/// Law (framer completeness): concatenating the bytes of every frame a
/// decode framer emits over a full stream reproduces the raw stream
/// exactly — frames partition the stream without loss or duplication.
pub proof fn lemma_frames_complete(off: nat, chunks: Seq<Seq<u8>>)
    ensures
        concat_frames(decode_run(off, chunks).1) == concat_chunks(chunks),
    decreases chunks.len(),
{
    if chunks.len() == 0 {
    } else {
        let step = decode_step(off, chunks[0]);
        let rest = decode_run(step.0, chunks.drop_first());
        lemma_frames_complete(step.0, chunks.drop_first());
        if chunks[0].len() == 0 {
            assert(chunks[0] + concat_chunks(chunks.drop_first()) =~= concat_chunks(
                chunks.drop_first(),
            ));
        } else {
            let frames = seq![(off, chunks[0])] + rest.1;
            assert(frames.drop_first() =~= rest.1);
            assert(frames[0].1 == chunks[0]);
        }
    }
}

/// Basic shape of a decode run: every emitted frame is non-empty, the
/// first frame (if any) is tagged with the starting offset, consecutive
/// frames are contiguous — each offset is the previous offset plus the
/// previous frame's length — and the final offset is the starting offset
/// plus the length of the whole stream.
pub proof fn lemma_frames_contiguous(off: nat, chunks: Seq<Seq<u8>>)
    ensures
        decode_run(off, chunks).0 == off + concat_chunks(chunks).len(),
        forall|i: int|
            0 <= i < decode_run(off, chunks).1.len() ==> decode_run(off, chunks).1[i].1.len() > 0,
        decode_run(off, chunks).1.len() > 0 ==> decode_run(off, chunks).1[0].0 == off,
        forall|i: int|
            0 <= i < decode_run(off, chunks).1.len() - 1 ==> decode_run(off, chunks).1[i + 1].0
                == decode_run(off, chunks).1[i].0 + decode_run(off, chunks).1[i].1.len(),
    decreases chunks.len(),
{
    if chunks.len() == 0 {
    } else {
        let step = decode_step(off, chunks[0]);
        let rest = decode_run(step.0, chunks.drop_first());
        lemma_frames_contiguous(step.0, chunks.drop_first());
        if chunks[0].len() == 0 {
        } else {
            let frames = decode_run(off, chunks).1;
            assert(frames =~= seq![(off, chunks[0])] + rest.1);
            assert forall|i: int| 0 <= i < frames.len() - 1 implies frames[i + 1].0 == frames[i].0
                + frames[i].1.len() by {
                if i == 0 {
                    if rest.1.len() > 0 {
                        assert(frames[1] == rest.1[0]);
                    }
                } else {
                    assert(frames[i] == rest.1[i - 1]);
                    assert(frames[i + 1] == rest.1[i]);
                }
            }
        }
    }
}

/// Helper: under contiguity and non-emptiness of every frame, offsets are
/// strictly increasing between any two frame positions.
proof fn lemma_contiguous_implies_increasing(frames: Seq<(nat, Seq<u8>)>, i: int, j: int)
    requires
        forall|k: int| 0 <= k < frames.len() ==> frames[k].1.len() > 0,
        forall|k: int|
            0 <= k < frames.len() - 1 ==> frames[k + 1].0 == frames[k].0 + frames[k].1.len(),
        0 <= i < j < frames.len(),
    ensures
        frames[i].0 < frames[j].0,
    decreases j - i,
{
    if j == i + 1 {
        assert(frames[i + 1].0 == frames[i].0 + frames[i].1.len());
    } else {
        lemma_contiguous_implies_increasing(frames, i, j - 1);
        assert(frames[j - 1 + 1].0 == frames[j - 1].0 + frames[j - 1].1.len());
    }
}

/// Helper: each frame's offset is the starting offset plus the total
/// length of the frames before it, given contiguity.
proof fn lemma_contiguous_implies_sums(frames: Seq<(nat, Seq<u8>)>, off: nat)
    requires
        frames.len() > 0 ==> frames[0].0 == off,
        forall|k: int|
            0 <= k < frames.len() - 1 ==> frames[k + 1].0 == frames[k].0 + frames[k].1.len(),
    ensures
        forall|i: int|
            0 <= i < frames.len() ==> frames[i].0 == off + concat_frames(frames.take(i)).len(),
    decreases frames.len(),
{
    if frames.len() == 0 {
    } else {
        let tail = frames.drop_first();
        assert forall|k: int| 0 <= k < tail.len() - 1 implies tail[k + 1].0 == tail[k].0
            + tail[k].1.len() by {
            assert(tail[k + 1] == frames[k + 2]);
            assert(tail[k] == frames[k + 1]);
            assert(frames[(k + 1) + 1].0 == frames[k + 1].0 + frames[k + 1].1.len());
        }
        if tail.len() > 0 {
            let z: int = 0;
            assert(frames[z + 1].0 == frames[z].0 + frames[z].1.len());
            assert(tail[0].0 == off + frames[0].1.len());
        }
        lemma_contiguous_implies_sums(tail, (off + frames[0].1.len()) as nat);
        assert forall|i: int| 0 <= i < frames.len() implies frames[i].0 == off + concat_frames(
            frames.take(i),
        ).len() by {
            if i == 0 {
                assert(frames.take(0) =~= Seq::<(nat, Seq<u8>)>::empty());
            } else {
                assert(frames[i] == tail[i - 1]);
                assert(tail[i - 1].0 == off + frames[0].1.len() + concat_frames(
                    tail.take(i - 1),
                ).len());
                let t = frames.take(i);
                assert(t.drop_first() =~= tail.take(i - 1));
                assert(concat_frames(t) == t[0].1 + concat_frames(t.drop_first()));
            }
        }
    }
}

/// Law (framer offset monotonicity): over any sequence of chunks fed to a
/// decode framer, the emitted offsets are strictly increasing, and each
/// frame's offset equals the starting offset plus the total length of all
/// frames emitted before it — no gaps, no overlap.
pub proof fn lemma_offset_monotonicity(off: nat, chunks: Seq<Seq<u8>>)
    ensures
        forall|i: int, j: int|
            0 <= i < j < decode_run(off, chunks).1.len() ==> decode_run(off, chunks).1[i].0
                < decode_run(off, chunks).1[j].0,
        forall|i: int|
            0 <= i < decode_run(off, chunks).1.len() ==> decode_run(off, chunks).1[i].0 == off
                + concat_frames(decode_run(off, chunks).1.take(i)).len(),
{
    let frames = decode_run(off, chunks).1;
    lemma_frames_contiguous(off, chunks);
    lemma_contiguous_implies_sums(frames, off);
    assert forall|i: int, j: int| 0 <= i < j < frames.len() implies frames[i].0 < frames[j].0 by {
        lemma_contiguous_implies_increasing(frames, i, j);
    }
}

/// Each emitted frame carries exactly the slice of the raw stream that
/// starts at its offset (measured from the starting offset of the run).
pub proof fn lemma_frames_are_slices(off: nat, chunks: Seq<Seq<u8>>)
    ensures
        forall|i: int|
            #![trigger decode_run(off, chunks).1[i]]
            0 <= i < decode_run(off, chunks).1.len() ==> {
                let f = decode_run(off, chunks).1[i];
                &&& off <= f.0
                &&& f.0 - off + f.1.len() <= concat_chunks(chunks).len()
                &&& f.1 == concat_chunks(chunks).subrange(
                    f.0 - off,
                    f.0 - off + f.1.len() as int,
                )
            },
    decreases chunks.len(),
{
    if chunks.len() == 0 {
    } else {
        let s = concat_chunks(chunks);
        let step = decode_step(off, chunks[0]);
        let rest = decode_run(step.0, chunks.drop_first());
        let srest = concat_chunks(chunks.drop_first());
        lemma_frames_are_slices(step.0, chunks.drop_first());
        let frames = decode_run(off, chunks).1;
        if chunks[0].len() == 0 {
            assert(s =~= srest);
            assert forall|i: int|
                #![trigger frames[i]]
                0 <= i < frames.len() implies {
                let f = frames[i];
                &&& off <= f.0
                &&& f.0 - off + f.1.len() <= s.len()
                &&& f.1 == s.subrange(f.0 - off, f.0 - off + f.1.len() as int)
            } by {
                assert(frames[i] == rest.1[i]);
            }
        } else {
            let len0 = chunks[0].len() as int;
            assert(frames =~= seq![(off, chunks[0])] + rest.1);
            assert forall|i: int|
                #![trigger frames[i]]
                0 <= i < frames.len() implies {
                let f = frames[i];
                &&& off <= f.0
                &&& f.0 - off + f.1.len() <= s.len()
                &&& f.1 == s.subrange(f.0 - off, f.0 - off + f.1.len() as int)
            } by {
                if i == 0 {
                    assert(s.subrange(0, len0) =~= chunks[0]);
                } else {
                    let f = rest.1[i - 1];
                    assert(frames[i] == f);
                    let a = f.0 - step.0;
                    assert(f.1 == srest.subrange(a, a + f.1.len() as int));
                    assert(s.subrange(len0 + a, len0 + a + f.1.len() as int) =~= srest.subrange(
                        a,
                        a + f.1.len() as int,
                    ));
                    assert(f.0 - off == len0 + a);
                }
            }
        }
    }
}

/// A stream framer for one direction. The only state is the cumulative
/// number of bytes already emitted as frames on that direction.
pub struct Framer {
    /// Cumulative offset: the sum of the lengths of all frames emitted so
    /// far by this instance.
    pub offset: usize,
}

impl Framer {
    /// A fresh framer, at offset zero.
    pub fn new() -> (r: Framer)
        ensures
            r.offset == 0,
    {
        Framer { offset: 0 }
    }

    /// Decode step: drain whatever the transport has buffered and, if that
    /// was anything at all, emit it as one frame tagged with the current
    /// cumulative offset.
    pub fn decode(&mut self, src: &mut bytes::BytesMut) -> (r: Option<(usize, Vec<u8>)>)
        requires
            old(self).offset + bytes_view(*old(src)).len() <= usize::MAX,
        ensures
            bytes_view(*final(src)).len() == 0,
            final(self).offset as nat == decode_step(
                old(self).offset as nat,
                bytes_view(*old(src)),
            ).0,
            frame_view(r) == decode_step(old(self).offset as nat, bytes_view(*old(src))).1,
    {
        let data = buf_take(src);
        if data.len() == 0 {
            None
        } else {
            let offset = self.offset;
            self.offset = self.offset + data.len();
            Some((offset, data))
        }
    }

    /// Encode step: append the outgoing bytes verbatim to the transmit
    /// buffer. No offset bookkeeping happens on the write path.
    pub fn encode(&mut self, item: &[u8], dst: &mut bytes::BytesMut)
        ensures
            bytes_view(*final(dst)) == bytes_view(*old(dst)) + item@,
            final(self).offset == old(self).offset,
    {
        buf_extend(dst, item);
    }
}

} // verus!
