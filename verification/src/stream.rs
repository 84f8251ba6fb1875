//! Streaming reassembly: frames out of a byte stream that arrives in chunks
//! cut at arbitrary places.
//!
//! The reassembly step of the wire protocol is applied to a growing buffer
//! until it asks for more data. What comes out does not depend on where the
//! chunks were cut.

use crate::frame::{
    declared_len, frame_arrived, lemma_encoding_layout, lemma_try_decode_partial,
    lemma_try_decode_whole, try_decode_spec, DecodeError, FrameView, HEADER_LEN,
};
use vstd::prelude::*;

verus! {

/// The bytes of `frames` on the wire, one after the other.
pub open spec fn wire_of(frames: Seq<FrameView>) -> Seq<u8>
    decreases frames.len(),
{
    if frames.len() == 0 {
        Seq::empty()
    } else {
        frames[0].encoding() + wire_of(frames.drop_first())
    }
}

/// Whether every frame of `frames` can be encoded.
pub open spec fn all_encodable(frames: Seq<FrameView>) -> bool {
    forall|i: int| 0 <= i < frames.len() ==> (#[trigger] frames[i]).encodable()
}

/// The chunks of a stream, joined in arrival order.
pub open spec fn joined(chunks: Seq<Seq<u8>>) -> Seq<u8>
    decreases chunks.len(),
{
    if chunks.len() == 0 {
        Seq::empty()
    } else {
        chunks[0] + joined(chunks.drop_first())
    }
}

/// What came of draining a buffer.
pub struct Drained {
    /// The frames handed out, in order.
    pub frames: Seq<FrameView>,
    /// The bytes that stay buffered.
    pub rest: Seq<u8>,
    /// The protocol error at which draining stopped, if it did.
    pub error: Option<DecodeError>,
}

/// Draining `buf`: the reassembly step is repeated until it asks for more
/// data or meets a protocol error.
pub open spec fn drain_spec(buf: Seq<u8>) -> Drained
    decreases buf.len(),
{
    let step = try_decode_spec(buf);
    match step.0 {
        Ok(Some(frame)) => if step.1.len() < buf.len() {
            let later = drain_spec(step.1);
            Drained { frames: seq![frame] + later.frames, rest: later.rest, error: later.error }
        } else {
            Drained { frames: seq![frame], rest: step.1, error: None }
        },
        Ok(None) => Drained { frames: Seq::empty(), rest: buf, error: None },
        Err(e) => Drained { frames: Seq::empty(), rest: buf, error: Some(e) },
    }
}

/// Feeding `chunks` one at a time into a connection that holds `buf`,
/// draining after each chunk and stopping at the first protocol error.
pub open spec fn feed_spec(buf: Seq<u8>, chunks: Seq<Seq<u8>>) -> Drained
    decreases chunks.len(),
{
    if chunks.len() == 0 {
        Drained { frames: Seq::empty(), rest: buf, error: None }
    } else {
        let now = drain_spec(buf + chunks[0]);
        if now.error is Some {
            now
        } else {
            let later = feed_spec(now.rest, chunks.drop_first());
            Drained { frames: now.frames + later.frames, rest: later.rest, error: later.error }
        }
    }
}

/// A step that hands out a frame consumes at least a header.
pub proof fn lemma_step_consumes(buf: Seq<u8>)
    requires
        try_decode_spec(buf).0 is Ok,
        try_decode_spec(buf).0->Ok_0 is Some,
    ensures
        try_decode_spec(buf).1.len() + HEADER_LEN <= buf.len(),
        try_decode_spec(buf).1 == buf.skip(HEADER_LEN + declared_len(buf)),
{
}

/// A step on a buffer in which a whole candidate frame has arrived is not
/// changed by bytes that arrive behind it, but for the bytes left over.
pub proof fn lemma_step_stable(buf: Seq<u8>, more: Seq<u8>)
    requires
        frame_arrived(buf),
    ensures
        frame_arrived(buf + more),
        try_decode_spec(buf + more).0 == try_decode_spec(buf).0,
        try_decode_spec(buf).0 is Err ==> try_decode_spec(buf + more).1 == buf + more,
        try_decode_spec(buf).0 is Ok ==> try_decode_spec(buf + more).1 == try_decode_spec(buf).1
            + more,
{
    let whole = buf + more;
    assert(whole.subrange(17, 21) =~= buf.subrange(17, 21));
    let total = HEADER_LEN + declared_len(buf);
    assert(whole.take(total as int) =~= buf.take(total as int));
    assert(whole.skip(total as int) =~= buf.skip(total as int) + more);
}

/// What is left after draining without error holds no whole frame.
pub proof fn lemma_drain_rest(buf: Seq<u8>)
    ensures
        drain_spec(buf).error is None ==> !frame_arrived(drain_spec(buf).rest),
        drain_spec(buf).error is None ==> drain_spec(drain_spec(buf).rest) == (Drained {
            frames: Seq::empty(),
            rest: drain_spec(buf).rest,
            error: None,
        }),
    decreases buf.len(),
{
    let step = try_decode_spec(buf);
    if step.0 is Ok && step.0->Ok_0 is Some {
        lemma_step_consumes(buf);
        lemma_drain_rest(step.1);
    }
}

/// Chunk boundaries do not matter: draining `buf`, and then what is left of
/// it together with `more`, hands out what draining `buf + more` hands out.
pub proof fn lemma_drain_append(buf: Seq<u8>, more: Seq<u8>)
    ensures
        drain_spec(buf).error is None ==> {
            let first = drain_spec(buf);
            let second = drain_spec(first.rest + more);
            drain_spec(buf + more) == (Drained {
                frames: first.frames + second.frames,
                rest: second.rest,
                error: second.error,
            })
        },
        drain_spec(buf).error is Some ==> {
            let first = drain_spec(buf);
            drain_spec(buf + more) == (Drained {
                frames: first.frames,
                rest: first.rest + more,
                error: first.error,
            })
        },
    decreases buf.len(),
{
    let first = drain_spec(buf);
    let step = try_decode_spec(buf);
    if frame_arrived(buf) {
        lemma_step_stable(buf, more);
        match step.0 {
            Ok(Some(frame)) => {
                lemma_step_consumes(buf);
                lemma_step_consumes(buf + more);
                lemma_drain_append(step.1, more);
                let later = drain_spec(step.1);
                if later.error is None {
                    let second = drain_spec(later.rest + more);
                    assert(seq![frame] + (later.frames + second.frames) =~= (seq![frame]
                        + later.frames) + second.frames);
                }
            },
            Ok(None) => {},
            Err(e) => {},
        }
    } else {
        assert(first.frames + drain_spec(buf + more).frames =~= drain_spec(buf + more).frames);
    }
}

/// Draining the wire bytes of `frames`, followed by `tail`, hands out
/// `frames` and then what draining `tail` hands out.
pub proof fn lemma_drain_wire_then(frames: Seq<FrameView>, tail: Seq<u8>)
    requires
        all_encodable(frames),
    ensures
        drain_spec(wire_of(frames) + tail) == (Drained {
            frames: frames + drain_spec(tail).frames,
            rest: drain_spec(tail).rest,
            error: drain_spec(tail).error,
        }),
    decreases frames.len(),
{
    if frames.len() == 0 {
        assert(wire_of(frames) + tail =~= tail);
        assert(frames + drain_spec(tail).frames =~= drain_spec(tail).frames);
    } else {
        let first = frames[0];
        let others = frames.drop_first();
        assert(first.encodable());
        assert(all_encodable(others)) by {
            assert forall|i: int| 0 <= i < others.len() implies (#[trigger] others[i]).encodable() by {
                assert(others[i] == frames[i + 1]);
            }
        }
        let behind = wire_of(others) + tail;
        lemma_try_decode_whole(first, behind);
        lemma_encoding_layout(first);
        lemma_drain_wire_then(others, tail);
        assert(wire_of(frames) + tail =~= first.encoding() + behind);
        assert(seq![first] + (others + drain_spec(tail).frames) =~= frames + drain_spec(
            tail,
        ).frames);
    }
}

/// Feeding chunk by chunk hands out the frames, and meets the error, that
/// draining the joined stream in one piece does.
pub proof fn lemma_feed_is_drain(buf: Seq<u8>, chunks: Seq<Seq<u8>>)
    requires
        !frame_arrived(buf),
    ensures
        feed_spec(buf, chunks).frames == drain_spec(buf + joined(chunks)).frames,
        feed_spec(buf, chunks).error == drain_spec(buf + joined(chunks)).error,
        feed_spec(buf, chunks).error is None ==> feed_spec(buf, chunks).rest == drain_spec(
            buf + joined(chunks),
        ).rest,
    decreases chunks.len(),
{
    if chunks.len() == 0 {
        assert(buf + joined(chunks) =~= buf);
    } else {
        let head = chunks[0];
        let others = chunks.drop_first();
        let now = drain_spec(buf + head);
        assert(buf + joined(chunks) =~= (buf + head) + joined(others));
        lemma_drain_append(buf + head, joined(others));
        if now.error is None {
            lemma_drain_rest(buf + head);
            lemma_feed_is_drain(now.rest, others);
        }
    }
}

/// Streaming decode equivalence: whatever the chunk boundaries, feeding the
/// wire bytes of `frames` hands out exactly `frames`, in order, and leaves an
/// empty buffer, on which the next step asks for more data.
pub proof fn lemma_stream_equivalence(frames: Seq<FrameView>, chunks: Seq<Seq<u8>>)
    requires
        all_encodable(frames),
        joined(chunks) == wire_of(frames),
    ensures
        feed_spec(Seq::empty(), chunks) == (Drained {
            frames: frames,
            rest: Seq::empty(),
            error: None,
        }),
        try_decode_spec(Seq::empty()) == (
            Ok::<Option<FrameView>, DecodeError>(None),
            Seq::<u8>::empty(),
        ),
{
    let empty = Seq::<u8>::empty();
    lemma_feed_is_drain(empty, chunks);
    lemma_drain_wire_then(frames, empty);
    assert(empty + joined(chunks) =~= wire_of(frames) + empty);
    assert(frames + drain_spec(empty).frames =~= frames);
}

/// A buffer that holds whole frames and then a proper prefix of one more
/// hands out the whole frames and keeps the prefix.
pub proof fn lemma_drain_partial(frames: Seq<FrameView>, next: FrameView, k: int)
    requires
        all_encodable(frames),
        next.encodable(),
        0 <= k < next.encoding().len(),
    ensures
        drain_spec(wire_of(frames) + next.encoding().take(k)) == (Drained {
            frames: frames,
            rest: next.encoding().take(k),
            error: None,
        }),
{
    let part = next.encoding().take(k);
    lemma_try_decode_partial(next, k);
    lemma_drain_wire_then(frames, part);
    assert(frames + drain_spec(part).frames =~= frames);
}

} // verus!
