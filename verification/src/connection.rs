//! One client connection: bytes in, frames dispatched, answers out.
//!
//! A connection is `Reading` while it waits for bytes, `Dispatching` while
//! its buffer may hold whole frames, and `Closed` for good after the end of
//! the stream, a protocol violation or a failed commit. Closing one
//! connection never touches the broker or any other connection.

use crate::dispatch::{
    all_admissible, answer_of, answers, answers_of, commit_size, committed, fanned,
    lemma_commit_size_of_prefix, lemma_dispatched, lemma_failed, lemma_stored_run_in_memory,
    settled, stored_run, subscribed, unsettled,
};
use crate::frame::{try_decode_spec, DecodeError, Frame, FrameType, FrameView};
use crate::server::{Reply, Server};
use crate::record::{lemma_record_layout, RecordView, RECORD_HEADER_LEN};
use crate::server::stored_as;
use crate::storage::{MemoryStorage, Storage, StorageError};
use crate::stream::{drain_spec, lemma_step_consumes, Drained};
use vstd::prelude::*;

verus! {

/// Why a connection was closed.
#[derive(Debug, Clone, Copy, PartialEq, Eq)]
pub enum CloseReason {
    /// The peer closed the stream: a read came back empty.
    EndOfStream,
    /// The bytes on the wire are no frame.
    Protocol(DecodeError),
    /// A `Publish` broke the frame invariant: it came without a payload.
    InvalidFrame,
    /// A publish could not be made durable.
    Storage(StorageError),
}

/// Where a connection stands.
#[derive(Debug, Clone, Copy, PartialEq, Eq)]
pub enum ConnectionState {
    /// Waiting for more bytes.
    Reading,
    /// The buffer may hold whole frames.
    Dispatching,
    /// The only terminal state.
    Closed(CloseReason),
}

/// The reassembly buffer and the state of one connection.
#[derive(Debug)]
pub struct Connection {
    buf: Vec<u8>,
    state: ConnectionState,
}

impl Connection {
    /// The bytes that have arrived and have not been dispatched.
    pub closed spec fn buffered(&self) -> Seq<u8> {
        self.buf@
    }

    /// Where the connection stands.
    pub closed spec fn state(&self) -> ConnectionState {
        self.state
    }

    /// A connection that has read nothing yet.
    pub fn new() -> (conn: Connection)
        ensures
            conn.state() == ConnectionState::Reading,
            conn.buffered() == Seq::<u8>::empty(),
    {
        Connection { buf: Vec::new(), state: ConnectionState::Reading }
    }

    /// Where the connection stands.
    pub fn current_state(&self) -> (state: ConnectionState)
        ensures
            state == self.state(),
    {
        self.state
    }

    /// Whether the connection is closed.
    pub fn is_closed(&self) -> (b: bool)
        ensures
            b == (self.state() is Closed),
    {
        match self.state {
            ConnectionState::Closed(_) => true,
            _ => false,
        }
    }

    /// How many bytes are buffered.
    pub fn buffered_len(&self) -> (n: usize)
        ensures
            n == self.buffered().len(),
    {
        self.buf.len()
    }

    /// Takes what a read on the socket returned.
    ///
    /// An empty read is the clean end of the stream and closes the
    /// connection. Anything else is buffered behind what is there, and the
    /// connection goes on to dispatch. A closed connection stays as it is.
    pub fn on_read(&mut self, chunk: &[u8])
        ensures
            old(self).state() is Closed ==> *final(self) == *old(self),
            !(old(self).state() is Closed) && chunk@.len() == 0 ==> {
                &&& final(self).state() == ConnectionState::Closed(CloseReason::EndOfStream)
                &&& final(self).buffered() == old(self).buffered()
            },
            !(old(self).state() is Closed) && chunk@.len() > 0 ==> {
                &&& final(self).state() == ConnectionState::Dispatching
                &&& final(self).buffered() == old(self).buffered() + chunk@
            },
    {
        match self.state {
            ConnectionState::Closed(_) => {},
            _ => {
                if chunk.len() == 0 {
                    self.state = ConnectionState::Closed(CloseReason::EndOfStream);
                } else {
                    let ghost before = self.buf@;
                    self.buf.extend_from_slice(chunk);
                    assert(self.buf@ =~= before + chunk@);
                    self.state = ConnectionState::Dispatching;
                }
            },
        }
    }

    /// Whether the next step would dispatch a valid `Publish`.
    pub open spec fn publish_is_next(&self) -> bool {
        &&& self.state() is Dispatching
        &&& try_decode_spec(self.buffered()).0 matches Ok(Some(frame))
        &&& frame.valid()
        &&& frame.frame_type == FrameType::Publish
    }

    /// What one step makes of the connection `self` and the broker `server`:
    /// the connection and the broker after it, and the answer.
    ///
    /// Only a dispatching connection does anything. It takes one reassembly
    /// step on its buffer:
    /// * no whole frame yet: back to `Reading`;
    /// * a protocol error: `Closed`, with the error;
    /// * a `Publish` that breaks the frame invariant: consumed, and `Closed`;
    /// * any other frame: consumed and dispatched to the broker. Its answer
    ///   is handed on, but for a failed commit, which closes the connection.
    pub open spec fn stepped<S: Storage>(
        self,
        server: Server<S>,
        after: Connection,
        server_after: Server<S>,
        reply: Option<Reply>,
    ) -> bool {
        if !(self.state() is Dispatching) {
            after == self && server_after == server && reply is None
        } else {
            let step = try_decode_spec(self.buffered());
            match step.0 {
                Ok(None) => {
                    &&& after.state() == ConnectionState::Reading
                    &&& after.buffered() == self.buffered()
                    &&& server_after == server
                    &&& reply is None
                },
                Err(e) => {
                    &&& after.state() == ConnectionState::Closed(CloseReason::Protocol(e))
                    &&& after.buffered() == self.buffered()
                    &&& server_after == server
                    &&& reply is None
                },
                Ok(Some(frame)) => {
                    &&& after.buffered() == step.1
                    &&& if !frame.admissible() {
                        &&& after.state() == ConnectionState::Closed(CloseReason::InvalidFrame)
                        &&& server_after == server
                        &&& reply is None
                    } else {
                        match reply {
                            Some(answer) => {
                                &&& after.state() == ConnectionState::Dispatching
                                &&& server.handled(
                                    frame,
                                    server_after,
                                    Ok::<Reply, StorageError>(answer),
                                )
                            },
                            None => exists|e: StorageError|
                                {
                                    &&& after.state() == ConnectionState::Closed(
                                        CloseReason::Storage(e),
                                    )
                                    &&& #[trigger] server.handled(
                                        frame,
                                        server_after,
                                        Err::<Reply, StorageError>(e),
                                    )
                                },
                        }
                    }
                },
            }
        }
    }

    /// Takes one step: dispatches the next whole frame of the buffer, if
    /// there is one.
    pub fn step<S: Storage>(&mut self, server: &mut Server<S>) -> (reply: Option<Reply>)
        requires
            old(self).publish_is_next() ==> !old(server).ledger().exhausted(),
        ensures
            old(self).stepped(*old(server), *final(self), *final(server), reply),
    {
        match self.state {
            ConnectionState::Dispatching => {},
            _ => {
                return None;
            },
        }
        let frame = match Frame::try_decode(&mut self.buf) {
            Ok(Some(frame)) => frame,
            Ok(None) => {
                self.state = ConnectionState::Reading;
                return None;
            },
            Err(e) => {
                self.state = ConnectionState::Closed(CloseReason::Protocol(e));
                return None;
            },
        };
        if !frame.is_admissible() {
            self.state = ConnectionState::Closed(CloseReason::InvalidFrame);
            return None;
        }
        match server.handle_frame(frame) {
            Ok(answer) => Some(answer),
            Err(e) => {
                self.state = ConnectionState::Closed(CloseReason::Storage(e));
                None
            },
        }
    }
}

/// Whether `buffered` is what is left of a buffer that drains to `stream`
/// once its first `taken` frames were taken off it.
pub open spec fn left_over(stream: Drained, taken: nat, buffered: Seq<u8>) -> bool {
    let rest = drain_spec(buffered);
    &&& taken <= stream.frames.len()
    &&& stream.frames.skip(taken as int) == rest.frames
    &&& stream.rest == rest.rest
    &&& stream.error == rest.error
}

/// What taking one read makes of a connection and the broker.
///
/// A closed connection stays closed and an empty read closes it; nothing
/// else changes then. Otherwise the chunk is buffered and the buffer is
/// drained: with `stream` what draining it hands out, the first
/// `replies.len()` frames of `stream` were dispatched, each with its answer,
/// and the connection ends
/// * `Reading`, when all of them were, and the rest asks for more data;
/// * `Closed` on the protocol error of `stream`, when all of them were;
/// * `Closed` on the first `Publish` that breaks the frame invariant;
/// * `Closed` on the first commit that the storage refused, with its error;
/// * `Dispatching` still, where the ledger ran out of offsets: the broker
///   must stop.
pub open spec fn handled_read<S: Storage>(
    conn: Connection,
    server: Server<S>,
    chunk: Seq<u8>,
    conn_after: Connection,
    server_after: Server<S>,
    replies: Seq<Reply>,
) -> bool {
    if conn.state() is Closed {
        conn_after == conn && server_after == server && replies.len() == 0
    } else if chunk.len() == 0 {
        &&& conn_after.state() == ConnectionState::Closed(CloseReason::EndOfStream)
        &&& conn_after.buffered() == conn.buffered()
        &&& server_after == server
        &&& replies.len() == 0
    } else {
        let stream = drain_spec(conn.buffered() + chunk);
        let done = stream.frames.take(replies.len() as int);
        &&& replies.len() <= stream.frames.len()
        &&& all_admissible(done)
        &&& answers_of(replies) == answers(server.ledger().next(), done)
        &&& match conn_after.state() {
            ConnectionState::Reading => {
                &&& done == stream.frames
                &&& stream.error is None
                &&& conn_after.buffered() == stream.rest
                &&& settled(server, done, server_after)
            },
            ConnectionState::Closed(CloseReason::Protocol(e)) => {
                &&& done == stream.frames
                &&& stream.error == Some(e)
                &&& conn_after.buffered() == stream.rest
                &&& settled(server, done, server_after)
            },
            ConnectionState::Closed(CloseReason::InvalidFrame) => {
                &&& replies.len() < stream.frames.len()
                &&& !stream.frames[replies.len() as int].admissible()
                &&& left_over(stream, replies.len() + 1, conn_after.buffered())
                &&& settled(server, done, server_after)
            },
            ConnectionState::Closed(CloseReason::Storage(e)) => {
                &&& replies.len() < stream.frames.len()
                &&& stream.frames[replies.len() as int].valid()
                &&& stream.frames[replies.len() as int].frame_type == FrameType::Publish
                &&& left_over(stream, replies.len() + 1, conn_after.buffered())
                &&& unsettled(
                    server,
                    done,
                    stream.frames[replies.len() as int],
                    e,
                    server_after,
                )
            },
            ConnectionState::Dispatching => {
                &&& server_after.ledger().exhausted()
                &&& left_over(stream, replies.len(), conn_after.buffered())
                &&& settled(server, done, server_after)
            },
            ConnectionState::Closed(CloseReason::EndOfStream) => false,
        }
    }
}

/// Takes what a read on the connection's socket returned: buffers it and
/// dispatches every whole frame that has arrived, in order. The replies are
/// those to the frames dispatched, one for each.
pub fn handle<S: Storage>(conn: &mut Connection, chunk: &[u8], server: &mut Server<S>) -> (replies:
    Vec<Reply>)
    ensures
        handled_read(*old(conn), *old(server), chunk@, *final(conn), *final(server), replies@),
{
    let mut replies: Vec<Reply> = Vec::new();
    if conn.is_closed() {
        return replies;
    }
    conn.on_read(chunk);
    if chunk.len() == 0 {
        return replies;
    }
    let ghost first = *server;
    let ghost next = first.ledger().next();
    let ghost stream = drain_spec(conn.buffered());
    let ghost done = Seq::<FrameView>::empty();
    proof {
        assert(done + drain_spec(conn.buffered()).frames =~= stream.frames);
        assert(answers_of(replies@) =~= answers(next, done));
        assert(first.fanout().channels().union(subscribed(done)) =~= first.fanout().channels());
        assert forall|stream_id: u64| #[trigger]
            first.durable(stream_id) == first.durable(stream_id) + committed(
                next,
                done,
                stream_id,
            ) by {
            assert(first.durable(stream_id) + Seq::<u8>::empty() =~= first.durable(stream_id));
        }
        assert forall|stream_id: u64| #[trigger]
            first.fanout().broadcasts(stream_id) == first.fanout().broadcasts(stream_id)
                + fanned(first.fanout().channels(), next, done, stream_id) by {
            assert(first.fanout().broadcasts(stream_id) + Seq::<(u64, Seq<u8>)>::empty()
                =~= first.fanout().broadcasts(stream_id));
        }
    }
    loop
        invariant_except_break
            conn.state() is Dispatching,
            first == *old(server),
            next == first.ledger().next(),
            stream == drain_spec(old(conn).buffered() + chunk@),
            stream.frames == done + drain_spec(conn.buffered()).frames,
            stream.rest == drain_spec(conn.buffered()).rest,
            stream.error == drain_spec(conn.buffered()).error,
            done.len() == replies@.len(),
            all_admissible(done),
            answers_of(replies@) == answers(next, done),
            settled(first, done, *server),
        invariant
            !(old(conn).state() is Closed),
            chunk@.len() > 0,
        ensures
            handled_read(*old(conn), *old(server), chunk@, *conn, *server, replies@),
        decreases conn.buffered().len(),
    {
        proof {
            assert(stream.frames.take(done.len() as int) =~= done);
            assert(stream.frames.skip(done.len() as int) =~= drain_spec(conn.buffered()).frames);
        }
        if server.is_exhausted() {
            break ;
        }
        let ghost buffered = conn.buffered();
        let ghost before = *server;
        let reply = conn.step(server);
        let ghost step = try_decode_spec(buffered);
        match reply {
            Some(answer) => {
                let ghost frame = step.0->Ok_0->0;
                proof {
                    lemma_step_consumes(buffered);
                    lemma_dispatched(first, done, before, frame, *server, answer);
                    let later = drain_spec(step.1);
                    assert(done.push(frame) + later.frames =~= done + (seq![frame]
                        + later.frames));
                    assert(answers_of(replies@.push(answer)) =~= answers_of(replies@).push(
                        answer_of(answer),
                    ));
                    assert(done.push(frame).drop_last() =~= done);
                    done = done.push(frame);
                }
                replies.push(answer);
            },
            None => {
                proof {
                    match step.0 {
                        Ok(None) => {
                            assert(done + Seq::<FrameView>::empty() =~= done);
                        },
                        Err(e) => {
                            assert(done + Seq::<FrameView>::empty() =~= done);
                        },
                        Ok(Some(frame)) => {
                            lemma_step_consumes(buffered);
                            assert(stream.frames[done.len() as int] == frame);
                            assert(stream.frames.skip(done.len() as int + 1) =~= drain_spec(
                                step.1,
                            ).frames);
                            if frame.admissible() {
                                let e = choose|e: StorageError|
                                    {
                                        &&& conn.state() == ConnectionState::Closed(
                                            CloseReason::Storage(e),
                                        )
                                        &&& #[trigger] before.handled(
                                            frame,
                                            *server,
                                            Err::<Reply, StorageError>(e),
                                        )
                                    };
                                lemma_failed(first, done, before, frame, e, *server);
                            }
                        },
                    }
                }
                break ;
            },
        }
    }
    replies
}

/// No commit fails in memory while there is room: on a broker over the
/// in-memory storage with room for the records of every publish that a read
/// completes, the read does not close the connection for the storage.
pub proof fn lemma_read_in_memory(
    conn: Connection,
    server: Server<MemoryStorage>,
    chunk: Seq<u8>,
    conn_after: Connection,
    server_after: Server<MemoryStorage>,
    replies: Seq<Reply>,
)
    requires
        handled_read(conn, server, chunk, conn_after, server_after, replies),
        !(conn.state() is Closed),
        chunk.len() > 0,
        commit_size(drain_spec(conn.buffered() + chunk).frames) <= server.store().room(),
    ensures
        !(conn_after.state() matches ConnectionState::Closed(CloseReason::Storage(_))),
{
    if conn_after.state() matches ConnectionState::Closed(CloseReason::Storage(_)) {
        let e = conn_after.state()->Closed_0->Storage_0;
        let stream = drain_spec(conn.buffered() + chunk);
        let n = replies.len() as int;
        let done = stream.frames.take(n);
        let failed = stream.frames[n];
        let next = server.ledger().next();
        let offset = (next + crate::dispatch::publishes(done)) as u64;
        let between = choose|between: MemoryStorage|
            {
                &&& stored_run(server.store(), next, done, between)
                &&& #[trigger] stored_as(
                    between,
                    failed.stream_id,
                    offset,
                    failed.payload,
                    server_after.store(),
                    Err::<(), StorageError>(e),
                )
            };
        lemma_stored_run_in_memory(server.store(), next, done, between);
        lemma_record_layout(RecordView { offset, payload: failed.payload });
        let more = stream.frames.take(n + 1);
        lemma_commit_size_of_prefix(stream.frames, n + 1);
        assert(more.drop_last() =~= done);
        assert(more.last() == failed);
        assert(commit_size(more) == commit_size(done) + RECORD_HEADER_LEN as nat
            + failed.payload.len());
        assert(false);
    }
}

} // verus!
