//! The broker's commit path: ledger, then write-ahead log, then
//! acknowledgement and fan-out.

use crate::fanout::{Fanout, Subscription};
use crate::frame::{Frame, FrameType, FrameView};
use crate::ledger::Ledger;
use crate::record::{Record, RecordView};
use crate::storage::{Storage, StorageError};
use vstd::prelude::*;

verus! {

/// One ledger, one storage and one fan-out, shared by all connections.
pub struct Server<S: Storage> {
    ledger: Ledger,
    storage: S,
    fanout: Fanout,
    /// For each stream, the bytes that the storage has acknowledged.
    acknowledged: Ghost<Map<u64, Seq<u8>>>,
}

/// What the broker answers to one frame of a client.
#[derive(Debug)]
pub enum Reply {
    /// The publish is durable: send this `Ack` frame to the publisher.
    Ack(Frame),
    /// The connection is now a subscriber: forward what this subscription
    /// delivers.
    Subscribed(Subscription),
    /// The frame asks nothing of the broker.
    Ignored,
}

/// The acknowledgement of a publish to `stream_id` committed at `offset`.
pub open spec fn ack_of(stream_id: u64, offset: u64) -> FrameView {
    FrameView { frame_type: FrameType::Ack, stream_id, offset, payload: Seq::empty() }
}

/// The log bytes of the record that commits `payload` at `offset`.
pub open spec fn record_bytes(offset: u64, payload: Seq<u8>) -> Seq<u8> {
    (RecordView { offset, payload }).encoding()
}

/// Whether the storage `before` gave the answer `stored`, and came out as
/// `after`, when it was handed the record of `payload` at `offset` for the
/// stream.
pub open spec fn stored_as<S: Storage>(
    before: S,
    stream_id: u64,
    offset: u64,
    payload: Seq<u8>,
    after: S,
    stored: Result<(), StorageError>,
) -> bool {
    exists|handed: &[u8]|
        {
            &&& handed@ == record_bytes(offset, payload)
            &&& handed@.len() <= usize::MAX
            &&& #[trigger] before.answered(stream_id, handed, &after, stored)
        }
}

impl<S: Storage> Server<S> {
    /// The offset ledger.
    pub closed spec fn ledger(&self) -> Ledger {
        self.ledger
    }

    /// The storage.
    pub closed spec fn store(&self) -> S {
        self.storage
    }

    /// The fan-out.
    pub closed spec fn fanout(&self) -> Fanout {
        self.fanout
    }

    /// The durable log of the stream as the broker knows it: the bytes of
    /// the appends that the storage has answered with `Ok` to this broker,
    /// in order.
    pub closed spec fn durable(&self, stream_id: u64) -> Seq<u8> {
        if self.acknowledged@.contains_key(stream_id) {
            self.acknowledged@[stream_id]
        } else {
            Seq::empty()
        }
    }

    /// A broker over `storage`, with a fresh ledger and no subscriber.
    pub fn new(storage: S) -> (server: Server<S>)
        ensures
            server.ledger().next() == 0,
            server.store() == storage,
            server.fanout().channels() == Set::<u64>::empty(),
            forall|stream_id: u64| #[trigger] server.durable(stream_id) == Seq::<u8>::empty(),
            forall|stream_id: u64| #[trigger]
                server.fanout().broadcasts(stream_id) == Seq::<(u64, Seq<u8>)>::empty(),
    {
        Server {
            ledger: Ledger::new(),
            storage,
            fanout: Fanout::new(),
            acknowledged: Ghost(Map::empty()),
        }
    }

    /// The storage, to read the logs back.
    pub fn storage(&self) -> (storage: &S)
        ensures
            *storage == self.store(),
    {
        &self.storage
    }

    /// The offset that the next commit gets.
    pub fn next_offset(&self) -> (next: u64)
        ensures
            next == self.ledger().next(),
    {
        self.ledger.next_offset()
    }

    /// Whether the ledger has no offset left, so that no publish may be
    /// handled any more.
    pub fn is_exhausted(&self) -> (b: bool)
        ensures
            b == self.ledger().exhausted(),
    {
        self.ledger.is_exhausted()
    }

    /// Assigns the next offset and hands the record of `payload` at that
    /// offset to the storage. Returns the offset and what the storage
    /// answered; the answer is not acted on here.
    fn hand_over(&mut self, stream_id: u64, payload: &[u8]) -> (out: (u64, Result<(), StorageError>))
        requires
            !old(self).ledger().exhausted(),
            payload@.len() <= u32::MAX,
        ensures
            out.0 == old(self).ledger().next(),
            final(self).ledger().next() == old(self).ledger().next() + 1,
            final(self).fanout() == old(self).fanout(),
            forall|stream_id: u64| #[trigger]
                final(self).durable(stream_id) == old(self).durable(stream_id),
            stored_as(old(self).store(), stream_id, out.0, payload@, final(self).store(), out.1),
    {
        let offset: u64 = self.ledger.assign_offset();
        let bytes = Record::encode_parts(offset, payload);
        let handed: &[u8] = bytes.as_slice();
        let ghost before = self.storage;
        let handed_len: usize = handed.len();
        let stored = self.storage.append(stream_id, handed);
        proof {
            assert(handed@ == record_bytes(offset, payload@));
            assert(handed@.len() == handed_len);
            assert(before.answered(stream_id, handed, &self.storage, stored));
            assert(stored_as(before, stream_id, offset, payload@, self.storage, stored));
        }
        (offset, stored)
    }

    /// Takes the storage's answer to the append of the record of `payload`
    /// at `offset`.
    ///
    /// On `Ok` the record stands at the end of the stream's durable log and
    /// the offset is the result. On `Err` the error is the result and the
    /// broker is as it was.
    pub fn acknowledge(
        &mut self,
        stream_id: u64,
        offset: u64,
        payload: &[u8],
        stored: Result<(), StorageError>,
    ) -> (r: Result<u64, StorageError>)
        ensures
            match stored {
                Ok(()) => {
                    &&& r == Ok::<u64, StorageError>(offset)
                    &&& final(self).durable(stream_id) == old(self).durable(stream_id)
                        + record_bytes(offset, payload@)
                    &&& forall|other: u64|
                        other != stream_id ==> #[trigger] final(self).durable(other) == old(
                            self,
                        ).durable(other)
                    &&& final(self).ledger() == old(self).ledger()
                    &&& final(self).store() == old(self).store()
                    &&& final(self).fanout() == old(self).fanout()
                },
                Err(e) => r == Err::<u64, StorageError>(e) && *final(self) == *old(self),
            },
    {
        match stored {
            Ok(()) => {
                let ghost log = self.durable(stream_id) + record_bytes(offset, payload@);
                self.acknowledged = Ghost(self.acknowledged@.insert(stream_id, log));
                Ok(offset)
            },
            Err(e) => Err(e),
        }
    }

    /// Settles a publish once the storage has answered the append of its
    /// record.
    ///
    /// On `Ok` the record is durable: it stands at the end of the stream's
    /// durable log, it is handed to the stream's channel, where the stream
    /// has one, under the same offset, and the answer is the `Ack` of that
    /// offset. On `Err` there is no `Ack` and no broadcast: the error is the
    /// answer and the broker is as it was.
    pub fn settle(
        &mut self,
        stream_id: u64,
        offset: u64,
        payload: Vec<u8>,
        stored: Result<(), StorageError>,
    ) -> (r: Result<Reply, StorageError>)
        requires
            0 < payload@.len() <= u32::MAX,
        ensures
            match stored {
                Ok(()) => {
                    &&& r matches Ok(Reply::Ack(ack))
                    &&& ack@ == ack_of(stream_id, offset)
                    &&& final(self).durable(stream_id) == old(self).durable(stream_id)
                        + record_bytes(offset, payload@)
                    &&& final(self).fanout().broadcasts(stream_id) == if old(
                        self,
                    ).fanout().channels().contains(stream_id) {
                        old(self).fanout().broadcasts(stream_id).push((offset, payload@))
                    } else {
                        old(self).fanout().broadcasts(stream_id)
                    }
                    &&& forall|other: u64|
                        other != stream_id ==> #[trigger] final(self).durable(other) == old(
                            self,
                        ).durable(other)
                    &&& forall|other: u64|
                        other != stream_id ==> #[trigger] final(self).fanout().broadcasts(other)
                            == old(self).fanout().broadcasts(other)
                    &&& final(self).fanout().channels() == old(self).fanout().channels()
                    &&& final(self).ledger() == old(self).ledger()
                    &&& final(self).store() == old(self).store()
                },
                Err(e) => r == Err::<Reply, StorageError>(e) && *final(self) == *old(self),
            },
    {
        match self.acknowledge(stream_id, offset, payload.as_slice(), stored) {
            Ok(offset) => {
                let ack = Frame {
                    frame_type: FrameType::Ack,
                    stream_id,
                    offset,
                    payload: Vec::new(),
                };
                let ghost durable = *self;
                self.fanout.broadcast(stream_id, offset, payload);
                assert forall|other: u64| #[trigger]
                    self.durable(other) == durable.durable(other) by {}
                Ok(Reply::Ack(ack))
            },
            Err(e) => Err(e),
        }
    }

    /// Commits `payload` to the stream: assigns the next offset, hands the
    /// record to the storage, and takes its answer as [`Server::acknowledge`]
    /// does.
    ///
    /// The offset is spent whether or not the storage acknowledges. On `Ok`
    /// the record is durable and stands at the end of the stream's durable
    /// log; on `Err` nothing was acknowledged.
    pub fn append(&mut self, stream_id: u64, payload: &[u8]) -> (r: Result<u64, StorageError>)
        requires
            !old(self).ledger().exhausted(),
            payload@.len() <= u32::MAX,
        ensures
            final(self).ledger().next() == old(self).ledger().next() + 1,
            final(self).fanout() == old(self).fanout(),
            forall|other: u64|
                other != stream_id ==> #[trigger] final(self).durable(other) == old(self).durable(
                    other,
                ),
            match r {
                Ok(offset) => {
                    &&& offset == old(self).ledger().next()
                    &&& final(self).durable(stream_id) == old(self).durable(stream_id)
                        + record_bytes(offset, payload@)
                },
                Err(_) => final(self).durable(stream_id) == old(self).durable(stream_id),
            },
            exists|stored: Result<(), StorageError>|
                {
                    &&& #[trigger] stored_as(
                        old(self).store(),
                        stream_id,
                        old(self).ledger().next() as u64,
                        payload@,
                        final(self).store(),
                        stored,
                    )
                    &&& match stored {
                        Ok(()) => r == Ok::<u64, StorageError>(old(self).ledger().next() as u64),
                        Err(e) => r == Err::<u64, StorageError>(e),
                    }
                },
    {
        let (offset, stored) = self.hand_over(stream_id, payload);
        let ghost handed = *self;
        let r = self.acknowledge(stream_id, offset, payload, stored);
        assert forall|other: u64| other != stream_id implies #[trigger] self.durable(other)
            == old(self).durable(other) by {
            assert(handed.durable(other) == old(self).durable(other));
        }
        proof {
            let next = old(self).ledger().next() as u64;
            assert(offset == next);
            assert(self.store() == handed.store());
            assert(stored_as(old(self).store(), stream_id, next, payload@, self.store(), stored));
            assert(match stored {
                Ok(()) => r == Ok::<u64, StorageError>(next),
                Err(e) => r == Err::<u64, StorageError>(e),
            });
        }
        r
    }

    /// What dispatching `frame` makes of the broker `self`: the broker `after`
    /// it, and the answer `r`.
    ///
    /// * `Publish`: the offset is spent, the storage was handed the record
    ///   and no other stream is touched. The answer follows the storage's.
    ///   Where the storage answered `Ok`, the record stands at the end of
    ///   the stream's durable log, it was handed to the stream's channel
    ///   with the same offset, and the answer is the `Ack` of that offset.
    ///   Where it answered an error, that error is the answer, nothing was
    ///   acknowledged and nothing was broadcast.
    /// * `Subscribe`: the stream has a channel, and the answer is a
    ///   subscription to it. Ledger, storage and durable logs are as before.
    /// * `Ack`, `Message`: nothing changes.
    pub open spec fn handled(
        self,
        frame: FrameView,
        after: Server<S>,
        r: Result<Reply, StorageError>,
    ) -> bool {
        let offset = self.ledger().next() as u64;
        match frame.frame_type {
            FrameType::Publish => {
                &&& after.ledger().next() == self.ledger().next() + 1
                &&& after.fanout().channels() == self.fanout().channels()
                &&& forall|other: u64|
                    other != frame.stream_id ==> #[trigger] after.durable(other) == self.durable(
                        other,
                    )
                &&& forall|other: u64|
                    other != frame.stream_id ==> #[trigger] after.fanout().broadcasts(other)
                        == self.fanout().broadcasts(other)
                &&& exists|stored: Result<(), StorageError>|
                    {
                        &&& #[trigger] stored_as(
                            self.store(),
                            frame.stream_id,
                            offset,
                            frame.payload,
                            after.store(),
                            stored,
                        )
                        &&& stored is Ok <==> r is Ok
                        &&& stored matches Err(e) ==> r == Err::<Reply, StorageError>(e)
                    }
                &&& match r {
                    Ok(reply) => {
                        &&& reply matches Reply::Ack(ack)
                        &&& ack@ == ack_of(frame.stream_id, offset)
                        &&& after.durable(frame.stream_id) == self.durable(frame.stream_id)
                            + record_bytes(offset, frame.payload)
                        &&& after.fanout().broadcasts(frame.stream_id) == if self.fanout().channels().contains(
                            frame.stream_id,
                        ) {
                            self.fanout().broadcasts(frame.stream_id).push(
                                (offset, frame.payload),
                            )
                        } else {
                            self.fanout().broadcasts(frame.stream_id)
                        }
                    },
                    Err(_) => {
                        &&& after.durable(frame.stream_id) == self.durable(frame.stream_id)
                        &&& after.fanout() == self.fanout()
                    },
                }
            },
            FrameType::Subscribe => {
                &&& r matches Ok(Reply::Subscribed(subscription))
                &&& subscription.stream_id == frame.stream_id
                &&& after.fanout().channels() == self.fanout().channels().insert(frame.stream_id)
                &&& after.ledger() == self.ledger()
                &&& after.store() == self.store()
                &&& forall|stream_id: u64| #[trigger]
                    after.durable(stream_id) == self.durable(stream_id)
                &&& forall|stream_id: u64| #[trigger]
                    after.fanout().broadcasts(stream_id) == self.fanout().broadcasts(stream_id)
            },
            FrameType::Ack | FrameType::Message => {
                &&& r matches Ok(Reply::Ignored)
                &&& after == self
            },
        }
    }

    /// Dispatches one frame of a client.
    ///
    /// * `Publish`: assigns the next offset, hands the record to the storage
    ///   and settles as [`Server::settle`] does with the storage's answer:
    ///   only once the record is durable is it broadcast to the stream's
    ///   subscribers and answered with the `Ack` of the assigned offset.
    /// * `Subscribe`: attaches a new subscription to the stream.
    /// * `Ack`, `Message`: ignored, whatever they hold.
    pub fn handle_frame(&mut self, frame: Frame) -> (r: Result<Reply, StorageError>)
        requires
            frame.frame_type == FrameType::Publish ==> frame@.valid(),
            frame.frame_type == FrameType::Publish ==> !old(self).ledger().exhausted(),
        ensures
            old(self).handled(frame@, *final(self), r),
    {
        let Frame { frame_type, stream_id, offset: _, payload } = frame;
        match frame_type {
            FrameType::Publish => {
                let (offset, stored) = self.hand_over(stream_id, payload.as_slice());
                let ghost handed = *self;
                let ghost published = payload@;
                let r = self.settle(stream_id, offset, payload, stored);
                proof {
                    assert(stored_as(
                        old(self).store(),
                        stream_id,
                        offset,
                        published,
                        self.store(),
                        stored,
                    ));
                    assert forall|other: u64| other != stream_id implies #[trigger] self.durable(
                        other,
                    ) == old(self).durable(other) by {
                        assert(handed.durable(other) == old(self).durable(other));
                    }
                    assert(handed.durable(stream_id) == old(self).durable(stream_id));
                }
                r
            },
            FrameType::Subscribe => {
                let receiver = self.fanout.subscribe(stream_id);
                Ok(Reply::Subscribed(Subscription { stream_id, receiver }))
            },
            FrameType::Ack => Ok(Reply::Ignored),
            FrameType::Message => Ok(Reply::Ignored),
        }
    }
}

} // verus!
