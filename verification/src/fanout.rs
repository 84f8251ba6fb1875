//! Fan-out: committed records of a stream, delivered to its live subscribers.
//!
//! Each stream has one bounded broadcast channel, made when the stream is
//! first subscribed to. A subscriber holds a receiver of its own and sees
//! every record broadcast after it attached. A receiver that falls more than
//! the channel's capacity behind loses the oldest records and is told how
//! many: that is a gap in its stream, not the end of it.

use crate::frame::{Frame, FrameType};
use std::collections::HashMap;
use tokio::sync::broadcast::error::SendError;
use tokio::sync::broadcast::error::TryRecvError;
use tokio::sync::broadcast::{Receiver, Sender};
use vstd::prelude::*;

verus! {

broadcast use vstd::std_specs::hash::group_hash_axioms;

/// The sending half of a tokio broadcast channel. Opaque to the verifier.
#[verifier::external_type_specification]
#[verifier::external_body]
#[verifier::reject_recursive_types(T)]
pub struct ExSender<T>(Sender<T>);

/// The receiving half of a tokio broadcast channel. Opaque to the verifier.
#[verifier::external_type_specification]
#[verifier::external_body]
#[verifier::reject_recursive_types(T)]
pub struct ExReceiver<T>(Receiver<T>);

/// The error of a send on a tokio broadcast channel, which hands the value
/// back. Opaque to the verifier.
#[verifier::external_type_specification]
#[verifier::external_body]
#[verifier::reject_recursive_types(T)]
pub struct ExSendError<T>(SendError<T>);

/// `tokio::sync::broadcast::channel`: makes a channel that retains up to
/// `capacity` values. It panics on a capacity of zero or above
/// `usize::MAX / 2`, which the precondition leaves out. Nothing is claimed
/// of the two halves.
pub assume_specification<T: Clone>[ tokio::sync::broadcast::channel::<T> ](capacity: usize) -> (halves: (
    Sender<T>,
    Receiver<T>,
))
    requires
        0 < capacity <= usize::MAX / 2,
;

/// `Sender::subscribe`: a new receiver on the sender's channel. Nothing is
/// claimed of it here; tokio documents that it sees the values sent after
/// this call. It panics once `usize::MAX / 4` receivers of one channel are
/// alive, which is more than memory holds.
pub assume_specification<T>[ Sender::<T>::subscribe ](sender: &Sender<T>) -> (receiver: Receiver<T>)
;

/// `Sender::send`: hands the value to the channel. `Ok` carries the number of
/// receivers subscribed at that moment, which is at least one; with no
/// receiver the value comes back in the error.
pub assume_specification<T>[ Sender::<T>::send ](sender: &Sender<T>, value: T) -> (sent: Result<
    usize,
    SendError<T>,
>)
    ensures
        sent matches Ok(receivers) ==> receivers >= 1,
;

/// Capacity of each stream's channel, in pending records.
pub const CHANNEL_CAPACITY: usize = 1024;

/// What one receive on a subscription came back with.
#[derive(Debug)]
pub enum Received {
    /// The next record of the stream.
    Record { offset: u64, payload: Vec<u8> },
    /// The receiver fell behind and this many records were dropped.
    Lagged(u64),
    /// Nothing is pending.
    Empty,
    /// The channel is closed: no record will follow.
    Closed,
}

/// `Receiver::try_recv`: takes the next pending value without waiting. The
/// outcome depends on what other holders of the channel did, so nothing is
/// claimed of it; the four outcomes of tokio are handed on one for one.
#[verifier::external_body]
fn try_receive(receiver: &mut Receiver<(u64, Vec<u8>)>) -> (received: Received) {
    match receiver.try_recv() {
        Ok((offset, payload)) => Received::Record { offset, payload },
        Err(TryRecvError::Lagged(missed)) => Received::Lagged(missed),
        Err(TryRecvError::Empty) => Received::Empty,
        Err(TryRecvError::Closed) => Received::Closed,
    }
}

/// How many receivers a send reached, from what tokio's `Sender::send`
/// answered: the number it carries where it is `Ok`, and none where the
/// value came back because nobody was subscribed.
pub fn reached(sent: Result<usize, SendError<(u64, Vec<u8>)>>) -> (receivers: usize)
    ensures
        sent matches Ok(n) ==> receivers == n,
        sent is Err ==> receivers == 0,
{
    match sent {
        Ok(receivers) => receivers,
        Err(_) => 0,
    }
}

/// The per-stream publish/subscribe multiplexer.
pub struct Fanout {
    streams: HashMap<u64, Sender<(u64, Vec<u8>)>>,
    /// For each stream, what was handed to its channel, in order.
    handed: Ghost<Map<u64, Seq<(u64, Seq<u8>)>>>,
}

impl Fanout {
    /// The streams that have a channel: those subscribed to at least once.
    pub closed spec fn channels(&self) -> Set<u64> {
        self.streams@.dom()
    }

    /// The records that were handed to the stream's channel, in order, each
    /// with its offset. What a receiver makes of them is the channel's part:
    /// it sees those handed over after it attached, but for what it lost by
    /// falling behind.
    pub closed spec fn broadcasts(&self, stream_id: u64) -> Seq<(u64, Seq<u8>)> {
        if self.handed@.contains_key(stream_id) {
            self.handed@[stream_id]
        } else {
            Seq::empty()
        }
    }

    /// A fan-out in which no stream has a channel yet.
    pub fn new() -> (fanout: Fanout)
        ensures
            fanout.channels() == Set::<u64>::empty(),
            forall|stream_id: u64| #[trigger]
                fanout.broadcasts(stream_id) == Seq::<(u64, Seq<u8>)>::empty(),
    {
        Fanout { streams: HashMap::new(), handed: Ghost(Map::empty()) }
    }

    /// Whether the stream has a channel.
    pub fn has_channel(&self, stream_id: u64) -> (b: bool)
        ensures
            b == self.channels().contains(stream_id),
    {
        self.streams.contains_key(&stream_id)
    }

    /// Attaches a new receiver to the stream, making the stream's channel
    /// first where it has none.
    pub fn subscribe(&mut self, stream_id: u64) -> (receiver: Receiver<(u64, Vec<u8>)>)
        ensures
            final(self).channels() == old(self).channels().insert(stream_id),
            forall|other: u64| #[trigger] final(self).broadcasts(other) == old(self).broadcasts(other),
    {
        match self.streams.get(&stream_id) {
            Some(sender) => {
                assert(self.channels() =~= old(self).channels().insert(stream_id));
                sender.subscribe()
            },
            None => {
                let (sender, _first) = tokio::sync::broadcast::channel::<(u64, Vec<u8>)>(
                    CHANNEL_CAPACITY,
                );
                let receiver = sender.subscribe();
                self.streams.insert(stream_id, sender);
                assert(self.channels() =~= old(self).channels().insert(stream_id));
                receiver
            },
        }
    }

    /// Hands `(offset, payload)` to the stream's channel, where it has one,
    /// and returns how many receivers were subscribed to take it. A stream
    /// without a channel, or without a receiver, is no error: the record
    /// goes to nobody.
    pub fn broadcast(&mut self, stream_id: u64, offset: u64, payload: Vec<u8>) -> (receivers:
        usize)
        ensures
            final(self).channels() == old(self).channels(),
            forall|other: u64|
                other != stream_id ==> #[trigger] final(self).broadcasts(other) == old(
                    self,
                ).broadcasts(other),
            final(self).broadcasts(stream_id) == if old(self).channels().contains(stream_id) {
                old(self).broadcasts(stream_id).push((offset, payload@))
            } else {
                old(self).broadcasts(stream_id)
            },
            !old(self).channels().contains(stream_id) ==> receivers == 0,
    {
        let ghost record = (offset, payload@);
        let ghost so_far = self.broadcasts(stream_id);
        match self.streams.get(&stream_id) {
            Some(sender) => {
                let sent = sender.send((offset, payload));
                self.handed = Ghost(self.handed@.insert(stream_id, so_far.push(record)));
                reached(sent)
            },
            None => 0,
        }
    }
}

/// What a subscriber's connection does next.
#[derive(Debug)]
pub enum Delivery {
    /// Send this `Message` frame to the subscriber.
    Message(Frame),
    /// This many records were missed: a gap in the stream, and no reason to stop.
    Gap(u64),
    /// Nothing to send for now.
    Idle,
    /// The stream's channel is gone: stop forwarding.
    Closed,
}

/// Whether a payload can stand in a `Message` frame.
pub open spec fn deliverable(payload: Seq<u8>) -> bool {
    0 < payload.len() <= u32::MAX
}

/// Turns what a receive came back with into the subscriber's next action.
///
/// A record becomes the `Message` frame of its stream, offset and payload.
/// A record that no `Message` frame can carry counts as one missed record.
pub fn deliver(stream_id: u64, received: Received) -> (delivery: Delivery)
    ensures
        match received {
            Received::Record { offset, payload } => if deliverable(payload@) {
                &&& delivery matches Delivery::Message(frame)
                &&& frame.frame_type == FrameType::Message
                &&& frame.stream_id == stream_id
                &&& frame.offset == offset
                &&& frame.payload@ == payload@
            } else {
                delivery matches Delivery::Gap(missed) && missed == 1
            },
            Received::Lagged(n) => delivery matches Delivery::Gap(missed) && missed == n,
            Received::Empty => delivery is Idle,
            Received::Closed => delivery is Closed,
        },
{
    match received {
        Received::Record { offset, payload } => {
            let n: usize = payload.len();
            if n > 0 && n as u64 <= u32::MAX as u64 {
                Delivery::Message(
                    Frame { frame_type: FrameType::Message, stream_id, offset, payload },
                )
            } else {
                Delivery::Gap(1)
            }
        },
        Received::Lagged(missed) => Delivery::Gap(missed),
        Received::Empty => Delivery::Idle,
        Received::Closed => Delivery::Closed,
    }
}

/// A live subscription of one connection to one stream.
#[derive(Debug)]
pub struct Subscription {
    pub stream_id: u64,
    pub receiver: Receiver<(u64, Vec<u8>)>,
}

impl Subscription {
    /// Takes the next pending record of the stream, if any, without waiting,
    /// and says what to do with it.
    pub fn poll(&mut self) -> (delivery: Delivery)
        ensures
            final(self).stream_id == old(self).stream_id,
            delivery matches Delivery::Message(frame) ==> {
                &&& frame@.valid()
                &&& frame.frame_type == FrameType::Message
                &&& frame.stream_id == old(self).stream_id
            },
    {
        let received = try_receive(&mut self.receiver);
        deliver(self.stream_id, received)
    }
}

} // verus!
