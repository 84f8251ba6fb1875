//! The commit path as a whole: what a run of frames, dispatched in order,
//! makes of the broker.
//!
//! One frame's dispatch is described where the broker is. Here the
//! descriptions are put end to end, and it is shown that what the commits
//! of a run leave in a stream's durable log replays to exactly the publishes
//! to that stream, in offset order. For the in-memory storage the same is
//! shown of the storage's own logs, and that a publish is owed its `Ack`
//! while there is room.

use crate::frame::{FrameType, FrameView};
use crate::record::{
    lemma_log_of_push, lemma_record_layout, lemma_replay_round_trip, log_of, replay_spec,
    RecordView, RECORD_HEADER_LEN,
};
use crate::server::{ack_of, stored_as, Reply, Server};
use crate::storage::{MemoryStorage, Storage, StorageError};
use vstd::prelude::*;

verus! {

/// How many of `frames` are `Publish` frames.
pub open spec fn publishes(frames: Seq<FrameView>) -> nat
    decreases frames.len(),
{
    if frames.len() == 0 {
        0
    } else if frames.last().frame_type == FrameType::Publish {
        publishes(frames.drop_last()) + 1
    } else {
        publishes(frames.drop_last())
    }
}

/// The streams that `frames` subscribe to.
pub open spec fn subscribed(frames: Seq<FrameView>) -> Set<u64> {
    Set::new(
        |stream_id: u64|
            exists|i: int|
                0 <= i < frames.len() && (#[trigger] frames[i]).frame_type == FrameType::Subscribe
                    && frames[i].stream_id == stream_id,
    )
}

/// The records that `frames`, dispatched in order on a ledger that stands
/// at `next`, commit to `stream_id`: one for each `Publish` to that stream,
/// at the offset of its turn.
pub open spec fn commits(next: nat, frames: Seq<FrameView>, stream_id: u64) -> Seq<RecordView>
    decreases frames.len(),
{
    if frames.len() == 0 {
        Seq::empty()
    } else {
        let earlier = frames.drop_last();
        let frame = frames.last();
        if frame.frame_type == FrameType::Publish && frame.stream_id == stream_id {
            commits(next, earlier, stream_id).push(
                RecordView { offset: (next + publishes(earlier)) as u64, payload: frame.payload },
            )
        } else {
            commits(next, earlier, stream_id)
        }
    }
}

/// The records that those commits hand to the channel of `stream_id`, when
/// `channels` are the streams that had a channel before the run: one for
/// each `Publish` to that stream that finds a channel, with its offset.
pub open spec fn fanned(
    channels: Set<u64>,
    next: nat,
    frames: Seq<FrameView>,
    stream_id: u64,
) -> Seq<(u64, Seq<u8>)>
    decreases frames.len(),
{
    if frames.len() == 0 {
        Seq::empty()
    } else {
        let earlier = frames.drop_last();
        let frame = frames.last();
        if frame.frame_type == FrameType::Publish && frame.stream_id == stream_id
            && channels.union(subscribed(earlier)).contains(stream_id) {
            fanned(channels, next, earlier, stream_id).push(
                ((next + publishes(earlier)) as u64, frame.payload),
            )
        } else {
            fanned(channels, next, earlier, stream_id)
        }
    }
}

/// The bytes that those commits append to the log of `stream_id`.
pub open spec fn committed(next: nat, frames: Seq<FrameView>, stream_id: u64) -> Seq<u8> {
    log_of(commits(next, frames, stream_id))
}

/// A reply as a mathematical value.
pub enum Answer {
    /// This `Ack` frame.
    Ack(FrameView),
    /// A subscription to this stream.
    Subscribed(u64),
    /// Nothing.
    Ignored,
}

/// The view of a reply. Of a subscription it keeps the stream; the receiver
/// is a handle into the stream's channel and has no view.
pub open spec fn answer_of(reply: Reply) -> Answer {
    match reply {
        Reply::Ack(ack) => Answer::Ack(ack@),
        Reply::Subscribed(subscription) => Answer::Subscribed(subscription.stream_id),
        Reply::Ignored => Answer::Ignored,
    }
}

/// The views of a vector of replies.
pub open spec fn answers_of(replies: Seq<Reply>) -> Seq<Answer> {
    replies.map_values(|reply: Reply| answer_of(reply))
}

/// The answer to `frame` when the ledger stands at `next`.
pub open spec fn answer_to(next: nat, frame: FrameView) -> Answer {
    match frame.frame_type {
        FrameType::Publish => Answer::Ack(ack_of(frame.stream_id, next as u64)),
        FrameType::Subscribe => Answer::Subscribed(frame.stream_id),
        FrameType::Ack | FrameType::Message => Answer::Ignored,
    }
}

/// The answers to `frames`, one for each, when they are dispatched in order
/// on a ledger that stands at `next` and every commit succeeds.
pub open spec fn answers(next: nat, frames: Seq<FrameView>) -> Seq<Answer>
    decreases frames.len(),
{
    if frames.len() == 0 {
        Seq::empty()
    } else {
        answers(next, frames.drop_last()).push(
            answer_to(next + publishes(frames.drop_last()), frames.last()),
        )
    }
}

/// Whether the broker takes every frame of `frames`: every `Publish` among
/// them satisfies the frame invariant.
pub open spec fn all_admissible(frames: Seq<FrameView>) -> bool {
    forall|i: int| 0 <= i < frames.len() ==> (#[trigger] frames[i]).admissible()
}

/// Whether the storage `before` came out as `after` by being handed the
/// record of every `Publish` of `frames`, in order and at the offset of its
/// turn on a ledger that stands at `next`, and answering `Ok` to each.
pub open spec fn stored_run<S: Storage>(
    before: S,
    next: nat,
    frames: Seq<FrameView>,
    after: S,
) -> bool
    decreases frames.len(),
{
    if frames.len() == 0 {
        after == before
    } else {
        let earlier = frames.drop_last();
        let frame = frames.last();
        if frame.frame_type == FrameType::Publish {
            exists|between: S|
                {
                    &&& stored_run(before, next, earlier, between)
                    &&& #[trigger] stored_as(
                        between,
                        frame.stream_id,
                        (next + publishes(earlier)) as u64,
                        frame.payload,
                        after,
                        Ok::<(), StorageError>(()),
                    )
                }
        } else {
            stored_run(before, next, earlier, after)
        }
    }
}

/// Whether `after` is the broker `before` with `frames` dispatched in order
/// and every commit durable: the ledger has advanced by the publishes, the
/// streams subscribed to have a channel, each stream's durable log has grown
/// by its commits, each stream's channel was handed its commits, and the
/// storage was handed every record and answered `Ok` to each.
pub open spec fn settled<S: Storage>(
    before: Server<S>,
    frames: Seq<FrameView>,
    after: Server<S>,
) -> bool {
    &&& after.ledger().next() == before.ledger().next() + publishes(frames)
    &&& stored_run(before.store(), before.ledger().next(), frames, after.store())
    &&& after.fanout().channels() == before.fanout().channels().union(subscribed(frames))
    &&& forall|stream_id: u64| #[trigger]
        after.durable(stream_id) == before.durable(stream_id) + committed(
            before.ledger().next(),
            frames,
            stream_id,
        )
    &&& forall|stream_id: u64| #[trigger]
        after.fanout().broadcasts(stream_id) == before.fanout().broadcasts(stream_id) + fanned(
            before.fanout().channels(),
            before.ledger().next(),
            frames,
            stream_id,
        )
}

/// Whether `after` is the broker `before` with `frames` dispatched in order
/// and every commit durable, and then the commit of `failed` refused by the
/// storage with `error`: its offset is spent, the storage was handed its
/// record, and nothing of it was acknowledged or broadcast.
pub open spec fn unsettled<S: Storage>(
    before: Server<S>,
    frames: Seq<FrameView>,
    failed: FrameView,
    error: StorageError,
    after: Server<S>,
) -> bool {
    &&& after.ledger().next() == before.ledger().next() + publishes(frames) + 1
    &&& exists|between: S|
        {
            &&& stored_run(before.store(), before.ledger().next(), frames, between)
            &&& #[trigger] stored_as(
                between,
                failed.stream_id,
                (before.ledger().next() + publishes(frames)) as u64,
                failed.payload,
                after.store(),
                Err::<(), StorageError>(error),
            )
        }
    &&& after.fanout().channels() == before.fanout().channels().union(subscribed(frames))
    &&& forall|stream_id: u64| #[trigger]
        after.durable(stream_id) == before.durable(stream_id) + committed(
            before.ledger().next(),
            frames,
            stream_id,
        )
    &&& forall|stream_id: u64| #[trigger]
        after.fanout().broadcasts(stream_id) == before.fanout().broadcasts(stream_id) + fanned(
            before.fanout().channels(),
            before.ledger().next(),
            frames,
            stream_id,
        )
}

/// Dispatching one more frame on a settled broker leaves it settled.
pub proof fn lemma_dispatched<S: Storage>(
    first: Server<S>,
    done: Seq<FrameView>,
    before: Server<S>,
    frame: FrameView,
    after: Server<S>,
    answer: Reply,
)
    requires
        settled(first, done, before),
        before.handled(frame, after, Ok::<Reply, StorageError>(answer)),
    ensures
        settled(first, done.push(frame), after),
        answer_of(answer) == answer_to(first.ledger().next() + publishes(done), frame),
        all_admissible(done) && frame.admissible() ==> all_admissible(done.push(frame)),
{
    let next = first.ledger().next();
    let more = done.push(frame);
    assert(more.drop_last() =~= done);
    assert(more.last() == frame);
    assert(stored_run(first.store(), next, more, after.store())) by {
        assert(stored_run(first.store(), next, done, before.store()));
        if frame.frame_type == FrameType::Publish {
            let offset = (next + publishes(done)) as u64;
            assert(before.ledger().next() as u64 == offset);
            assert(exists|stored: Result<(), StorageError>|
                {
                    &&& #[trigger] stored_as(
                        before.store(),
                        frame.stream_id,
                        offset,
                        frame.payload,
                        after.store(),
                        stored,
                    )
                    &&& stored is Ok
                });
            let stored = choose|stored: Result<(), StorageError>|
                {
                    &&& #[trigger] stored_as(
                        before.store(),
                        frame.stream_id,
                        offset,
                        frame.payload,
                        after.store(),
                        stored,
                    )
                    &&& stored is Ok
                };
            assert(stored->Ok_0 == ());
            assert(stored == Ok::<(), StorageError>(()));
            assert(stored_run(first.store(), next, more.drop_last(), before.store()));
            assert(stored_as(
                before.store(),
                more.last().stream_id,
                (next + publishes(more.drop_last())) as u64,
                more.last().payload,
                after.store(),
                Ok::<(), StorageError>(()),
            ));
        } else {
            assert(after.store() == before.store());
        }
    }
    assert(subscribed(more) =~= subscribed(done).union(
        if frame.frame_type == FrameType::Subscribe {
            set![frame.stream_id]
        } else {
            Set::<u64>::empty()
        },
    )) by {
        assert forall|stream_id: u64| subscribed(more).contains(stream_id) implies (subscribed(
            done,
        ).contains(stream_id) || (frame.frame_type == FrameType::Subscribe && frame.stream_id
            == stream_id)) by {
            let i = choose|i: int|
                0 <= i < more.len() && (#[trigger] more[i]).frame_type == FrameType::Subscribe
                    && more[i].stream_id == stream_id;
            if i < done.len() {
                assert(done[i] == more[i]);
            }
        }
        assert forall|stream_id: u64| subscribed(done).contains(stream_id) implies subscribed(
            more,
        ).contains(stream_id) by {
            let i = choose|i: int|
                0 <= i < done.len() && (#[trigger] done[i]).frame_type == FrameType::Subscribe
                    && done[i].stream_id == stream_id;
            assert(more[i] == done[i]);
        }
        if frame.frame_type == FrameType::Subscribe {
            assert(more[done.len() as int] == frame);
        }
    }
    assert(after.fanout().channels() =~= first.fanout().channels().union(subscribed(more)));
    assert forall|stream_id: u64| #[trigger]
        after.durable(stream_id) == first.durable(stream_id) + committed(
            next,
            more,
            stream_id,
        ) by {
        let base = first.durable(stream_id);
        let so_far = committed(next, done, stream_id);
        if frame.frame_type == FrameType::Publish && frame.stream_id == stream_id {
            let record = RecordView {
                offset: (next + publishes(done)) as u64,
                payload: frame.payload,
            };
            lemma_log_of_push(commits(next, done, stream_id), record);
            assert((base + so_far) + record.encoding() =~= base + (so_far + record.encoding()));
        }
    }
    assert forall|stream_id: u64| #[trigger]
        after.fanout().broadcasts(stream_id) == first.fanout().broadcasts(stream_id) + fanned(
            first.fanout().channels(),
            next,
            more,
            stream_id,
        ) by {
        let base = first.fanout().broadcasts(stream_id);
        let so_far = fanned(first.fanout().channels(), next, done, stream_id);
        assert(before.fanout().broadcasts(stream_id) == base + so_far);
        if frame.frame_type == FrameType::Publish && frame.stream_id == stream_id
            && before.fanout().channels().contains(stream_id) {
            let record = ((next + publishes(done)) as u64, frame.payload);
            assert((base + so_far).push(record) =~= base + so_far.push(record));
        }
    }
    if all_admissible(done) && frame.admissible() {
        assert forall|i: int| 0 <= i < more.len() implies (#[trigger] more[i]).admissible() by {
            if i < done.len() {
                assert(more[i] == done[i]);
            }
        }
    }
}

/// A commit that the storage refuses on a settled broker leaves it
/// unsettled.
pub proof fn lemma_failed<S: Storage>(
    first: Server<S>,
    done: Seq<FrameView>,
    before: Server<S>,
    frame: FrameView,
    error: StorageError,
    after: Server<S>,
)
    requires
        settled(first, done, before),
        before.handled(frame, after, Err::<Reply, StorageError>(error)),
    ensures
        frame.frame_type == FrameType::Publish,
        unsettled(first, done, frame, error, after),
{
    let r = Err::<Reply, StorageError>(error);
    let offset = before.ledger().next() as u64;
    let stored = choose|stored: Result<(), StorageError>|
        {
            &&& #[trigger] stored_as(
                before.store(),
                frame.stream_id,
                offset,
                frame.payload,
                after.store(),
                stored,
            )
            &&& stored is Ok <==> r is Ok
            &&& stored matches Err(e) ==> r == Err::<Reply, StorageError>(e)
        };
    assert(stored == Err::<(), StorageError>(error));
    assert(stored_run(first.store(), first.ledger().next(), done, before.store()));
    assert forall|stream_id: u64| #[trigger]
        after.durable(stream_id) == first.durable(stream_id) + committed(
            first.ledger().next(),
            done,
            stream_id,
        ) by {
        if stream_id != frame.stream_id {
            assert(after.durable(stream_id) == before.durable(stream_id));
        }
    }
}

/// Every commit of a run of admissible frames can be encoded, and there is at
/// most one for each `Publish` of the run.
pub proof fn lemma_commits_encodable(next: nat, frames: Seq<FrameView>, stream_id: u64)
    requires
        all_admissible(frames),
    ensures
        crate::record::all_encodable(commits(next, frames, stream_id)),
        commits(next, frames, stream_id).len() <= publishes(frames),
    decreases frames.len(),
{
    if frames.len() > 0 {
        let earlier = frames.drop_last();
        assert(all_admissible(earlier)) by {
            assert forall|i: int| 0 <= i < earlier.len() implies (#[trigger] earlier[i]).admissible() by {
                assert(earlier[i] == frames[i]);
            }
        }
        assert(frames.last() == frames[frames.len() - 1]);
        lemma_commits_encodable(next, earlier, stream_id);
    }
}

/// Every commit of a run gets an offset of the run: at or after where the
/// ledger stood, and before where it stands when the run is done.
pub proof fn lemma_commits_offsets(next: nat, frames: Seq<FrameView>, stream_id: u64, i: int)
    requires
        next + publishes(frames) <= u64::MAX,
        0 <= i < commits(next, frames, stream_id).len(),
    ensures
        next <= commits(next, frames, stream_id)[i].offset < next + publishes(frames),
    decreases frames.len(),
{
    if frames.len() > 0 {
        let earlier = frames.drop_last();
        if i < commits(next, earlier, stream_id).len() {
            lemma_commits_offsets(next, earlier, stream_id, i);
        }
    }
}

/// Per-stream order: of two commits of a run to one stream, the later has
/// the greater offset.
pub proof fn lemma_commits_in_offset_order(
    next: nat,
    frames: Seq<FrameView>,
    stream_id: u64,
    i: int,
    j: int,
)
    requires
        next + publishes(frames) <= u64::MAX,
        0 <= i < j < commits(next, frames, stream_id).len(),
    ensures
        commits(next, frames, stream_id)[i].offset < commits(next, frames, stream_id)[j].offset,
    decreases frames.len(),
{
    if frames.len() > 0 {
        let earlier = frames.drop_last();
        let before = commits(next, earlier, stream_id);
        if j < before.len() {
            lemma_commits_in_offset_order(next, earlier, stream_id, i, j);
        } else {
            lemma_commits_offsets(next, earlier, stream_id, i);
        }
    }
}

/// Global order: two commits of a run to different streams never get the
/// same offset.
pub proof fn lemma_commits_offsets_distinct(
    next: nat,
    frames: Seq<FrameView>,
    one: u64,
    other: u64,
    i: int,
    j: int,
)
    requires
        next + publishes(frames) <= u64::MAX,
        one != other,
        0 <= i < commits(next, frames, one).len(),
        0 <= j < commits(next, frames, other).len(),
    ensures
        commits(next, frames, one)[i].offset != commits(next, frames, other)[j].offset,
    decreases frames.len(),
{
    if frames.len() > 0 {
        let earlier = frames.drop_last();
        if i < commits(next, earlier, one).len() && j < commits(next, earlier, other).len() {
            lemma_commits_offsets_distinct(next, earlier, one, other, i, j);
        } else if i < commits(next, earlier, one).len() {
            lemma_commits_offsets(next, earlier, one, i);
        } else {
            lemma_commits_offsets(next, earlier, other, j);
        }
    }
}

/// A commit as it is handed to a channel: its offset and its payload.
pub open spec fn as_broadcast(record: RecordView) -> (u64, Seq<u8>) {
    (record.offset, record.payload)
}

/// Fan-out of a stream that has a channel: every commit of a run to the
/// stream is handed to its channel, in order, with the offset under which it
/// was committed and acknowledged.
pub proof fn lemma_fanned_with_channel(
    channels: Set<u64>,
    next: nat,
    frames: Seq<FrameView>,
    stream_id: u64,
)
    requires
        channels.contains(stream_id),
    ensures
        fanned(channels, next, frames, stream_id) == commits(next, frames, stream_id).map_values(
            |record: RecordView| as_broadcast(record),
        ),
    decreases frames.len(),
{
    let handed = fanned(channels, next, frames, stream_id);
    let mapped = commits(next, frames, stream_id).map_values(
        |record: RecordView| as_broadcast(record),
    );
    if frames.len() > 0 {
        lemma_fanned_with_channel(channels, next, frames.drop_last(), stream_id);
    }
    assert(handed =~= mapped);
}

/// Fan-out of a stream that nobody has subscribed to: nothing is handed to
/// anybody, whatever is published.
pub proof fn lemma_fanned_without_channel(
    channels: Set<u64>,
    next: nat,
    frames: Seq<FrameView>,
    stream_id: u64,
)
    requires
        !channels.contains(stream_id),
        !subscribed(frames).contains(stream_id),
    ensures
        fanned(channels, next, frames, stream_id) == Seq::<(u64, Seq<u8>)>::empty(),
    decreases frames.len(),
{
    if frames.len() > 0 {
        let earlier = frames.drop_last();
        assert(!subscribed(earlier).contains(stream_id)) by {
            if subscribed(earlier).contains(stream_id) {
                let i = choose|i: int|
                    0 <= i < earlier.len() && (#[trigger] earlier[i]).frame_type
                        == FrameType::Subscribe && earlier[i].stream_id == stream_id;
                assert(frames[i] == earlier[i]);
            }
        }
        lemma_fanned_without_channel(channels, next, earlier, stream_id);
    }
}

/// Durability round trip: where a stream's durable log replays to `records`,
/// it replays, once a run of admissible frames has settled, to `records` followed
/// by the publishes of the run to that stream, in order.
pub proof fn lemma_settled_log_replays<S: Storage>(
    before: Server<S>,
    frames: Seq<FrameView>,
    after: Server<S>,
    stream_id: u64,
    records: Seq<RecordView>,
)
    requires
        settled(before, frames, after),
        all_admissible(frames),
        crate::record::all_encodable(records),
        before.durable(stream_id) == log_of(records),
    ensures
        replay_spec(after.durable(stream_id)) == records + commits(
            before.ledger().next(),
            frames,
            stream_id,
        ),
{
    let added = commits(before.ledger().next(), frames, stream_id);
    lemma_commits_encodable(before.ledger().next(), frames, stream_id);
    crate::record::lemma_replay_log_then(records, log_of(added));
    lemma_replay_round_trip(added);
}

/// How many bytes the records of the publishes of `frames` take in the logs.
pub open spec fn commit_size(frames: Seq<FrameView>) -> nat
    decreases frames.len(),
{
    if frames.len() == 0 {
        0
    } else if frames.last().frame_type == FrameType::Publish {
        commit_size(frames.drop_last()) + RECORD_HEADER_LEN as nat + frames.last().payload.len()
    } else {
        commit_size(frames.drop_last())
    }
}

/// Durability in memory: where the in-memory storage has taken the records
/// of a run, each stream's log has grown by exactly the records committed
/// to it, and the room has shrunk by their size.
pub proof fn lemma_stored_run_in_memory(
    before: MemoryStorage,
    next: nat,
    frames: Seq<FrameView>,
    after: MemoryStorage,
)
    requires
        stored_run(before, next, frames, after),
        all_admissible(frames),
    ensures
        commit_size(frames) <= before.room(),
        after.room() == before.room() - commit_size(frames),
        forall|stream_id: u64| #[trigger]
            after.log(stream_id) == before.log(stream_id) + committed(next, frames, stream_id),
    decreases frames.len(),
{
    if frames.len() == 0 {
        assert forall|stream_id: u64| #[trigger]
            after.log(stream_id) == before.log(stream_id) + committed(next, frames, stream_id) by {
            assert(before.log(stream_id) + Seq::<u8>::empty() =~= before.log(stream_id));
        }
    } else {
        let earlier = frames.drop_last();
        let frame = frames.last();
        assert(frame == frames[frames.len() - 1]);
        assert(all_admissible(earlier)) by {
            assert forall|i: int| 0 <= i < earlier.len() implies (#[trigger] earlier[i]).admissible() by {
                assert(earlier[i] == frames[i]);
            }
        }
        if frame.frame_type == FrameType::Publish {
            let offset = (next + publishes(earlier)) as u64;
            let between = choose|between: MemoryStorage|
                {
                    &&& stored_run(before, next, earlier, between)
                    &&& #[trigger] stored_as(
                        between,
                        frame.stream_id,
                        offset,
                        frame.payload,
                        after,
                        Ok::<(), StorageError>(()),
                    )
                };
            lemma_stored_run_in_memory(before, next, earlier, between);
            let record = RecordView { offset, payload: frame.payload };
            lemma_record_layout(record);
            assert forall|stream_id: u64| #[trigger]
                after.log(stream_id) == before.log(stream_id) + committed(
                    next,
                    frames,
                    stream_id,
                ) by {
                let base = before.log(stream_id);
                let so_far = committed(next, earlier, stream_id);
                if stream_id == frame.stream_id {
                    lemma_log_of_push(commits(next, earlier, stream_id), record);
                    assert((base + so_far) + record.encoding() =~= base + (so_far
                        + record.encoding()));
                }
            }
        } else {
            lemma_stored_run_in_memory(before, next, earlier, after);
        }
    }
}

/// A publish is owed its `Ack` in memory: on a broker over the in-memory
/// storage with room for the record, a valid `Publish` is answered with the
/// `Ack` of its stream and of the ledger's next offset, whatever offset the
/// frame itself carries.
pub proof fn lemma_publish_answered_in_memory(
    before: Server<MemoryStorage>,
    frame: FrameView,
    after: Server<MemoryStorage>,
    r: Result<Reply, StorageError>,
)
    requires
        before.handled(frame, after, r),
        frame.frame_type == FrameType::Publish,
        frame.valid(),
        RECORD_HEADER_LEN + frame.payload.len() <= before.store().room(),
    ensures
        r matches Ok(Reply::Ack(ack)) && ack@ == ack_of(
            frame.stream_id,
            before.ledger().next() as u64,
        ),
        after.store().room() == before.store().room() - RECORD_HEADER_LEN - frame.payload.len(),
{
    lemma_record_layout(
        RecordView { offset: before.ledger().next() as u64, payload: frame.payload },
    );
}

/// Replay in memory: where a stream's log in the in-memory storage replays
/// to `records`, it replays, once the storage has taken the records of a
/// run, to `records` followed by the publishes of the run to that stream.
pub proof fn lemma_memory_log_replays(
    before: MemoryStorage,
    next: nat,
    frames: Seq<FrameView>,
    after: MemoryStorage,
    stream_id: u64,
    records: Seq<RecordView>,
)
    requires
        stored_run(before, next, frames, after),
        all_admissible(frames),
        crate::record::all_encodable(records),
        before.log(stream_id) == log_of(records),
    ensures
        replay_spec(after.log(stream_id)) == records + commits(next, frames, stream_id),
{
    let added = commits(next, frames, stream_id);
    lemma_stored_run_in_memory(before, next, frames, after);
    lemma_commits_encodable(next, frames, stream_id);
    crate::record::lemma_replay_log_then(records, log_of(added));
    lemma_replay_round_trip(added);
}

/// The records of the first frames of a run take no more bytes than those
/// of the whole run.
pub proof fn lemma_commit_size_of_prefix(frames: Seq<FrameView>, n: int)
    requires
        0 <= n <= frames.len(),
    ensures
        commit_size(frames.take(n)) <= commit_size(frames),
    decreases frames.len(),
{
    if n < frames.len() {
        let earlier = frames.drop_last();
        lemma_commit_size_of_prefix(earlier, n);
        assert(earlier.take(n) =~= frames.take(n));
    } else {
        assert(frames.take(n) =~= frames);
    }
}

} // verus!
