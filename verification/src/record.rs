//! The write-ahead log: records as they lie in a stream's log file, and
//! replay of a log that may end in a torn write.
//!
//! A log is a back-to-back sequence of records in commit order:
//!
//! ```text
//! offset  size  field
//! 0       8     record offset, little-endian
//! 8       4     payload length, little-endian
//! 12      N     payload
//! ```
//!
//! The frame type and the stream id of the wire format are left out: the
//! file says which stream it is, and every record is a committed publish.

use crate::le::{
    le_bytes, le_value, lemma_le_bytes_len, lemma_le_value_bound, lemma_le_value_of_bytes,
    lemma_pow256_values, read_le, write_le,
};
use vstd::prelude::*;
use vstd::slice::*;

verus! {

/// The durable form of one accepted publish.
#[derive(Debug, Clone)]
pub struct Record {
    pub offset: u64,
    pub payload: Vec<u8>,
}

/// A record as a mathematical value.
pub struct RecordView {
    pub offset: u64,
    pub payload: Seq<u8>,
}

impl View for Record {
    type V = RecordView;

    open spec fn view(&self) -> RecordView {
        RecordView { offset: self.offset, payload: self.payload@ }
    }
}

/// Length of a record's fixed header.
pub const RECORD_HEADER_LEN: usize = 12;

impl RecordView {
    /// The payload length fits the header's four-byte length field.
    pub open spec fn encodable(self) -> bool {
        self.payload.len() <= u32::MAX
    }

    /// The record's bytes in the log.
    pub open spec fn encoding(self) -> Seq<u8> {
        le_bytes(self.offset as nat, 8) + le_bytes(self.payload.len(), 4) + self.payload
    }
}

/// The log that holds exactly `records`, in order.
pub open spec fn log_of(records: Seq<RecordView>) -> Seq<u8>
    decreases records.len(),
{
    if records.len() == 0 {
        Seq::empty()
    } else {
        records[0].encoding() + log_of(records.drop_first())
    }
}

/// Whether every record of `records` can be encoded.
pub open spec fn all_encodable(records: Seq<RecordView>) -> bool {
    forall|i: int| 0 <= i < records.len() ==> (#[trigger] records[i]).encodable()
}

/// Whether `log` starts with a whole record: a full header, and as many
/// payload bytes as the header declares.
pub open spec fn record_present(log: Seq<u8>) -> bool {
    log.len() >= RECORD_HEADER_LEN && log.len() >= RECORD_HEADER_LEN + le_value(
        log.subrange(8, 12),
    )
}

/// The record at the start of `log`, where one is present.
pub open spec fn first_record(log: Seq<u8>) -> RecordView
    recommends
        record_present(log),
{
    RecordView {
        offset: le_value(log.subrange(0, 8)) as u64,
        payload: log.subrange(
            RECORD_HEADER_LEN as int,
            RECORD_HEADER_LEN + le_value(log.subrange(8, 12)),
        ),
    }
}

/// How many bytes the record at the start of `log` takes.
pub open spec fn first_record_len(log: Seq<u8>) -> nat
    recommends
        record_present(log),
{
    RECORD_HEADER_LEN as nat + le_value(log.subrange(8, 12))
}

/// What replay of `log` yields: the records, one after the other, up to the
/// first place where less than a whole record is left. A torn tail is not an
/// error; it is where the log ends.
pub open spec fn replay_spec(log: Seq<u8>) -> Seq<RecordView>
    decreases log.len(),
{
    if record_present(log) {
        seq![first_record(log)] + replay_spec(log.skip(first_record_len(log) as int))
    } else {
        Seq::empty()
    }
}

/// The views of a vector of records.
pub open spec fn record_views(records: Seq<Record>) -> Seq<RecordView> {
    records.map_values(|r: Record| r@)
}

/// The payloads of a sequence of records.
pub open spec fn payloads_of(records: Seq<RecordView>) -> Seq<Seq<u8>> {
    records.map_values(|r: RecordView| r.payload)
}

/// The views of a vector of payloads.
pub open spec fn payload_views(payloads: Seq<Vec<u8>>) -> Seq<Seq<u8>> {
    payloads.map_values(|p: Vec<u8>| p@)
}

impl Record {
    /// The bytes in the log of the record with this offset and payload.
    pub fn encode_parts(offset: u64, payload: &[u8]) -> (bytes: Vec<u8>)
        requires
            payload@.len() <= u32::MAX,
        ensures
            bytes@ == (RecordView { offset, payload: payload@ }).encoding(),
            bytes@.len() == RECORD_HEADER_LEN + payload@.len(),
    {
        let mut buf: Vec<u8> = Vec::new();
        write_le(&mut buf, offset, 8);
        write_le(&mut buf, payload.len() as u64, 4);
        let ghost header = buf@;
        buf.extend_from_slice(payload);
        proof {
            lemma_le_bytes_len(offset as nat, 8);
            lemma_le_bytes_len(payload@.len(), 4);
            assert(buf@ =~= header + payload@);
        }
        buf
    }

    /// The record's bytes in the log: the header, then the payload.
    pub fn encode(&self) -> (bytes: Vec<u8>)
        requires
            self@.encodable(),
        ensures
            bytes@ == self@.encoding(),
            bytes@.len() == RECORD_HEADER_LEN + self.payload@.len(),
    {
        Record::encode_parts(self.offset, self.payload.as_slice())
    }
}

/// Reads a stream's log from the start.
pub struct ReplayReader {
    bytes: Vec<u8>,
    pos: usize,
}

impl ReplayReader {
    #[verifier::type_invariant]
    spec fn in_bounds(&self) -> bool {
        self.pos <= self.bytes@.len()
    }

    /// The part of the log that has not been read yet.
    pub closed spec fn remaining(&self) -> Seq<u8> {
        self.bytes@.skip(self.pos as int)
    }

    /// A reader over the whole of `bytes`, the contents of a stream's log file.
    pub fn new(bytes: Vec<u8>) -> (reader: ReplayReader)
        ensures
            reader.remaining() == bytes@,
    {
        let reader = ReplayReader { bytes, pos: 0 };
        assert(reader.bytes@.skip(0) =~= reader.bytes@);
        reader
    }

    /// Reads the next record, if a whole one is left.
    pub fn read_one(&mut self) -> (r: Option<Record>)
        ensures
            match r {
                Some(record) => {
                    &&& record_present(old(self).remaining())
                    &&& record@ == first_record(old(self).remaining())
                    &&& final(self).remaining() == old(self).remaining().skip(
                        first_record_len(old(self).remaining()) as int,
                    )
                },
                None => {
                    &&& !record_present(old(self).remaining())
                    &&& final(self).remaining() == old(self).remaining()
                },
            },
    {
        proof {
            use_type_invariant(&*self);
        }
        let ghost rest = self.remaining();
        let left: usize = self.bytes.len() - self.pos;
        if left < RECORD_HEADER_LEN {
            return None;
        }
        let offset: u64 = read_le(self.bytes.as_slice(), self.pos, 8);
        let len: u64 = read_le(self.bytes.as_slice(), self.pos + 8, 4);
        proof {
            assert(rest.subrange(0, 8) =~= self.bytes@.subrange(self.pos as int, self.pos + 8));
            assert(rest.subrange(8, 12) =~= self.bytes@.subrange(self.pos + 8, self.pos + 12));
            lemma_le_value_bound(rest.subrange(8, 12));
            lemma_le_value_bound(rest.subrange(0, 8));
            lemma_pow256_values();
        }
        if ((left - RECORD_HEADER_LEN) as u64) < len {
            return None;
        }
        let start: usize = self.pos + RECORD_HEADER_LEN;
        let end: usize = start + len as usize;
        let payload = slice_to_vec(slice_subrange(self.bytes.as_slice(), start, end));
        proof {
            assert(payload@ =~= rest.subrange(RECORD_HEADER_LEN as int, RECORD_HEADER_LEN + len));
            assert(self.bytes@.skip(end as int) =~= rest.skip(RECORD_HEADER_LEN + len));
        }
        self.pos = end;
        Some(Record { offset, payload })
    }

    /// Reads every whole record that is left, in log order, and stops without
    /// an error at the end of the log or at a torn tail.
    pub fn read_all(&mut self) -> (records: Vec<Record>)
        ensures
            record_views(records@) == replay_spec(old(self).remaining()),
            !record_present(final(self).remaining()),
    {
        let mut records: Vec<Record> = Vec::new();
        let ghost start = self.remaining();
        assert(record_views(records@) =~= Seq::<RecordView>::empty());
        loop
            invariant
                record_views(records@) + replay_spec(self.remaining()) == replay_spec(start),
            ensures
                record_views(records@) == replay_spec(start),
                !record_present(self.remaining()),
            decreases self.remaining().len(),
        {
            let ghost before = self.remaining();
            let ghost done = record_views(records@);
            match self.read_one() {
                Some(record) => {
                    records.push(record);
                    proof {
                        assert(record_views(records@) =~= done.push(record@));
                        assert(done.push(record@) + replay_spec(self.remaining()) =~= done
                            + replay_spec(before));
                    }
                },
                None => {
                    assert(done + replay_spec(before) =~= done);
                    break ;
                },
            }
        }
        records
    }

    /// Reads every whole record that is left and returns the raw payloads in
    /// write order.
    pub fn replay_all(&mut self) -> (payloads: Vec<Vec<u8>>)
        ensures
            payload_views(payloads@) == payloads_of(replay_spec(old(self).remaining())),
            !record_present(final(self).remaining()),
    {
        let mut payloads: Vec<Vec<u8>> = Vec::new();
        let ghost start = self.remaining();
        assert(payload_views(payloads@) =~= Seq::<Seq<u8>>::empty());
        loop
            invariant
                payload_views(payloads@) + payloads_of(replay_spec(self.remaining()))
                    == payloads_of(replay_spec(start)),
            ensures
                payload_views(payloads@) == payloads_of(replay_spec(start)),
                !record_present(self.remaining()),
            decreases self.remaining().len(),
        {
            let ghost before = self.remaining();
            let ghost done = payload_views(payloads@);
            match self.read_one() {
                Some(record) => {
                    payloads.push(record.payload);
                    proof {
                        let rest = replay_spec(self.remaining());
                        assert(payload_views(payloads@) =~= done.push(record@.payload));
                        assert(payloads_of(seq![record@] + rest) =~= seq![record@.payload]
                            + payloads_of(rest));
                        assert(done.push(record@.payload) + payloads_of(rest) =~= done + (
                        seq![record@.payload] + payloads_of(rest)));
                    }
                },
                None => {
                    assert(done + payloads_of(replay_spec(before)) =~= done);
                    break ;
                },
            }
        }
        payloads
    }
}

/// Where the fields of an encoded record lie.
pub proof fn lemma_record_layout(r: RecordView)
    requires
        r.encodable(),
    ensures
        r.encoding().len() == RECORD_HEADER_LEN + r.payload.len(),
        r.encoding().subrange(0, 8) == le_bytes(r.offset as nat, 8),
        r.encoding().subrange(8, 12) == le_bytes(r.payload.len(), 4),
        r.encoding().subrange(RECORD_HEADER_LEN as int, r.encoding().len() as int) == r.payload,
        le_value(r.encoding().subrange(8, 12)) == r.payload.len(),
        le_value(r.encoding().subrange(0, 8)) == r.offset,
{
    let e = r.encoding();
    lemma_le_bytes_len(r.offset as nat, 8);
    lemma_le_bytes_len(r.payload.len(), 4);
    assert(e.subrange(0, 8) =~= le_bytes(r.offset as nat, 8));
    assert(e.subrange(8, 12) =~= le_bytes(r.payload.len(), 4));
    assert(e.subrange(RECORD_HEADER_LEN as int, e.len() as int) =~= r.payload);
    lemma_pow256_values();
    lemma_le_value_of_bytes(r.payload.len(), 4);
    lemma_le_value_of_bytes(r.offset as nat, 8);
}

/// Appending a record to the log appends its encoding to the log's bytes.
pub proof fn lemma_log_of_push(records: Seq<RecordView>, r: RecordView)
    ensures
        log_of(records.push(r)) == log_of(records) + r.encoding(),
    decreases records.len(),
{
    if records.len() == 0 {
        let one = records.push(r);
        assert(one.drop_first() =~= Seq::<RecordView>::empty());
        assert(log_of(one.drop_first()) =~= Seq::<u8>::empty());
        assert(log_of(records) =~= Seq::<u8>::empty());
        assert(one[0] == r);
        assert(log_of(one) =~= r.encoding());
    } else {
        lemma_log_of_push(records.drop_first(), r);
        assert(records.push(r).drop_first() =~= records.drop_first().push(r));
        assert(log_of(records.push(r)) =~= log_of(records) + r.encoding());
    }
}

/// Replay reads a whole record at the start of the log, and goes on behind it.
pub proof fn lemma_replay_first(r: RecordView, rest: Seq<u8>)
    requires
        r.encodable(),
    ensures
        replay_spec(r.encoding() + rest) == seq![r] + replay_spec(rest),
{
    let e = r.encoding();
    let log = e + rest;
    lemma_record_layout(r);
    assert(log.subrange(0, 8) =~= e.subrange(0, 8));
    assert(log.subrange(8, 12) =~= e.subrange(8, 12));
    assert(log.subrange(RECORD_HEADER_LEN as int, e.len() as int) =~= r.payload);
    assert(log.skip(e.len() as int) =~= rest);
    assert(first_record(log) == r);
}

/// Replay reads every record of a well-formed log, and goes on behind them.
pub proof fn lemma_replay_log_then(records: Seq<RecordView>, tail: Seq<u8>)
    requires
        all_encodable(records),
    ensures
        replay_spec(log_of(records) + tail) == records + replay_spec(tail),
    decreases records.len(),
{
    if records.len() == 0 {
        assert(log_of(records) + tail =~= tail);
        assert(records + replay_spec(tail) =~= replay_spec(tail));
    } else {
        let first = records[0];
        let others = records.drop_first();
        assert(first.encodable());
        assert(all_encodable(others)) by {
            assert forall|i: int| 0 <= i < others.len() implies (#[trigger] others[i]).encodable() by {
                assert(others[i] == records[i + 1]);
            }
        }
        lemma_replay_log_then(others, tail);
        lemma_replay_first(first, log_of(others) + tail);
        assert(log_of(records) + tail =~= first.encoding() + (log_of(others) + tail));
        assert(seq![first] + (others + replay_spec(tail)) =~= records + replay_spec(tail));
    }
}

/// Round trip: replaying the log of `records` yields exactly `records`, in order.
pub proof fn lemma_replay_round_trip(records: Seq<RecordView>)
    requires
        all_encodable(records),
    ensures
        replay_spec(log_of(records)) == records,
{
    lemma_replay_log_then(records, Seq::empty());
    assert(log_of(records) + Seq::<u8>::empty() =~= log_of(records));
    assert(records + replay_spec(Seq::<u8>::empty()) =~= records);
}

/// Torn tail: a log that was cut anywhere inside its last record replays to
/// exactly the records before it.
pub proof fn lemma_replay_torn_tail(records: Seq<RecordView>, last: RecordView, cut: int)
    requires
        all_encodable(records),
        last.encodable(),
        0 <= cut < last.encoding().len(),
    ensures
        replay_spec(log_of(records) + last.encoding().take(cut)) == records,
{
    let torn = last.encoding().take(cut);
    lemma_record_layout(last);
    if cut >= RECORD_HEADER_LEN {
        assert(torn.subrange(8, 12) =~= last.encoding().subrange(8, 12));
    }
    assert(!record_present(torn));
    lemma_replay_log_then(records, torn);
    assert(records + replay_spec(torn) =~= records);
}

/// A record that was appended whole is the last that replay yields.
pub proof fn lemma_replay_after_append(records: Seq<RecordView>, appended: RecordView)
    requires
        all_encodable(records),
        appended.encodable(),
    ensures
        replay_spec(log_of(records) + appended.encoding()) == records.push(appended),
{
    lemma_replay_log_then(records, appended.encoding());
    lemma_replay_first(appended, Seq::empty());
    assert(appended.encoding() + Seq::<u8>::empty() =~= appended.encoding());
    assert(records + (seq![appended] + replay_spec(Seq::<u8>::empty())) =~= records.push(
        appended,
    ));
}

} // verus!
