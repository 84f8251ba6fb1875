//! Durable storage of the per-stream logs.
//!
//! The broker reaches its storage through [`Storage`]. The durability
//! boundary of the whole system is the `Ok` of [`Storage::append`]: an
//! implementation must not return it before the bytes would survive a crash
//! of the process or of the machine. The broker acts on the answer alone:
//! it keeps account of what was acknowledged to it, and its contracts say
//! which answer of the storage led to which of its own.

use std::collections::HashMap;
use vstd::prelude::*;
use vstd::slice::*;

verus! {

broadcast use vstd::std_specs::hash::group_hash_axioms;

/// Why an append did not become durable.
#[derive(Debug, Clone, Copy, PartialEq, Eq)]
pub enum StorageError {
    /// The stream's log could not be opened or created.
    Open,
    /// Not all of the bytes were written.
    Write,
    /// The bytes were written, but could not be forced to stable storage.
    Sync,
}

/// One append-only log per stream.
pub trait Storage {
    /// What the implementation promises of an append: whether an append of
    /// `bytes` to the stream's log may give `answer` and make `after` of the
    /// storage `self`.
    ///
    /// An implementation states here what it can keep for every outcome, and
    /// no more. Whether a disk takes a write is not for the storage to know
    /// beforehand, so a storage on disk promises nothing of its answer.
    spec fn answered(
        &self,
        stream_id: u64,
        bytes: &[u8],
        after: &Self,
        answer: Result<(), StorageError>,
    ) -> bool;

    /// Persists `bytes` durably at the end of the stream's log.
    ///
    /// An implementation returns `Ok` only once the bytes would survive a
    /// crash of the process or of the machine: after the write, the flush of
    /// its own buffers and the forced sync of the device. After an `Err` the
    /// log may end in a torn write, some prefix of `bytes`. No other stream's
    /// log is touched either way.
    ///
    /// Whether an append succeeds is for the implementation to say; the
    /// broker is verified for either answer, and passes on what the
    /// implementation promises of it.
    fn append(&mut self, stream_id: u64, bytes: &[u8]) -> (r: Result<(), StorageError>)
        ensures
            old(self).answered(stream_id, bytes, final(self), r),
    ;
}

/// Logs held in memory, with room for a bounded number of bytes.
///
/// It keeps nothing across a restart. It stands in for a disk where none
/// is wanted, and it fails the way a full disk does: the write is torn.
pub struct MemoryStorage {
    logs: HashMap<u64, Vec<u8>>,
    room: usize,
}

impl MemoryStorage {
    /// How many more bytes the storage takes.
    pub closed spec fn room(&self) -> nat {
        self.room as nat
    }

    /// The bytes of the stream's log, empty where the stream has none yet.
    pub closed spec fn log(&self, stream_id: u64) -> Seq<u8> {
        if self.logs@.contains_key(stream_id) {
            self.logs@[stream_id]@
        } else {
            Seq::empty()
        }
    }

    /// A storage with no logs and room for as many bytes as memory holds.
    pub fn new() -> (storage: MemoryStorage)
        ensures
            storage.room() == usize::MAX,
            forall|stream_id: u64| #[trigger] storage.log(stream_id) == Seq::<u8>::empty(),
    {
        MemoryStorage { logs: HashMap::new(), room: usize::MAX }
    }

    /// A storage with no logs and room for `room` bytes in all.
    pub fn with_room(room: usize) -> (storage: MemoryStorage)
        ensures
            storage.room() == room,
            forall|stream_id: u64| #[trigger] storage.log(stream_id) == Seq::<u8>::empty(),
    {
        MemoryStorage { logs: HashMap::new(), room }
    }

    /// A copy of the stream's log.
    pub fn contents(&self, stream_id: u64) -> (bytes: Vec<u8>)
        ensures
            bytes@ == self.log(stream_id),
    {
        match self.logs.get(&stream_id) {
            Some(log) => slice_to_vec(log.as_slice()),
            None => Vec::new(),
        }
    }
}

impl Storage for MemoryStorage {
    /// An append succeeds exactly where there is room for all of `bytes`.
    /// Then they stand at the end of the stream's log; else the log ends in
    /// as many of them as there was room for. No other log changes.
    open spec fn answered(
        &self,
        stream_id: u64,
        bytes: &[u8],
        after: &Self,
        answer: Result<(), StorageError>,
    ) -> bool {
        &&& forall|other: u64|
            other != stream_id ==> #[trigger] after.log(other) == self.log(other)
        &&& answer is Ok <==> bytes@.len() <= self.room()
        &&& answer is Ok ==> {
            &&& after.room() == self.room() - bytes@.len()
            &&& after.log(stream_id) == self.log(stream_id) + bytes@
        }
        &&& answer is Err ==> {
            &&& answer == Err::<(), StorageError>(StorageError::Write)
            &&& after.room() == 0
            &&& after.log(stream_id) == self.log(stream_id) + bytes@.take(self.room() as int)
        }
    }

    /// Appends as much of `bytes` as there is room for, and fails with
    /// [`StorageError::Write`] where that is not all of them: the write is
    /// torn where the room ends.
    fn append(&mut self, stream_id: u64, bytes: &[u8]) -> (r: Result<(), StorageError>)
        ensures
            forall|other: u64|
                other != stream_id ==> #[trigger] final(self).log(other) == old(self).log(other),
            r is Ok <==> bytes@.len() <= old(self).room(),
            r is Ok ==> {
                &&& final(self).room() == old(self).room() - bytes@.len()
                &&& final(self).log(stream_id) == old(self).log(stream_id) + bytes@
            },
            r is Err ==> {
                &&& r == Err::<(), StorageError>(StorageError::Write)
                &&& final(self).room() == 0
                &&& final(self).log(stream_id) == old(self).log(stream_id) + bytes@.take(
                    old(self).room() as int,
                )
            },
    {
        let fits: bool = bytes.len() <= self.room;
        let written: usize = if fits {
            bytes.len()
        } else {
            self.room
        };
        let ghost before = self.log(stream_id);
        let ghost old_logs = self.logs@;
        let mut log: Vec<u8> = match self.logs.remove(&stream_id) {
            Some(log) => log,
            None => Vec::new(),
        };
        assert(log@ == before);
        log.extend_from_slice(slice_subrange(bytes, 0, written));
        assert(log@ =~= before + bytes@.take(written as int));
        self.logs.insert(stream_id, log);
        self.room = self.room - written;
        assert(self.logs@.contains_key(stream_id));
        assert forall|other: u64| other != stream_id implies #[trigger] self.log(other)
            == old(self).log(other) by {
            assert(self.logs@.contains_key(other) == old_logs.contains_key(other));
        }
        if fits {
            assert(bytes@.take(written as int) =~= bytes@);
            Ok(())
        } else {
            Err(StorageError::Write)
        }
    }
}

} // verus!
