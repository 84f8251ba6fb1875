//! An ordered, append-only log of entries, held in memory.
//!
//! Entries are never changed or removed, and their order is the order in
//! which they were appended.

use crate::entry::{Entry, EntryView};
use vstd::prelude::*;
use vstd::slice::*;

verus! {

/// The log: entry `i` is the one that was appended at offset `i`.
#[derive(Debug)]
pub struct Log {
    entries: Vec<Entry>,
}

impl View for Log {
    type V = Seq<EntryView>;

    closed spec fn view(&self) -> Seq<EntryView> {
        self.entries@.map_values(|e: Entry| e@)
    }
}

impl Log {
    /// An empty log.
    pub fn new() -> (log: Log)
        ensures
            log@ == Seq::<EntryView>::empty(),
    {
        let log = Log { entries: Vec::new() };
        assert(log@ =~= Seq::<EntryView>::empty());
        log
    }

    /// Appends `entry` and returns the offset at which it now stands.
    pub fn append(&mut self, entry: Entry) -> (offset: usize)
        ensures
            offset == old(self)@.len(),
            final(self)@ == old(self)@.push(entry@),
    {
        let offset: usize = self.entries.len();
        self.entries.push(entry);
        assert(self@ =~= old(self)@.push(entry@));
        offset
    }

    /// Number of entries in the log.
    pub fn len(&self) -> (n: usize)
        ensures
            n == self@.len(),
    {
        self.entries.len()
    }

    /// Whether the log holds no entry.
    pub fn is_empty(&self) -> (b: bool)
        ensures
            b == (self@.len() == 0),
    {
        self.entries.len() == 0
    }

    /// The entry at `offset`, if the log reaches that far.
    pub fn get(&self, offset: usize) -> (entry: Option<&Entry>)
        ensures
            match entry {
                Some(e) => offset < self@.len() && e@ == self@[offset as int],
                None => offset >= self@.len(),
            },
    {
        if offset < self.entries.len() {
            Some(&self.entries[offset])
        } else {
            None
        }
    }

    /// The entries from `offset` on, in log order; none where the log does
    /// not reach that far.
    pub fn replay_from(&self, offset: usize) -> (entries: &[Entry])
        ensures
            entries@.map_values(|e: Entry| e@) == self@.skip(
                if offset <= self@.len() {
                    offset as int
                } else {
                    self@.len() as int
                },
            ),
    {
        let n: usize = self.entries.len();
        let start: usize = if offset <= n {
            offset
        } else {
            n
        };
        let entries = slice_subrange(self.entries.as_slice(), start, n);
        assert(entries@.map_values(|e: Entry| e@) =~= self@.skip(start as int));
        entries
    }
}

} // verus!
