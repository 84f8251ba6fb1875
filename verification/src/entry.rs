//! An entry: an author stated a body at a point in time.
//!
//! An entry is a self-contained, immutable element of truth.

use vstd::prelude::*;

verus! {

/// `author` stated `body` at `timestamp`.
#[derive(Debug, Clone)]
pub struct Entry {
    author: String,
    body: String,
    timestamp: u64,
}

/// An entry as a mathematical value.
pub struct EntryView {
    pub author: Seq<char>,
    pub body: Seq<char>,
    /// Seconds since the Unix epoch.
    pub timestamp: u64,
}

impl View for Entry {
    type V = EntryView;

    closed spec fn view(&self) -> EntryView {
        EntryView { author: self.author@, body: self.body@, timestamp: self.timestamp }
    }
}

impl Entry {
    /// The entry in which `author` states `body` at `timestamp`, in seconds
    /// since the Unix epoch.
    pub fn new(author: String, body: String, timestamp: u64) -> (entry: Entry)
        ensures
            entry@ == (EntryView { author: author@, body: body@, timestamp }),
    {
        Entry { author, body, timestamp }
    }

    /// Who stated it.
    pub fn author(&self) -> (author: &str)
        ensures
            author@ == self@.author,
    {
        self.author.as_str()
    }

    /// What was stated.
    pub fn body(&self) -> (body: &str)
        ensures
            body@ == self@.body,
    {
        self.body.as_str()
    }

    /// When it was stated, in seconds since the Unix epoch.
    pub fn timestamp(&self) -> (timestamp: u64)
        ensures
            timestamp == self@.timestamp,
    {
        self.timestamp
    }
}

} // verus!
