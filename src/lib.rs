//! A persistent key-value store: an append-only, hash-indexed log with
//! in-place compaction. The library holds the store's logic (the record
//! format, log replay, the index and the writer's accounting); the program
//! around it performs the file and network I/O.
use vstd::prelude::*;

pub mod agent;
pub mod cli;
pub mod engines;
pub mod history;
pub mod keydir;
pub mod protocol;
pub mod record;
pub mod replay;
pub mod server;

verus! {

/// The failures the store reports.
#[derive(Clone, Copy, Debug, PartialEq, Eq, Structural)]
pub enum KvError {
    /// `remove` of a key that holds no value.
    KeyNotFound,
    /// A record in the log could not be fully read, or its text is not UTF-8.
    Corruption,
    /// The data directory belongs to another engine.
    EngineMismatch,
    /// The file system, the network or the operating system failed.
    Io,
    /// A key or a value is empty, or too long for a record.
    InvalidInput,
}

impl KvError {
    /// The message shown to users for this error.
    pub open spec fn text(self) -> Seq<char> {
        match self {
            KvError::KeyNotFound => "Key not found"@,
            KvError::Corruption => "Corrupted log record"@,
            KvError::EngineMismatch => "Illegal engine selection"@,
            KvError::Io => "I/O error"@,
            KvError::InvalidInput => "Keys and values must be non-empty and shorter than 4 GiB"@,
        }
    }

    /// The message shown to users for this error.
    pub fn message(&self) -> (r: &'static str)
        ensures
            r@ == self.text(),
    {
        match self {
            KvError::KeyNotFound => "Key not found",
            KvError::Corruption => "Corrupted log record",
            KvError::EngineMismatch => "Illegal engine selection",
            KvError::Io => "I/O error",
            KvError::InvalidInput => "Keys and values must be non-empty and shorter than 4 GiB",
        }
    }
}

} // verus!
