//! What a log means: the state obtained by reading its records from the
//! start. The store's in-memory state is kept equal to this at all times.
use crate::keydir::CommandPos;
use crate::record::{
    entry_bytes, entry_size, fits_field, lemma_entry_len, lemma_read_entry, lemma_record_extend,
    lemma_record_is_entry, record_at, ReadOutcome,
};
use vstd::prelude::*;

verus! {

/// The state a log describes.
pub struct LogState {
    /// For each key that holds a value, its current record.
    pub index: Map<Seq<char>, CommandPos>,
    /// For each key that holds a value, that value.
    pub values: Map<Seq<char>, Seq<char>>,
    /// Total size of the records superseded or deleted so far.
    pub stale: nat,
    /// For each deleted key, its latest tombstone, until a later record of
    /// the key supersedes it.
    pub graves: Map<Seq<char>, CommandPos>,
}

impl LogState {
    pub open spec fn empty() -> LogState {
        LogState { index: Map::empty(), values: Map::empty(), stale: 0, graves: Map::empty() }
    }

    /// Size of the record that writing `key` again makes stale.
    pub open spec fn freed(self, key: Seq<char>) -> nat {
        if self.index.contains_key(key) {
            self.index[key].len as nat
        } else {
            0
        }
    }

    /// Size of the tombstone of `key` that writing `key` again supersedes.
    pub open spec fn buried(self, key: Seq<char>) -> nat {
        if self.graves.contains_key(key) {
            self.graves[key].len as nat
        } else {
            0
        }
    }

    /// The state after the record (`key`, `value`) found at `pos`, `len`
    /// bytes long; an empty value deletes the key.
    pub open spec fn apply(self, key: Seq<char>, value: Seq<char>, pos: int, len: int) -> LogState {
        if value.len() == 0 {
            LogState {
                index: self.index.remove(key),
                values: self.values.remove(key),
                stale: self.stale + self.freed(key) + self.buried(key),
                graves: self.graves.insert(key, CommandPos { pos: pos as u64, len: len as u64 }),
            }
        } else {
            LogState {
                index: self.index.insert(key, CommandPos { pos: pos as u64, len: len as u64 }),
                values: self.values.insert(key, value),
                stale: self.stale + self.freed(key) + self.buried(key),
                graves: self.graves.remove(key),
            }
        }
    }
}

/// Reads the records of `log` from `pos` on, starting in state `s`;
/// `None` when a record is corrupt.
pub open spec fn replay_from(log: Seq<u8>, pos: int, s: LogState) -> Option<LogState>
    decreases log.len() - pos,
{
    if pos < 0 || pos > log.len() {
        None
    } else {
        match record_at(log, pos) {
            ReadOutcome::End => Some(s),
            ReadOutcome::Corrupt => None,
            ReadOutcome::Record { key, value, next } => {
                if pos < next <= log.len() {
                    replay_from(log, next, s.apply(key, value, pos, next - pos))
                } else {
                    None
                }
            },
        }
    }
}

/// The state a whole log describes, or `None` when it holds a corrupt record.
pub open spec fn replay(log: Seq<u8>) -> Option<LogState> {
    replay_from(log, 0, LogState::empty())
}

/// Each indexed key points at a record of the log that holds the key and
/// its value, and the key and the value are non-empty texts that fit the
/// format. A key with a tombstone holds no value.
pub open spec fn entries_hold(log: Seq<u8>, s: LogState) -> bool {
    &&& s.values.dom() == s.index.dom()
    &&& forall|k: Seq<char>| #[trigger] s.graves.contains_key(k) ==> !s.index.contains_key(k)
    &&& forall|k: Seq<char>| #[trigger]
        s.index.contains_key(k) ==> {
            let loc = s.index[k];
            let v = s.values[k];
            &&& k.len() > 0
            &&& v.len() > 0
            &&& fits_field(k)
            &&& fits_field(v)
            &&& loc.len == entry_size(k, v)
            &&& loc.pos + loc.len <= log.len()
            &&& log.subrange(loc.pos as int, loc.pos + loc.len) == entry_bytes(k, v)
        }
}

proof fn lemma_replay_from_entries(log: Seq<u8>, pos: int, s: LogState)
    requires
        0 <= pos <= log.len(),
        log.len() <= u64::MAX,
        entries_hold(log, s),
        replay_from(log, pos, s) is Some,
    ensures
        entries_hold(log, replay_from(log, pos, s)->Some_0),
    decreases log.len() - pos,
{
    lemma_record_is_entry(log, pos);
    if let ReadOutcome::Record { key, value, next } = record_at(log, pos) {
        let t = s.apply(key, value, pos, next - pos);
        assert(entries_hold(log, t)) by {
            assert(t.values.dom() =~= t.index.dom());
        }
        lemma_replay_from_entries(log, next, t);
    }
}

/// The records a log's index points at hold the indexed keys and values.
pub proof fn lemma_replay_entries(log: Seq<u8>)
    requires
        log.len() <= u64::MAX,
        replay(log) is Some,
    ensures
        entries_hold(log, replay(log)->Some_0),
{
    assert(LogState::empty().values.dom() =~= LogState::empty().index.dom());
    lemma_replay_from_entries(log, 0, LogState::empty());
}

proof fn lemma_replay_from_append(log: Seq<u8>, extra: Seq<u8>, pos: int, s: LogState)
    requires
        0 <= pos <= log.len(),
        replay_from(log, pos, s) is Some,
    ensures
        replay_from(log + extra, pos, s) == replay_from(
            log + extra,
            log.len() as int,
            replay_from(log, pos, s)->Some_0,
        ),
    decreases log.len() - pos,
{
    if let ReadOutcome::Record { key, value, next } = record_at(log, pos) {
        lemma_record_extend(log, extra, pos);
        lemma_replay_from_append(log, extra, next, s.apply(key, value, pos, next - pos));
    }
}

/// Appending a record to a readable log applies that record to its state.
pub proof fn lemma_replay_push(log: Seq<u8>, key: Seq<char>, value: Seq<char>)
    requires
        replay(log) is Some,
        key.len() > 0,
        fits_field(key),
        fits_field(value),
    ensures
        replay(log + entry_bytes(key, value)) == Some(
            replay(log)->Some_0.apply(key, value, log.len() as int, entry_size(key, value) as int),
        ),
{
    let e = entry_bytes(key, value);
    let all = log + e;
    let size = entry_size(key, value);
    lemma_replay_from_append(log, e, 0, LogState::empty());
    lemma_entry_len(key, value);
    assert(all.subrange(log.len() as int, log.len() + size as int) =~= e);
    lemma_read_entry(all, log.len() as int, key, value);
    let s0 = replay(log)->Some_0;
    let s1 = s0.apply(key, value, log.len() as int, size as int);
    assert(all.len() == log.len() + size);
    assert(record_at(all, log.len() + size as int) == ReadOutcome::End);
    assert(replay_from(all, log.len() + size as int, s1) == Some(s1));
    assert(replay_from(all, log.len() as int, s0) == Some(s1));
}

} // verus!
