//! The writer agent: the index and the accounting of one store's log.
//!
//! The agent does no I/O. Its caller appends the bytes that `set_record` or
//! `remove_record` produces (or copies the records that `compaction_plan`
//! lists) and then tells the agent, which updates the index and the
//! stale-byte count. The
//! agent keeps, as a ghost, the bytes the log holds; its invariant is that
//! replaying those bytes from the start gives exactly its state.
use crate::keydir::{lemma_total_len_prefix_le, lemma_total_len_update, total_len, CommandPos, KeyDir};
use crate::record::{
    decode_record, encode_record, entry_bytes, entry_size, fits_field, fits_record_field,
    lemma_encode_empty, lemma_entry_len, lemma_read_entry, record_at, ReadOutcome,
};
use crate::replay::{
    entries_hold, lemma_replay_entries, lemma_replay_push, replay, replay_from, LogState,
};
use crate::history::{run, step, Op};
use crate::KvError;
use vstd::prelude::*;

verus! {

/// Once this many bytes of the log are stale, the log is compacted.
pub const COMPACTION_THRESHOLD: u64 = 1024 * 1024;

/// The bytes of the records at `locs`, read from `log` and laid end to end.
pub open spec fn copy_records(log: Seq<u8>, locs: Seq<CommandPos>) -> Seq<u8>
    decreases locs.len(),
{
    if locs.len() == 0 {
        Seq::empty()
    } else {
        copy_records(log, locs.drop_last()) + log.subrange(
            locs.last().pos as int,
            locs.last().pos + locs.last().len,
        )
    }
}

/// Sum of the sizes of the entries of `keys`, each with its value in `values`.
pub open spec fn entries_size(keys: Seq<Seq<char>>, values: Map<Seq<char>, Seq<char>>) -> nat
    decreases keys.len(),
{
    if keys.len() == 0 {
        0
    } else {
        entries_size(keys.drop_last(), values) + entry_size(keys.last(), values[keys.last()])
    }
}

proof fn lemma_total_is_entries_size(
    locs: Seq<CommandPos>,
    keys: Seq<Seq<char>>,
    values: Map<Seq<char>, Seq<char>>,
)
    requires
        locs.len() == keys.len(),
        forall|i: int| 0 <= i < locs.len() ==> (#[trigger] locs[i]).len == entry_size(keys[i], values[keys[i]]),
    ensures
        total_len(locs) == entries_size(keys, values),
    decreases locs.len(),
{
    if locs.len() > 0 {
        let (l, k) = (locs.drop_last(), keys.drop_last());
        assert forall|i: int| 0 <= i < l.len() implies (#[trigger] l[i]).len == entry_size(k[i], values[k[i]]) by {
            assert(l[i] == locs[i]);
        }
        lemma_total_is_entries_size(l, k, values);
        assert(locs[locs.len() - 1].len == entry_size(keys.last(), values[keys.last()]));
    }
}

/// The index of a log and the bytes of it that are stale.
pub struct WriteAgent {
    index: KeyDir,
    stale_bytes: u64,
    log_len: u64,
    log: Ghost<Seq<u8>>,
    values: Ghost<Map<Seq<char>, Seq<char>>>,
    graves: KeyDir,
}

impl WriteAgent {
    /// The bytes of the log.
    pub closed spec fn log(&self) -> Seq<u8> {
        self.log@
    }

    /// The index, the values and the stale-byte count.
    pub closed spec fn state(&self) -> LogState {
        LogState {
            index: self.index@,
            values: self.values@,
            stale: self.stale_bytes as nat,
            graves: self.graves@,
        }
    }

    /// What each key holds.
    pub open spec fn contents(&self) -> Map<Seq<char>, Seq<char>> {
        self.state().values
    }

    /// Bytes of the log held by superseded or deleted records.
    pub open spec fn stale(&self) -> nat {
        self.state().stale
    }

    /// Total size of the records the index points to.
    pub closed spec fn live_size(&self) -> nat {
        self.index.live_size()
    }

    /// Where the live records are, in the order compaction copies them.
    pub closed spec fn live_records(&self) -> Seq<CommandPos> {
        self.index.loc_seq()
    }

    /// Total size of the tombstones that no later record supersedes.
    pub closed spec fn buried_size(&self) -> nat {
        self.graves.live_size()
    }

    /// The keys of the live records, in the same order.
    pub closed spec fn live_keys(&self) -> Seq<Seq<char>> {
        self.index.key_seq()
    }

    /// The bytes of the current record of `key`.
    pub open spec fn record_of(&self, key: Seq<char>) -> Seq<u8> {
        let loc = self.state().index[key];
        self.log().subrange(loc.pos as int, loc.pos + loc.len)
    }

    /// Whether `set(key, value)` can be recorded: the key and the value are
    /// non-empty texts that fit the format, and the log's size stays a `u64`.
    pub open spec fn can_set(&self, key: Seq<char>, value: Seq<char>) -> bool {
        &&& key.len() > 0
        &&& value.len() > 0
        &&& fits_field(key)
        &&& fits_field(value)
        &&& self.log().len() + entry_size(key, value) <= u64::MAX
    }

    pub closed spec fn wf(&self) -> bool {
        &&& self.index.wf()
        &&& self.log_len == self.log@.len()
        &&& replay(self.log@) == Some(self.state())
        &&& self.graves.wf()
        &&& self.stale_bytes + self.index.live_size() + self.graves.live_size() == self.log@.len()
    }

    proof fn lemma_entries(&self)
        requires
            self.wf(),
        ensures
            entries_hold(self.log(), self.state()),
    {
        lemma_replay_entries(self.log@);
    }

    /// Builds the agent of the log `log` by replaying it from the start.
    pub fn open(log: &[u8]) -> (r: Result<WriteAgent, KvError>)
        ensures
            match replay(log@) {
                Some(s) => r matches Ok(a) && a.wf() && a.log() == log@ && a.state() == s,
                None => r == Err::<WriteAgent, KvError>(KvError::Corruption),
            },
    {
        let mut index = KeyDir::new();
        let mut stale: u64 = 0;
        let mut pos: usize = 0;
        let ghost mut values: Map<Seq<char>, Seq<char>> = Map::empty();
        let mut graves = KeyDir::new();
        proof {
            assert(LogState { index: index@, values, stale: 0, graves: graves@ } == LogState::empty());
        }
        loop
            invariant
                pos <= log@.len(),
                index.wf(),
                replay(log@) == replay_from(
                    log@,
                    pos as int,
                    LogState { index: index@, values, stale: stale as nat, graves: graves@ },
                ),
                graves.wf(),
                stale + index.live_size() + graves.live_size() == pos,
            decreases log@.len() - pos,
        {
            let ghost cur = LogState { index: index@, values, stale: stale as nat, graves: graves@ };
            proof {
                crate::record::lemma_record_is_entry(log@, pos as int);
            }
            match decode_record(log, pos) {
                Ok(None) => {
                    let agent = WriteAgent {
                        index,
                        stale_bytes: stale,
                        log_len: pos as u64,
                        log: Ghost(log@),
                        values: Ghost(values),
                        graves,
                    };
                    return Ok(agent);
                },
                Err(e) => {
                    return Err(e);
                },
                Ok(Some((rec, next))) => {
                    let len = (next - pos) as u64;
                    let ghost key = rec.key@;
                    let ghost value = rec.value@;
                    proof {
                        lemma_encode_empty(value);
                    }
                    if rec.value.as_str().len() == 0 {
                        let prev = index.remove(&rec.key);
                        let buried = graves.insert(rec.key, CommandPos::new(pos as u64, len));
                        if let Some(p) = prev {
                            stale = stale + p.len;
                        }
                        if let Some(g) = buried {
                            stale = stale + g.len;
                        }
                        proof {
                            values = values.remove(key);
                        }
                    } else {
                        let buried = graves.remove(&rec.key);
                        let prev = index.insert(rec.key, CommandPos::new(pos as u64, len));
                        if let Some(p) = prev {
                            stale = stale + p.len;
                        }
                        if let Some(g) = buried {
                            stale = stale + g.len;
                        }
                        proof {
                            values = values.insert(key, value);
                        }
                    }
                    proof {
                        let nxt = LogState {
                            index: index@,
                            values,
                            stale: stale as nat,
                            graves: graves@,
                        };
                        assert(nxt == cur.apply(key, value, pos as int, next - pos));
                    }
                    pos = next;
                },
            }
        }
    }

    /// Where the record of `key` is, if the key holds a value.
    pub fn get(&self, key: &String) -> (r: Option<CommandPos>)
        requires
            self.wf(),
        ensures
            match r {
                Some(loc) => self.contents().contains_key(key@) && self.state().index[key@] == loc,
                None => !self.contents().contains_key(key@),
            },
    {
        proof {
            self.lemma_entries();
        }
        self.index.get(key)
    }

    /// The bytes to append for `set(key, value)`; `InvalidInput` when the
    /// key or the value is empty or too long.
    pub fn set_record(&self, key: &str, value: &str) -> (r: Result<Vec<u8>, KvError>)
        requires
            self.wf(),
        ensures
            match r {
                Ok(bytes) => self.can_set(key@, value@) && bytes@ == entry_bytes(key@, value@),
                Err(e) => e == KvError::InvalidInput && !self.can_set(key@, value@),
            },
    {
        proof {
            lemma_encode_empty(key@);
            lemma_encode_empty(value@);
        }
        if key.as_bytes().len() == 0 || value.as_bytes().len() == 0 || !fits_record_field(key)
            || !fits_record_field(value) {
            return Err(KvError::InvalidInput);
        }
        let size = (key.as_bytes().len() as u64) + (value.as_bytes().len() as u64) + 8;
        match self.log_len.checked_add(size) {
            Some(_) => Ok(encode_record(key, value)),
            None => Err(KvError::InvalidInput),
        }
    }

    /// The bytes to append for `remove(key)`: its tombstone. Fails with
    /// `KeyNotFound` when the key holds no value, and with `InvalidInput`
    /// when the log's size would overflow a `u64`.
    pub fn remove_record(&self, key: &String) -> (r: Result<Vec<u8>, KvError>)
        requires
            self.wf(),
        ensures
            match r {
                Ok(bytes) => {
                    &&& self.contents().contains_key(key@)
                    &&& bytes@ == entry_bytes(key@, Seq::empty())
                    &&& self.log().len() + entry_size(key@, Seq::empty()) <= u64::MAX
                },
                Err(e) => (e == KvError::KeyNotFound && !self.contents().contains_key(key@)) || (e
                    == KvError::InvalidInput && self.contents().contains_key(key@) && self.log().len()
                    + entry_size(key@, Seq::empty()) > u64::MAX),
            },
    {
        proof {
            self.lemma_entries();
            reveal_strlit("");
            assert(""@ =~= Seq::<char>::empty());
            lemma_encode_empty(Seq::<char>::empty());
        }
        if self.index.get(key).is_none() {
            return Err(KvError::KeyNotFound);
        }
        let size = (key.as_str().as_bytes().len() as u64) + 8;
        match self.log_len.checked_add(size) {
            Some(_) => Ok(encode_record(key.as_str(), "")),
            None => Err(KvError::InvalidInput),
        }
    }

    /// Records that the entry storing `value` under `key` was appended to the
    /// log and flushed. Returns whether the log is now due for compaction.
    pub fn set(&mut self, key: String, value: &str) -> (compact: bool)
        requires
            old(self).wf(),
            key@.len() > 0,
            value@.len() > 0,
            fits_field(key@),
            fits_field(value@),
            old(self).log().len() + entry_size(key@, value@) <= u64::MAX,
        ensures
            final(self).wf(),
            final(self).log() == old(self).log() + entry_bytes(key@, value@),
            final(self).state() == old(self).state().apply(
                key@,
                value@,
                old(self).log().len() as int,
                entry_size(key@, value@) as int,
            ),
            final(self).contents() == old(self).contents().insert(key@, value@),
            final(self).contents() == step(old(self).contents(), Op::Put { key: key@, value: value@ }),
            final(self).stale() == old(self).stale() + old(self).state().freed(key@) + old(
                self,
            ).state().buried(key@),
            compact == (final(self).stale() >= COMPACTION_THRESHOLD),
    {
        let ghost k = key@;
        let ghost v = value@;
        let len = (key.as_str().len() as u64) + (value.len() as u64) + 8;
        let pos = self.log_len;
        proof {
            lemma_replay_push(self.log@, k, v);
            lemma_entry_len(k, v);
        }
        let buried = self.graves.remove(&key);
        let prev = self.index.insert(key, CommandPos::new(pos, len));
        if let Some(p) = prev {
            self.stale_bytes = self.stale_bytes + p.len;
        }
        if let Some(g) = buried {
            self.stale_bytes = self.stale_bytes + g.len;
        }
        self.log_len = pos + len;
        proof {
            self.log@ = self.log@ + entry_bytes(k, v);
            self.values@ = self.values@.insert(k, v);
        }
        self.stale_bytes >= COMPACTION_THRESHOLD
    }

    /// Records that the tombstone of `key` was appended to the log and
    /// flushed; fails with `KeyNotFound`, changing nothing, when the key
    /// holds no value. Returns whether the log is now due for compaction.
    pub fn remove(&mut self, key: &String) -> (r: Result<bool, KvError>)
        requires
            old(self).wf(),
            old(self).contents().contains_key(key@) ==> old(self).log().len() + entry_size(
                key@,
                Seq::empty(),
            ) <= u64::MAX,
        ensures
            final(self).wf(),
            final(self).contents() == step(old(self).contents(), Op::Remove { key: key@ }),
            match r {
                Err(e) => e == KvError::KeyNotFound && !old(self).contents().contains_key(key@)
                    && *final(self) == *old(self),
                Ok(compact) => {
                    &&& old(self).contents().contains_key(key@)
                    &&& final(self).log() == old(self).log() + entry_bytes(key@, Seq::empty())
                    &&& final(self).state() == old(self).state().apply(
                        key@,
                        Seq::empty(),
                        old(self).log().len() as int,
                        entry_size(key@, Seq::empty()) as int,
                    )
                    &&& final(self).contents() == old(self).contents().remove(key@)
                    &&& final(self).stale() == old(self).stale() + old(self).state().freed(key@)
                    &&& compact == (final(self).stale() >= COMPACTION_THRESHOLD)
                },
            },
    {
        proof {
            self.lemma_entries();
        }
        let ghost k = key@;
        let ghost empty = Seq::<char>::empty();
        let pos = self.log_len;
        match self.index.remove(key) {
            None => {
                proof {
                    assert(self.values@.remove(k) =~= self.values@);
                }
                Err(KvError::KeyNotFound)
            },
            Some(p) => {
                let tomb_len = (key.as_str().len() as u64) + 8;
                let buried = self.graves.insert(key.clone(), CommandPos::new(pos, tomb_len));
                proof {
                    lemma_encode_empty(empty);
                    lemma_replay_push(self.log@, k, empty);
                    lemma_entry_len(k, empty);
                }
                self.stale_bytes = self.stale_bytes + p.len;
                if let Some(g) = buried {
                    self.stale_bytes = self.stale_bytes + g.len;
                }
                self.log_len = pos + tomb_len;
                proof {
                    self.log@ = self.log@ + entry_bytes(k, empty);
                    self.values@ = self.values@.remove(k);
                }
                Ok(self.stale_bytes >= COMPACTION_THRESHOLD)
            },
        }
    }

    /// The value of `key`, decoded from `record`: the bytes of its record
    /// as read back from the log.
    pub fn value_from_record(&self, key: &String, record: &[u8]) -> (r: Result<String, KvError>)
        requires
            self.wf(),
        ensures
            match record_at(record@, 0) {
                ReadOutcome::Record { key: k, value: v, next } => if k == key@ && v.len() > 0
                    && next == record@.len() {
                    r matches Ok(s) && s@ == v
                } else {
                    r == Err::<String, KvError>(KvError::Corruption)
                },
                _ => r == Err::<String, KvError>(KvError::Corruption),
            },
            self.contents().contains_key(key@) && record@ == self.record_of(key@) ==> (r matches Ok(
                s,
            ) && s@ == self.contents()[key@]),
    {
        proof {
            self.lemma_entries();
            crate::record::lemma_record_is_entry(record@, 0);
            if self.contents().contains_key(key@) && record@ == self.record_of(key@) {
                let v = self.contents()[key@];
                lemma_entry_len(key@, v);
                assert(record@.subrange(0, record@.len() as int) =~= record@);
                lemma_read_entry(record@, 0, key@, v);
            }
        }
        match decode_record(record, 0) {
            Ok(Some((rec, next))) => {
                proof {
                    lemma_encode_empty(rec.value@);
                }
                if rec.key == *key && rec.value.as_str().len() > 0 && next == record.len() {
                    Ok(rec.value)
                } else {
                    Err(KvError::Corruption)
                }
            },
            _ => Err(KvError::Corruption),
        }
    }

    /// Where the live records are, in the order a compaction copies them.
    pub fn compaction_plan(&self) -> (plan: Vec<CommandPos>)
        requires
            self.wf(),
        ensures
            plan@ == self.live_records(),
    {
        let n = self.index.len();
        let mut plan: Vec<CommandPos> = Vec::new();
        let mut i: usize = 0;
        while i < n
            invariant
                self.wf(),
                n == self.index.key_seq().len(),
                i <= n,
                plan@ == self.index.loc_seq().subrange(0, i as int),
            decreases n - i,
        {
            plan.push(self.index.loc_at(i));
            i = i + 1;
            proof {
                assert(plan@ =~= self.index.loc_seq().subrange(0, i as int));
            }
        }
        proof {
            assert(plan@ =~= self.index.loc_seq());
        }
        plan
    }

    /// Records that the live records, copied in `compaction_plan` order
    /// into a fresh file, replaced the log.
    pub fn compacted(&mut self)
        requires
            old(self).wf(),
        ensures
            final(self).wf(),
            final(self).log() == copy_records(old(self).log(), old(self).live_records()),
            final(self).contents() == old(self).contents(),
            final(self).state().index.dom() == old(self).state().index.dom(),
            final(self).stale() == 0,
            final(self).log().len() == old(self).live_size(),
            final(self).log().len() == entries_size(final(self).live_keys(), final(self).contents()),
            final(self).live_size() == old(self).live_size(),
            final(self).live_keys() == old(self).live_keys(),
    {
        proof {
            self.lemma_entries();
        }
        let ghost old_log = self.log@;
        let ghost old_index = self.index@;
        let ghost old_locs = self.index.loc_seq();
        let ghost keys = self.index.key_seq();
        let ghost vals = self.values@;
        let ghost old_state = self.state();
        let n = self.index.len();
        let mut offset: u64 = 0;
        let mut i: usize = 0;
        let ghost mut new_log: Seq<u8> = Seq::empty();
        let ghost mut pmap: Map<Seq<char>, CommandPos> = Map::empty();
        let ghost mut pvals: Map<Seq<char>, Seq<char>> = Map::empty();
        proof {
            assert(old_locs.subrange(0, 0) =~= Seq::<CommandPos>::empty());
            assert(LogState { index: pmap, values: pvals, stale: 0, graves: Map::empty() } == LogState::empty());
        }
        while i < n
            invariant
                self.index.wf(),
                n == keys.len(),
                i <= n,
                self.index.key_seq() == keys,
                self.index.loc_seq().len() == n,
                old_locs.len() == n,
                forall|j: int| i <= j < n ==> #[trigger] self.index.loc_seq()[j] == old_locs[j],
                forall|j: int|
                    0 <= j < i ==> (#[trigger] self.index.loc_seq()[j]).len == old_locs[j].len,
                self.index.live_size() == total_len(old_locs),
                total_len(old_locs) <= old_log.len(),
                old_log.len() <= u64::MAX,
                offset == new_log.len(),
                new_log == copy_records(old_log, old_locs.subrange(0, i as int)),
                offset == total_len(old_locs.subrange(0, i as int)),
                replay(new_log) == Some(LogState { index: pmap, values: pvals, stale: 0, graves: Map::empty() }),
                forall|j: int| 0 <= j < i ==> pmap.contains_key(#[trigger] keys[j]) && pmap[keys[j]]
                    == self.index.loc_seq()[j] && pvals.contains_key(keys[j]) && pvals[keys[j]]
                    == vals[keys[j]],
                forall|k: Seq<char>| #[trigger]
                    pmap.contains_key(k) ==> keys.subrange(0, i as int).contains(k),
                pvals.dom() == pmap.dom(),
                entries_hold(old_log, old_state),
                old_state.index == old_index,
                old_state.values == vals,
                forall|j: int| 0 <= j < n ==> old_index.contains_key(#[trigger] keys[j]) && old_index[keys[j]] == old_locs[j],
                keys.no_duplicates(),
                self.values@ == vals,
            decreases n - i,
        {
            let loc = self.index.loc_at(i);
            let ghost k = keys[i as int];
            let ghost v = vals[k];
            proof {
                assert(old_index.contains_key(k));
                assert(!pmap.contains_key(k)) by {
                    if pmap.contains_key(k) {
                        let j = keys.subrange(0, i as int).index_of(k);
                        assert(keys[j] == k);
                    }
                }
                lemma_replay_push(new_log, k, v);
                assert(Map::<Seq<char>, CommandPos>::empty().remove(k) =~= Map::empty());
                lemma_entry_len(k, v);
                lemma_total_len_prefix_le(old_locs, i as int + 1);
                assert(old_locs.subrange(0, i as int + 1).drop_last() =~= old_locs.subrange(0, i as int));
                lemma_total_len_update(self.index.loc_seq(), i as int, CommandPos { pos: offset, len: loc.len });
            }
            self.index.set_pos(i, offset);
            proof {
                new_log = new_log + old_log.subrange(loc.pos as int, loc.pos + loc.len);
                pmap = pmap.insert(k, CommandPos { pos: offset, len: loc.len });
                pvals = pvals.insert(k, v);
                assert(keys.subrange(0, i as int + 1) =~= keys.subrange(0, i as int).push(k));
                assert forall|k2: Seq<char>| #[trigger] pmap.contains_key(k2) implies keys.subrange(
                    0,
                    i as int + 1,
                ).contains(k2) by {
                    if k2 == k {
                        assert(keys.subrange(0, i as int + 1)[i as int] == k);
                    } else {
                        let j = keys.subrange(0, i as int).index_of(k2);
                        assert(keys.subrange(0, i as int + 1)[j] == k2);
                    }
                }
            }
            offset = offset + loc.len;
            i = i + 1;
        }
        proof {
            assert(old_locs.subrange(0, n as int) =~= old_locs);
            assert(keys.subrange(0, n as int) =~= keys);
            assert(pmap =~= self.index@) by {
                assert forall|k: Seq<char>| #[trigger] self.index@.contains_key(k) implies pmap.contains_key(k) by {
                    let j = keys.index_of(k);
                    assert(keys[j] == k);
                }
                assert forall|k: Seq<char>| #[trigger] pmap.contains_key(k) implies self.index@.contains_key(k) && pmap[k] == self.index@[k] by {
                    let j = keys.index_of(k);
                    assert(keys[j] == k);
                }
            }
            assert(pvals =~= vals) by {
                assert forall|k: Seq<char>| #[trigger] vals.contains_key(k) implies pvals.contains_key(k) by {
                    assert(old_index.contains_key(k));
                    let j = keys.index_of(k);
                    assert(keys[j] == k);
                }
                assert forall|k: Seq<char>| #[trigger] pvals.contains_key(k) implies vals.contains_key(k) && pvals[k] == vals[k] by {
                    let j = keys.index_of(k);
                    assert(keys[j] == k);
                }
            }
            self.log@ = new_log;
        }
        self.log_len = offset;
        self.stale_bytes = 0;
        self.graves = KeyDir::new();
        proof {
            assert(self.graves.loc_seq().len() == 0);
            assert(self.graves@ =~= Map::<Seq<char>, CommandPos>::empty());
        }
        proof {
            lemma_live_keys(self);
        }
    }

    /// Size of the log, in bytes.
    pub fn log_len(&self) -> (r: u64)
        requires
            self.wf(),
        ensures
            r == self.log().len(),
    {
        self.log_len
    }

    /// Bytes of the log held by superseded or deleted records.
    pub fn stale_bytes(&self) -> (r: u64)
        ensures
            r == self.stale(),
    {
        self.stale_bytes
    }

    /// Number of keys that hold a value.
    pub fn len(&self) -> (r: usize)
        requires
            self.wf(),
        ensures
            r == self.contents().len(),
    {
        proof {
            self.lemma_entries();
            lemma_live_keys(self);
            self.index.key_seq().unique_seq_to_set();
        }
        self.index.len()
    }
}

/// The live keys are the keys that hold a value, each once, and the live
/// records take exactly the size of their entries.
pub proof fn lemma_live_keys(agent: &WriteAgent)
    requires
        agent.wf(),
    ensures
        agent.live_keys().no_duplicates(),
        agent.live_keys().to_set() == agent.contents().dom(),
        agent.live_records().len() == agent.live_keys().len(),
        agent.live_size() == entries_size(agent.live_keys(), agent.contents()),
{
    agent.lemma_entries();
    let keys = agent.index.key_seq();
    let locs = agent.index.loc_seq();
    assert(keys.to_set() =~= agent.contents().dom()) by {
        assert forall|k: Seq<char>| #[trigger] keys.to_set().contains(k) implies agent.contents().dom().contains(k) by {
            let j = keys.index_of(k);
            assert(keys[j] == k);
        }
    }
    assert forall|i: int| 0 <= i < locs.len() implies (#[trigger] locs[i]).len == entry_size(
        keys[i],
        agent.contents()[keys[i]],
    ) by {
        assert(keys[i] == keys[i]);
    }
    lemma_total_is_entries_size(locs, keys, agent.contents());
}

/// Each key that holds a value points at a record that reads back as that
/// key and that value.
pub proof fn lemma_read_back(agent: &WriteAgent, key: Seq<char>)
    requires
        agent.wf(),
        agent.contents().contains_key(key),
    ensures
        record_at(agent.record_of(key), 0) == (ReadOutcome::Record {
            key,
            value: agent.contents()[key],
            next: agent.record_of(key).len() as int,
        }),
{
    agent.lemma_entries();
    let v = agent.contents()[key];
    let rec = agent.record_of(key);
    lemma_entry_len(key, v);
    assert(rec.subrange(0, rec.len() as int) =~= rec);
    lemma_read_entry(rec, 0, key, v);
}

/// Reopening: replaying the log from its start rebuilds exactly the agent's
/// index, values and stale-byte count.
pub proof fn lemma_reopen(agent: &WriteAgent)
    requires
        agent.wf(),
    ensures
        replay(agent.log()) == Some(agent.state()),
{
}

/// Closing and reopening: an agent opened on the log of another one has
/// the same index, values and stale-byte count, so every `get` answers
/// alike.
pub proof fn lemma_reopen_same_state(agent: &WriteAgent, reopened: &WriteAgent)
    requires
        agent.wf(),
        replay(agent.log()) matches Some(s) && reopened.state() == s,
    ensures
        reopened.state() == agent.state(),
        reopened.contents() == agent.contents(),
        reopened.stale() == agent.stale(),
{
}

/// The log holds exactly the live records, the stale ones and the
/// tombstones not yet superseded; so while no compaction is due, it exceeds
/// the live records and those tombstones by less than the compaction
/// threshold.
pub proof fn lemma_log_size(agent: &WriteAgent)
    requires
        agent.wf(),
    ensures
        agent.log().len() == agent.stale() + agent.live_size() + agent.buried_size(),
        agent.stale() < COMPACTION_THRESHOLD ==> agent.log().len() < COMPACTION_THRESHOLD
            + agent.live_size() + agent.buried_size(),
{
}

/// A run of `set` and `remove` calls from a fresh store: each agent's
/// contents follow from the previous one's by one operation, so the last
/// agent holds `run(ops)`, and each key the value of its last `set` that no
/// `remove` follows.
pub proof fn lemma_agents_follow_ops(agents: Seq<WriteAgent>, ops: Seq<Op>)
    requires
        agents.len() == ops.len() + 1,
        agents[0].contents() == Map::<Seq<char>, Seq<char>>::empty(),
        forall|i: int|
            0 <= i < ops.len() ==> #[trigger] agents[i + 1].contents() == step(
                agents[i].contents(),
                ops[i],
            ),
    ensures
        agents.last().contents() == run(ops),
        forall|key: Seq<char>| #[trigger]
            crate::history::last_write(ops, key) matches Some(v) ==> agents.last().contents().contains_key(key)
                && agents.last().contents()[key] == v,
        forall|key: Seq<char>| #[trigger]
            crate::history::last_write(ops, key) is None ==> !agents.last().contents().contains_key(key),
    decreases ops.len(),
{
    if ops.len() > 0 {
        let (a, o) = (agents.drop_last(), ops.drop_last());
        assert forall|i: int| 0 <= i < o.len() implies #[trigger] a[i + 1].contents() == step(
            a[i].contents(),
            o[i],
        ) by {
            assert(agents[i + 1].contents() == step(agents[i].contents(), ops[i]));
        }
        lemma_agents_follow_ops(a, o);
        assert(agents.last().contents() == step(agents[ops.len() - 1].contents(), ops.last()));
    }
    assert forall|key: Seq<char>| true implies (crate::history::last_write(ops, key) matches Some(v)
        ==> agents.last().contents().contains_key(key) && agents.last().contents()[key] == v) && (
    crate::history::last_write(ops, key) is None ==> !agents.last().contents().contains_key(key)) by {
        crate::history::lemma_last_write_wins(ops, key);
    }
}

/// The stale bytes never exceed the bytes of the log that the live records
/// leave over.
pub proof fn lemma_stale_bound(agent: &WriteAgent)
    requires
        agent.wf(),
    ensures
        agent.stale() + agent.live_size() <= agent.log().len(),
{
}

/// `set(key, value)` then `get(key)`: the key holds `value`, and its record
/// reads back as `value`.
pub proof fn lemma_set_then_get(before: &WriteAgent, after: &WriteAgent, key: Seq<char>, value: Seq<char>)
    requires
        before.wf(),
        after.wf(),
        value.len() > 0,
        after.state() == before.state().apply(
            key,
            value,
            before.log().len() as int,
            entry_size(key, value) as int,
        ),
    ensures
        after.contents().contains_key(key),
        after.contents()[key] == value,
        record_at(after.record_of(key), 0) == (ReadOutcome::Record {
            key,
            value,
            next: entry_size(key, value) as int,
        }),
{
    after.lemma_entries();
    lemma_read_back(after, key);
    let loc = after.state().index[key];
    assert(after.state().index.contains_key(key));
    assert(after.contents()[key] == value);
    assert(loc.len == entry_size(key, value));
    assert(after.record_of(key).len() == loc.len);
}

/// Overwriting: after `set(key, v1)` and `set(key, v2)` the key holds `v2`,
/// and the record of `v1` is stale.
pub proof fn lemma_overwrite(
    a0: &WriteAgent,
    a1: &WriteAgent,
    a2: &WriteAgent,
    key: Seq<char>,
    v1: Seq<char>,
    v2: Seq<char>,
)
    requires
        a0.wf(),
        a1.wf(),
        a2.wf(),
        v1.len() > 0,
        v2.len() > 0,
        a1.state() == a0.state().apply(key, v1, a0.log().len() as int, entry_size(key, v1) as int),
        a2.state() == a1.state().apply(key, v2, a1.log().len() as int, entry_size(key, v2) as int),
    ensures
        a2.contents()[key] == v2,
        a2.stale() == a1.stale() + entry_size(key, v1),
{
    a1.lemma_entries();
}

/// `set(key, value)` then `remove(key)`: the key holds no value, so a
/// second `remove(key)` fails with `KeyNotFound`.
pub proof fn lemma_set_then_remove(
    a0: &WriteAgent,
    a1: &WriteAgent,
    a2: &WriteAgent,
    key: Seq<char>,
    value: Seq<char>,
)
    requires
        a0.wf(),
        a1.wf(),
        a2.wf(),
        value.len() > 0,
        a1.state() == a0.state().apply(key, value, a0.log().len() as int, entry_size(key, value) as int),
        a2.state() == a1.state().apply(
            key,
            Seq::empty(),
            a1.log().len() as int,
            entry_size(key, Seq::empty()) as int,
        ),
    ensures
        !a2.contents().contains_key(key),
        a2.stale() == a1.stale() + entry_size(key, value),
{
    a1.lemma_entries();
}

} // verus!
