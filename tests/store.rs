use trash_db::agent::{WriteAgent, COMPACTION_THRESHOLD};
use trash_db::keydir::CommandPos;
use trash_db::record::encode_record;
use trash_db::KvError;

/// A store whose log lives in memory: the same steps the server takes with
/// a file.
struct MemStore {
    log: Vec<u8>,
    agent: WriteAgent,
    compactions: usize,
}

impl MemStore {
    fn new() -> MemStore {
        MemStore { log: Vec::new(), agent: WriteAgent::open(&[]).unwrap(), compactions: 0 }
    }

    fn reopen(log: Vec<u8>) -> MemStore {
        let agent = WriteAgent::open(&log).unwrap();
        MemStore { log, agent, compactions: 0 }
    }

    fn set(&mut self, key: &str, value: &str) {
        let record = encode_record(key, value);
        self.log.extend_from_slice(&record);
        if self.agent.set(key.to_string(), value) {
            self.compact();
        }
    }

    fn get(&self, key: &str) -> Option<String> {
        let key = key.to_string();
        let loc: CommandPos = self.agent.get(&key)?;
        let record = &self.log[loc.pos as usize..(loc.pos + loc.len) as usize];
        Some(self.agent.value_from_record(&key, record).unwrap())
    }

    fn remove(&mut self, key: &str) -> Result<(), KvError> {
        let key = key.to_string();
        if self.agent.get(&key).is_none() {
            return Err(KvError::KeyNotFound);
        }
        let record = encode_record(&key, "");
        self.log.extend_from_slice(&record);
        if self.agent.remove(&key)? {
            self.compact();
        }
        Ok(())
    }

    fn compact(&mut self) {
        let mut fresh = Vec::new();
        for loc in self.agent.compaction_plan() {
            fresh.extend_from_slice(&self.log[loc.pos as usize..(loc.pos + loc.len) as usize]);
        }
        self.log = fresh;
        self.agent.compacted();
        self.compactions += 1;
    }

    fn live_size(&self) -> u64 {
        self.agent.compaction_plan().iter().map(|l| l.len).sum()
    }
}

#[test]
fn fresh_store_get_set() {
    let mut s = MemStore::new();
    assert_eq!(s.get("k"), None);
    s.set("k", "v");
    assert_eq!(s.get("k"), Some("v".to_string()));
}

#[test]
fn overwrite_keeps_last_value() {
    let mut s = MemStore::new();
    s.set("a", "1");
    s.set("a", "2");
    assert_eq!(s.get("a"), Some("2".to_string()));
    assert_eq!(s.agent.stale_bytes(), 10);
}

#[test]
fn remove_present_key() {
    let mut s = MemStore::new();
    s.set("a", "1");
    assert_eq!(s.remove("a"), Ok(()));
    assert_eq!(s.get("a"), None);
    assert_eq!(s.remove("a"), Err(KvError::KeyNotFound));
}

#[test]
fn remove_absent_key() {
    let mut s = MemStore::new();
    assert_eq!(s.remove("a"), Err(KvError::KeyNotFound));
    assert!(s.log.is_empty());
}

#[test]
fn agent_remove_absent_changes_nothing() {
    let mut agent = WriteAgent::open(&[]).unwrap();
    assert_eq!(agent.remove(&"a".to_string()), Err(KvError::KeyNotFound));
    assert_eq!(agent.log_len(), 0);
    assert_eq!(agent.stale_bytes(), 0);
}

#[test]
fn compaction_trigger_bounds_log() {
    let mut s = MemStore::new();
    let value = "x".repeat(100);
    for round in 0..3 {
        for i in 0..10_000 {
            let v = format!("{}{}", round, value);
            s.set(&format!("key{}", i), &v);
        }
    }
    assert!(s.compactions >= 1);
    let entry = 8 + "key0000".len() as u64 + 101;
    assert!((s.log.len() as u64) <= 10_000 * entry + COMPACTION_THRESHOLD + entry);
    for i in (0..10_000).step_by(997) {
        assert_eq!(s.get(&format!("key{}", i)), Some(format!("2{}", value)));
    }
}

#[test]
fn one_compaction_past_threshold() {
    let mut s = MemStore::new();
    let value = "v".repeat(1000);
    let mut i = 0;
    while s.agent.stale_bytes() + 1008 < COMPACTION_THRESHOLD {
        s.set("same", &format!("{}{}", i % 10, value));
        i += 1;
    }
    assert_eq!(s.compactions, 0);
    s.set("other", "o");
    s.set("same", "last");
    assert_eq!(s.compactions, 1);
    assert_eq!(s.agent.stale_bytes(), 0);
    assert_eq!(s.get("same"), Some("last".to_string()));
    assert_eq!(s.get("other"), Some("o".to_string()));
    assert_eq!(s.log.len() as u64, s.live_size());
    assert_eq!(s.agent.log_len(), s.log.len() as u64);
}

#[test]
fn restart_durability() {
    let mut s = MemStore::new();
    s.set("k", "v");
    s.set("a", "1");
    s.set("a", "2");
    s.set("b", "1");
    s.remove("b").unwrap();
    let stale = s.agent.stale_bytes();
    let r = MemStore::reopen(s.log.clone());
    assert_eq!(r.get("k"), Some("v".to_string()));
    assert_eq!(r.get("a"), Some("2".to_string()));
    assert_eq!(r.get("b"), None);
    assert_eq!(r.agent.stale_bytes(), stale);
    assert_eq!(r.agent.len(), 2);
}

#[test]
fn reopen_after_compaction() {
    let mut s = MemStore::new();
    s.set("a", "1");
    s.set("b", "2");
    s.set("a", "3");
    s.remove("b").unwrap();
    s.compact();
    assert_eq!(s.agent.stale_bytes(), 0);
    let r = MemStore::reopen(s.log.clone());
    assert_eq!(r.get("a"), Some("3".to_string()));
    assert_eq!(r.get("b"), None);
    assert_eq!(r.agent.stale_bytes(), 0);
    assert_eq!(r.log.len(), 10);
}

#[test]
fn large_value_round_trip() {
    let mut s = MemStore::new();
    let big: String = (0..150_000).map(|i| (b'a' + (i % 26) as u8) as char).collect();
    s.set("big", &big);
    assert_eq!(s.get("big"), Some(big.clone()));
    let r = MemStore::reopen(s.log.clone());
    assert_eq!(r.get("big"), Some(big));
}

#[test]
fn unicode_round_trip() {
    let mut s = MemStore::new();
    let pairs = [
        ("key with spaces", "value with spaces"),
        ("ключ", "значение"),
        ("鍵", "値 🎉 ✓"),
        ("e\u{301}", "\u{10FFFF}\u{0}x"),
    ];
    for (k, v) in pairs.iter() {
        s.set(k, v);
    }
    let r = MemStore::reopen(s.log.clone());
    for (k, v) in pairs.iter() {
        assert_eq!(s.get(k), Some(v.to_string()));
        assert_eq!(r.get(k), Some(v.to_string()));
    }
}

#[test]
fn last_write_wins_over_mixed_operations() {
    let mut s = MemStore::new();
    let mut expected: std::collections::HashMap<String, String> = std::collections::HashMap::new();
    let mut seed: u64 = 7;
    for _ in 0..3000 {
        seed = seed.wrapping_mul(6364136223846793005).wrapping_add(1442695040888963407);
        let key = format!("k{}", (seed >> 33) % 50);
        if (seed >> 20) % 4 == 0 {
            let got = s.remove(&key);
            if expected.remove(&key).is_some() {
                assert_eq!(got, Ok(()));
            } else {
                assert_eq!(got, Err(KvError::KeyNotFound));
            }
        } else {
            let value = format!("v{}", seed % 1000);
            s.set(&key, &value);
            expected.insert(key, value);
        }
    }
    for i in 0..50 {
        let key = format!("k{}", i);
        assert_eq!(s.get(&key), expected.get(&key).cloned());
    }
    let r = MemStore::reopen(s.log.clone());
    for i in 0..50 {
        let key = format!("k{}", i);
        assert_eq!(r.get(&key), expected.get(&key).cloned());
    }
}

#[test]
fn stale_bytes_bounded_by_dead_bytes() {
    let mut s = MemStore::new();
    for i in 0..200 {
        s.set(&format!("k{}", i % 13), &format!("value{}", i));
        if i % 7 == 0 {
            let _ = s.remove(&format!("k{}", i % 5));
        }
        assert!(s.agent.stale_bytes() <= s.log.len() as u64 - s.live_size());
    }
}

#[test]
fn corrupt_log_is_refused() {
    let mut log = encode_record("a", "1");
    log.extend_from_slice(&[3, 0, 0]);
    assert!(matches!(WriteAgent::open(&log), Err(KvError::Corruption)));
    let mut cut = encode_record("key", "value");
    cut.pop();
    assert!(matches!(WriteAgent::open(&cut), Err(KvError::Corruption)));
}

#[test]
fn read_back_checks_key() {
    let mut s = MemStore::new();
    s.set("a", "1");
    let record = encode_record("b", "1");
    assert_eq!(s.agent.value_from_record(&"a".to_string(), &record), Err(KvError::Corruption));
    let tomb = encode_record("a", "");
    assert_eq!(s.agent.value_from_record(&"a".to_string(), &tomb), Err(KvError::Corruption));
}

#[test]
fn invalid_input_is_refused() {
    let agent = WriteAgent::open(&[]).unwrap();
    assert_eq!(agent.set_record("", "v"), Err(KvError::InvalidInput));
    assert_eq!(agent.set_record("k", ""), Err(KvError::InvalidInput));
    assert_eq!(agent.set_record("k", "v"), Ok(encode_record("k", "v")));
    assert_eq!(agent.remove_record(&"k".to_string()), Err(KvError::KeyNotFound));
}

#[test]
fn tombstone_accounting() {
    let mut s = MemStore::new();
    s.set("key", "value");
    assert_eq!(s.agent.log_len(), 16);
    assert_eq!(s.agent.remove_record(&"key".to_string()), Ok(encode_record("key", "")));
    s.remove("key").unwrap();
    assert_eq!(s.agent.log_len(), 27);
    assert_eq!(s.agent.stale_bytes(), 16);
    assert_eq!(s.agent.len(), 0);
    let r = MemStore::reopen(s.log.clone());
    assert_eq!(r.agent.stale_bytes(), 16);
}

#[test]
fn superseded_tombstone_is_stale() {
    let mut s = MemStore::new();
    s.set("key", "value");
    s.remove("key").unwrap();
    assert_eq!(s.agent.stale_bytes(), 16);
    s.set("key", "again");
    assert_eq!(s.agent.stale_bytes(), 16 + 11);
    assert_eq!(s.agent.log_len(), 16 + 11 + 16);
    assert_eq!(s.get("key"), Some("again".to_string()));
    let r = MemStore::reopen(s.log.clone());
    assert_eq!(r.agent.stale_bytes(), 27);
    assert_eq!(r.get("key"), Some("again".to_string()));
}
