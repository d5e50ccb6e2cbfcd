//! Storage engines: the operations every engine offers, the choice of
//! engine for a data directory, and the engine built on sled.
use crate::record::utf8_string;
use vstd::utf8::{decode_utf8, valid_utf8};
use crate::KvError;
use vstd::prelude::*;

verus! {

/// The engines a server can run.
#[derive(Clone, Copy, Debug, PartialEq, Eq, Structural)]
pub enum Engine {
    Kvs,
    Sled,
}

/// The engine to run, and whether to record it as the directory's engine.
#[derive(Clone, Copy, Debug, PartialEq, Eq, Structural)]
pub struct EngineChoice {
    pub engine: Engine,
    pub record: bool,
}

/// Picks the engine for a data directory, given the engine recorded for it
/// (`current`) and the one asked for (`requested`). A directory keeps the
/// engine it was first run with: asking for another one is refused.
pub fn select_engine(current: Option<Engine>, requested: Option<Engine>) -> (r: Result<
    EngineChoice,
    KvError,
>)
    ensures
        match (current, requested) {
            (Some(c), None) => r == Ok::<EngineChoice, KvError>(EngineChoice { engine: c, record: false }),
            (Some(c), Some(q)) => if c == q {
                r == Ok::<EngineChoice, KvError>(EngineChoice { engine: c, record: false })
            } else {
                r == Err::<EngineChoice, KvError>(KvError::EngineMismatch)
            },
            (None, Some(q)) => r == Ok::<EngineChoice, KvError>(EngineChoice { engine: q, record: true }),
            (None, None) => r == Ok::<EngineChoice, KvError>(
                EngineChoice { engine: Engine::Kvs, record: true },
            ),
        },
{
    match (current, requested) {
        (Some(c), None) => Ok(EngineChoice { engine: c, record: false }),
        (Some(c), Some(q)) => {
            if c == q {
                Ok(EngineChoice { engine: c, record: false })
            } else {
                Err(KvError::EngineMismatch)
            }
        },
        (None, Some(q)) => Ok(EngineChoice { engine: q, record: true }),
        (None, None) => Ok(EngineChoice { engine: Engine::Kvs, record: true }),
    }
}

/// The operations of a storage engine. Handles are cheap to clone, and
/// clones share one store.
pub trait KvsEngine: Clone + Send + 'static {
    /// Stores `value` under `key`.
    fn set(&self, key: String, value: String) -> Result<(), KvError>;

    /// The value of `key`; `None` when the key holds no value.
    fn get(&self, key: String) -> Result<Option<String>, KvError>;

    /// Deletes `key`; fails with `KeyNotFound` when it holds no value.
    fn remove(&self, key: String) -> Result<(), KvError>;
}

/// sled's database handle, carried through opaquely.
#[verifier::external_type_specification]
#[verifier::external_body]
pub struct ExDb(sled::Db);

/// Relies on `sled::Db`'s `Clone`: another handle to the same database.
pub assume_specification[ <sled::Db as std::clone::Clone>::clone ](db: &sled::Db) -> sled::Db;

/// Relies on `sled::open`: opens, or creates, the database in the directory
/// `path`; `None` when sled reports an error.
#[verifier::external_body]
fn sled_open(path: &str) -> (r: Option<sled::Db>) {
    match sled::open(path) {
        Ok(db) => Some(db),
        Err(_) => None,
    }
}

/// Relies on `sled::Tree::get`: the bytes stored under `key`, if any;
/// `None` when sled reports an error.
#[verifier::external_body]
fn db_get(db: &sled::Db, key: &str) -> (r: Option<Option<Vec<u8>>>) {
    match db.get(key) {
        Ok(Some(v)) => Some(Some(v.to_vec())),
        Ok(None) => Some(None),
        Err(_) => None,
    }
}

/// Relies on `sled::Tree::insert`: stores `value`'s bytes under `key`;
/// `false` when sled reports an error.
#[verifier::external_body]
fn db_insert(db: &sled::Db, key: &str, value: &str) -> (r: bool) {
    match db.insert(key, value.as_bytes()) {
        Ok(_) => true,
        Err(_) => false,
    }
}

/// Relies on `sled::Tree::remove`: deletes `key`, telling whether it held a
/// value; `None` when sled reports an error.
#[verifier::external_body]
fn db_remove(db: &sled::Db, key: &str) -> (r: Option<bool>) {
    match db.remove(key) {
        Ok(Some(_)) => Some(true),
        Ok(None) => Some(false),
        Err(_) => None,
    }
}

/// Relies on `sled::Tree::flush`: writes buffered changes to disk; `false`
/// when sled reports an error.
#[verifier::external_body]
fn db_flush(db: &sled::Db) -> (r: bool) {
    match db.flush() {
        Ok(_) => true,
        Err(_) => false,
    }
}

/// The engine backed by a sled database.
#[derive(Clone)]
pub struct SledKvsEngine(sled::Db);

impl SledKvsEngine {
    /// Opens the sled database in the directory `path`.
    pub fn open(path: &str) -> (r: Result<SledKvsEngine, KvError>)
        ensures
            r is Err ==> r == Err::<SledKvsEngine, KvError>(KvError::Io),
    {
        match sled_open(path) {
            Some(db) => Ok(SledKvsEngine(db)),
            None => Err(KvError::Io),
        }
    }
}

/// The answer to `get`, given what the database returned for the key:
/// `None` when it failed, else the bytes stored under the key, if any.
pub fn get_outcome(stored: Option<Option<Vec<u8>>>) -> (r: Result<Option<String>, KvError>)
    ensures
        match stored {
            None => r == Err::<Option<String>, KvError>(KvError::Io),
            Some(None) => r == Ok::<Option<String>, KvError>(None),
            Some(Some(bytes)) => if valid_utf8(bytes@) {
                r matches Ok(Some(v)) && v@ == decode_utf8(bytes@)
            } else {
                r == Err::<Option<String>, KvError>(KvError::Corruption)
            },
        },
{
    match stored {
        Some(Some(bytes)) => match utf8_string(bytes) {
            Some(value) => Ok(Some(value)),
            None => Err(KvError::Corruption),
        },
        Some(None) => Ok(None),
        None => Err(KvError::Io),
    }
}

/// The answer to `set`, given whether the insert and then the flush
/// succeeded.
pub fn set_outcome(inserted: bool, flushed: bool) -> (r: Result<(), KvError>)
    ensures
        r == if inserted && flushed {
            Ok::<(), KvError>(())
        } else {
            Err::<(), KvError>(KvError::Io)
        },
{
    if inserted && flushed {
        Ok(())
    } else {
        Err(KvError::Io)
    }
}

/// The answer to `remove`, given what the database's remove returned
/// (`None` when it failed, else whether the key held a value) and whether
/// the flush after it succeeded.
pub fn remove_outcome(removed: Option<bool>, flushed: bool) -> (r: Result<(), KvError>)
    ensures
        match removed {
            None => r == Err::<(), KvError>(KvError::Io),
            Some(false) => r == Err::<(), KvError>(KvError::KeyNotFound),
            Some(true) => r == if flushed {
                Ok::<(), KvError>(())
            } else {
                Err::<(), KvError>(KvError::Io)
            },
        },
{
    match removed {
        Some(true) => {
            if flushed {
                Ok(())
            } else {
                Err(KvError::Io)
            }
        },
        Some(false) => Err(KvError::KeyNotFound),
        None => Err(KvError::Io),
    }
}

impl KvsEngine for SledKvsEngine {
    fn set(&self, key: String, value: String) -> Result<(), KvError> {
        let inserted = db_insert(&self.0, key.as_str(), value.as_str());
        let flushed = inserted && db_flush(&self.0);
        set_outcome(inserted, flushed)
    }

    fn get(&self, key: String) -> Result<Option<String>, KvError> {
        get_outcome(db_get(&self.0, key.as_str()))
    }

    fn remove(&self, key: String) -> Result<(), KvError> {
        let removed = db_remove(&self.0, key.as_str());
        let flushed = match removed {
            Some(true) => db_flush(&self.0),
            _ => false,
        };
        remove_outcome(removed, flushed)
    }
}

} // verus!
