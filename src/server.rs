//! The server: an engine, a pool of worker threads, and the handling of one
//! request.
use crate::engines::KvsEngine;
use crate::protocol::{KvsCommands, KvsResponse};
use crate::KvError;
use vstd::prelude::*;

verus! {

/// Runs jobs on worker threads.
pub trait ThreadPool {
    /// A pool of `threads` workers.
    fn new(threads: usize) -> Result<Self, KvError> where Self: Sized;

    /// Runs `job` on some worker.
    fn spawn<F>(&self, job: F) where F: FnOnce() + Send + 'static;
}

/// A server: requests go to `engine`, each handled on a worker of `threadpool`.
pub struct KvServer<E: KvsEngine, T: ThreadPool> {
    threadpool: T,
    engine: E,
}

impl<E: KvsEngine, T: ThreadPool> KvServer<E, T> {
    pub closed spec fn engine_spec(&self) -> E {
        self.engine
    }

    pub closed spec fn pool_spec(&self) -> T {
        self.threadpool
    }

    pub fn new(engine: E, pool: T) -> (r: Self)
        ensures
            r.engine_spec() == engine,
            r.pool_spec() == pool,
    {
        Self { engine, threadpool: pool }
    }

    /// The engine requests go to.
    pub fn engine(&self) -> (r: &E)
        ensures
            *r == self.engine_spec(),
    {
        &self.engine
    }

    /// The pool requests are handled on.
    pub fn pool(&self) -> (r: &T)
        ensures
            *r == self.pool_spec(),
    {
        &self.threadpool
    }
}

/// The outcome of a mutation, as a response carries it.
pub fn unit_outcome(outcome: Result<(), KvError>) -> (r: Result<Option<String>, KvError>)
    ensures
        match outcome {
            Ok(()) => r == Ok::<Option<String>, KvError>(None),
            Err(e) => r == Err::<Option<String>, KvError>(e),
        },
{
    match outcome {
        Ok(()) => Ok(None),
        Err(e) => Err(e),
    }
}

/// The engine operation a request asks for, with the arguments it hands
/// over.
pub enum EngineCall {
    /// `KvsEngine::get(key)`.
    Get { key: String },
    /// `KvsEngine::set(key, value)`.
    Write { key: String, value: String },
    /// `KvsEngine::remove(key)`.
    Remove { key: String },
}

/// The engine call that serves `command`: a `get` reads its key, a `set`
/// writes its key and value, an `rm` removes its key.
pub fn engine_call(command: KvsCommands) -> (r: EngineCall)
    ensures
        match command {
            KvsCommands::Get { key } => r == EngineCall::Get { key },
            KvsCommands::Put { key, value } => r == EngineCall::Write { key, value },
            KvsCommands::Rm { key } => r == EngineCall::Remove { key },
        },
{
    match command {
        KvsCommands::Get { key } => EngineCall::Get { key },
        KvsCommands::Put { key, value } => EngineCall::Write { key, value },
        KvsCommands::Rm { key } => EngineCall::Remove { key },
    }
}

/// Runs `command` against `engine` and builds the response: the engine
/// receives the call `engine_call(command)`, and its outcome becomes the
/// response through `unit_outcome` and `KvsResponse::from_outcome`: the
/// value a `get` found (none for a key that holds no value), nothing for a
/// successful mutation, or the error's message.
pub fn handle_command<E: KvsEngine>(engine: &E, command: KvsCommands) -> (r: KvsResponse)
    ensures
        r matches KvsResponse::Failure(m) ==> exists|e: KvError| m@ == e.text(),
        !(command is Get) ==> !(r matches KvsResponse::Success(Some(_))),
{
    match engine_call(command) {
        EngineCall::Get { key } => KvsResponse::from_outcome(engine.get(key)),
        EngineCall::Write { key, value } => KvsResponse::from_outcome(
            unit_outcome(engine.set(key, value)),
        ),
        EngineCall::Remove { key } => KvsResponse::from_outcome(unit_outcome(engine.remove(key))),
    }
}

} // verus!
