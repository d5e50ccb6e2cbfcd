//! The command-line client: its arguments, the request it sends, and what
//! it prints for the response.
use crate::protocol::{KvsCommands, KvsResponse};
use crate::KvError;
use vstd::prelude::*;

verus! {

/// A client command.
pub enum Commands {
    Get { key: String },
    Put { key: String, value: String },
    Rm { key: String },
}

/// The client's arguments: the command and the server's address.
pub struct Cli {
    pub command: Commands,
    pub addr: String,
}

impl Commands {
    /// The request that carries this command.
    pub fn request(self) -> (r: KvsCommands)
        ensures
            match self {
                Commands::Get { key } => r == KvsCommands::Get { key },
                Commands::Put { key, value } => r == KvsCommands::Put { key, value },
                Commands::Rm { key } => r == KvsCommands::Rm { key },
            },
    {
        match self {
            Commands::Get { key } => KvsCommands::Get { key },
            Commands::Put { key, value } => KvsCommands::Put { key, value },
            Commands::Rm { key } => KvsCommands::Rm { key },
        }
    }
}

/// What the client prints, and its exit status.
pub struct ClientOutcome {
    pub stdout: Option<String>,
    pub stderr: Option<String>,
    pub exit_code: i32,
}

/// The client's output for `command` answered by `response`. A `get`
/// prints the value, or the message of a key with no value or of an error,
/// and succeeds; a failed `set` or `rm` prints the message to standard
/// error and exits with status 1.
pub fn client_outcome(command: &Commands, response: KvsResponse) -> (r: ClientOutcome)
    ensures
        match response {
            KvsResponse::Success(Some(v)) => r.stdout == Some(v) && r.stderr is None && r.exit_code
                == 0,
            KvsResponse::Success(None) => r.stderr is None && r.exit_code == 0 && if command is Get {
                r.stdout matches Some(m) && m@ == KvError::KeyNotFound.text()
            } else {
                r.stdout is None
            },
            KvsResponse::Failure(m) => if command is Get {
                r.stdout == Some(m) && r.stderr is None && r.exit_code == 0
            } else {
                r.stdout is None && r.stderr == Some(m) && r.exit_code == 1
            },
        },
{
    let is_get = match command {
        Commands::Get { .. } => true,
        _ => false,
    };
    match response {
        KvsResponse::Success(Some(v)) => ClientOutcome { stdout: Some(v), stderr: None, exit_code: 0 },
        KvsResponse::Success(None) => {
            if is_get {
                ClientOutcome {
                    stdout: Some(KvError::KeyNotFound.message().to_owned()),
                    stderr: None,
                    exit_code: 0,
                }
            } else {
                ClientOutcome { stdout: None, stderr: None, exit_code: 0 }
            }
        },
        KvsResponse::Failure(m) => {
            if is_get {
                ClientOutcome { stdout: Some(m), stderr: None, exit_code: 0 }
            } else {
                ClientOutcome { stdout: None, stderr: Some(m), exit_code: 1 }
            }
        },
    }
}

} // verus!
