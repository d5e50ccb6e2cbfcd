//! The client/server protocol: requests, responses and message framing.
use crate::KvError;
use vstd::prelude::*;
use vstd::slice::{slice_subrange, slice_to_vec};

verus! {

/// Messages are read in chunks of this many bytes; a shorter read ends one.
pub const MESSAGE_SIZE: usize = 512;

/// A request to the server.
pub enum KvsCommands {
    Get { key: String },
    Put { key: String, value: String },
    Rm { key: String },
}

/// The server's answer to a request.
pub enum KvsResponse {
    /// Success, with the value a `get` found (`None` for other requests,
    /// and for a key that holds no value).
    Success(Option<String>),
    /// Failure, with its message.
    Failure(String),
}

impl KvsResponse {
    /// The response that reports `outcome`.
    pub fn from_outcome(outcome: Result<Option<String>, KvError>) -> (r: KvsResponse)
        ensures
            match outcome {
                Ok(v) => r == KvsResponse::Success(v),
                Err(e) => r matches KvsResponse::Failure(m) && m@ == e.text(),
            },
    {
        match outcome {
            Ok(v) => KvsResponse::Success(v),
            Err(e) => KvsResponse::Failure(e.message().to_owned()),
        }
    }
}

/// `bytes` without its trailing NUL bytes.
pub open spec fn trim_nul(bytes: Seq<u8>) -> Seq<u8>
    decreases bytes.len(),
{
    if bytes.len() > 0 && bytes.last() == 0 {
        trim_nul(bytes.drop_last())
    } else {
        bytes
    }
}

/// A message being read from a stream, chunk by chunk.
pub struct MessageBuffer {
    bytes: Vec<u8>,
}

impl View for MessageBuffer {
    type V = Seq<u8>;

    closed spec fn view(&self) -> Seq<u8> {
        self.bytes@
    }
}

impl MessageBuffer {
    pub fn new() -> (r: Self)
        ensures
            r@ == Seq::<u8>::empty(),
    {
        MessageBuffer { bytes: Vec::new() }
    }

    /// Adds the first `n` bytes of `chunk`, as one read from the stream
    /// returned them. Returns whether the message is complete: a read
    /// shorter than `MESSAGE_SIZE` is its last.
    pub fn push_chunk(&mut self, chunk: &[u8], n: usize) -> (done: bool)
        requires
            n <= chunk@.len(),
        ensures
            final(self)@ == old(self)@ + chunk@.subrange(0, n as int),
            done == (n < MESSAGE_SIZE),
    {
        self.bytes.extend_from_slice(slice_subrange(chunk, 0, n));
        n < MESSAGE_SIZE
    }

    /// The message, without the NUL bytes that pad its end.
    pub fn payload(&self) -> (r: Vec<u8>)
        ensures
            r@ == trim_nul(self@),
    {
        let mut end = self.bytes.len();
        assert(self.bytes@.subrange(0, end as int) =~= self.bytes@);
        while end > 0 && self.bytes[end - 1] == 0
            invariant
                end <= self.bytes@.len(),
                trim_nul(self.bytes@) == trim_nul(self.bytes@.subrange(0, end as int)),
            decreases end,
        {
            assert(self.bytes@.subrange(0, end as int).drop_last() =~= self.bytes@.subrange(
                0,
                end - 1,
            ));
            end = end - 1;
        }
        slice_to_vec(slice_subrange(self.bytes.as_slice(), 0, end))
    }
}

} // verus!
