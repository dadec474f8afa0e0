//! The messages that the daemon and its clients exchange, one per line.

use vstd::prelude::*;

verus! {

/// What a client asks of the daemon.
#[derive(Debug)]
pub struct Request {
    pub command: String,
    pub arg: Option<String>,
}

/// What the daemon answers.
#[derive(Debug)]
pub struct Response {
    pub ok: bool,
    pub message: Option<String>,
}

impl Response {
    /// The answer to a request that was carried out.
    pub fn ok(msg: impl Into<String>) -> (r: Response)
        ensures
            r.ok,
            r.message matches Some(m) && call_ensures(Into::<String>::into, (msg,), m),
    {
        Response { ok: true, message: Some(msg.into()) }
    }

    /// The answer to a request that failed.
    pub fn err(msg: impl Into<String>) -> (r: Response)
        ensures
            !r.ok,
            r.message matches Some(m) && call_ensures(Into::<String>::into, (msg,), m),
    {
        Response { ok: false, message: Some(msg.into()) }
    }
}

/// Why a client got no answer, or the daemon cannot listen.
#[derive(Debug, Clone, Copy, PartialEq, Eq, Structural)]
pub enum IpcError {
    /// The daemon's socket could not be opened for listening.
    Bind,
    /// Nothing listens on the daemon's socket.
    NotRunning,
    /// The connection was closed before an answer came.
    NoResponse,
}

impl IpcError {
    /// The error in words.
    pub open spec fn words(self) -> Seq<char> {
        match self {
            IpcError::Bind => "failed to bind IPC socket"@,
            IpcError::NotRunning => "daemon not running (can't connect to socket)"@,
            IpcError::NoResponse => "no response from daemon"@,
        }
    }

    /// The error in words.
    pub fn message(&self) -> (r: &'static str)
        ensures
            r@ == self.words(),
    {
        match self {
            IpcError::Bind => "failed to bind IPC socket",
            IpcError::NotRunning => "daemon not running (can't connect to socket)",
            IpcError::NoResponse => "no response from daemon",
        }
    }
}

/// The byte that ends a line.
pub const LINE_FEED: u8 = 0x0A;

/// Makes an encoded request a message: the line that holds it.
pub fn frame_request(encoded: Vec<u8>) -> (line: Vec<u8>)
    ensures
        line@ == encoded@.push(LINE_FEED),
{
    let mut line: Vec<u8> = encoded;
    line.push(LINE_FEED);
    line
}

/// Where the encoding of a request has no line feed of its own, its message is
/// one line: a reader that stops at the first line feed has read the whole
/// encoding and nothing else.
pub proof fn lemma_message_is_one_line(encoded: Seq<u8>, end: int)
    requires
        !encoded.contains(LINE_FEED),
        0 <= end < encoded.push(LINE_FEED).len(),
        encoded.push(LINE_FEED)[end] == LINE_FEED,
    ensures
        end == encoded.push(LINE_FEED).len() - 1,
        encoded.push(LINE_FEED).take(end) == encoded,
{
    if end < encoded.len() {
        assert(encoded[end] == LINE_FEED);
    }
    assert(encoded.push(LINE_FEED).take(end) =~= encoded);
}

/// The line that answers a request, where the daemon sent one.
pub fn answer_line(first_line: Option<String>) -> (r: Result<String, IpcError>)
    ensures
        match first_line {
            Some(line) => r == Ok::<String, IpcError>(line),
            None => r == Err::<String, IpcError>(IpcError::NoResponse),
        },
{
    match first_line {
        Some(line) => Ok(line),
        None => Err(IpcError::NoResponse),
    }
}

} // verus!
