use vstd::prelude::*;

verus! {

/// Why a listener or pool could not be built from its configuration.
/// Fatal at startup: the daemon reports the message and exits non-zero.
pub enum CreationError {
    /// A configuration value is missing or unrecognized; the payload is a
    /// human-readable description.
    InvalidResource(String),
}

impl CreationError {
    /// The descriptive text carried by this error.
    pub fn description(&self) -> (r: &String)
        ensures
            *self matches CreationError::InvalidResource(s) && r@ == s@,
    {
        match self {
            CreationError::InvalidResource(s) => s,
        }
    }
}

/// Protocol-level outcome of reading from a client connection.
#[derive(Clone, Copy, PartialEq, Eq, Structural, Debug)]
pub enum ProtocolError {
    /// The client closed its connection cleanly between messages.
    Empty,
    /// The bytes on the wire do not form a RESP message.
    Malformed,
    /// An I/O error interrupted the stream mid-message.
    Interrupted,
}

impl ProtocolError {
    /// Whether this outcome is a clean client close, which ends the client
    /// task silently rather than being logged as an error.
    pub fn client_closed(&self) -> (r: bool)
        ensures
            r == (*self == ProtocolError::Empty),
    {
        match self {
            ProtocolError::Empty => true,
            _ => false,
        }
    }
}

/// Why a sub-batch submitted to one backend failed as a whole.
/// Any of these recycles the connection and counts one failure against the
/// backend's cool-off threshold.
#[derive(Clone, Copy, PartialEq, Eq, Structural, Debug)]
pub enum BackendFailure {
    /// The connection broke while writing or reading.
    Io,
    /// The per-request timeout expired before every reply arrived.
    Timeout,
    /// The backend's bytes did not frame as RESP replies.
    Protocol,
}

} // verus!
