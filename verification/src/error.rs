//! Errors a connection can run into.  The protocol has no in-band way to
//! report a failure to the peer, so every one of these is fatal to the
//! connection it occurred on; none of them touches any other connection.

use vstd::prelude::*;

verus! {

/// Why a connection (or the whole listener, for `Transport` at the accept
/// level) was torn down.
#[derive(Clone, Copy, Debug, PartialEq, Eq)]
pub enum AgentError {
    /// The user-supplied handler refused a request.
    User,
    /// A malformed or oversized length prefix.
    Framing,
    /// A payload did not decode to a message, or a message did not encode.
    Serialization,
    /// A socket read, write, or accept failure.
    Transport,
}

} // verus!
