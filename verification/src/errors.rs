//! The error taxonomy of the transport layer. Stream-level and decode
//! errors are fatal to the connection; the others are local to one call or
//! one request.

use vstd::prelude::*;

verus! {

#[derive(Clone, Copy, Debug, PartialEq, Eq, Structural)]
pub enum ErrorKind {
    /// A received frame or body does not parse as a message; the inbound
    /// direction is unrecoverable past this point.
    MalformedMessage,
    /// A read or write on the underlying stream failed.
    StreamIo,
    /// The handshake received the wrong kind of message, or an operation was
    /// attempted in a handshake state that forbids it.
    Protocol,
    /// A request was issued before the handshake reached `Initialized`.
    NotInitialized,
    /// The connection went away while the request was outstanding.
    ConnectionClosed,
    /// A caller-imposed deadline expired while the request was outstanding.
    Timeout,
}

} // verus!
