//! The ways in which a session can fail.

use vstd::prelude::*;

verus! {

/// A request or a transfer frame that cannot be decoded. Decoding fails closed:
/// a frame is either read whole or refused with one of these.
#[derive(Clone, Copy, Debug, PartialEq, Eq, Structural)]
pub enum ProtocolError {
    /// The bytes end before the frame does.
    Truncated,
    /// The discriminant names no known request.
    UnknownRequest,
    /// A path field is not well-formed UTF-8.
    InvalidText,
}

/// A connection that stopped delivering what a transfer was promised.
#[derive(Clone, Copy, Debug, PartialEq, Eq, Structural)]
pub enum TransportError {
    /// The peer closed the connection in an orderly way before the expected
    /// number of bytes had arrived.
    PeerClosed,
    /// The connection timed out or was reset.
    Interrupted,
    /// A read handed over more bytes than were asked for.
    Overrun,
    /// Chunks of zero bytes can move nothing.
    ZeroBuffer,
}

/// A path that leads out of the directory it is resolved under.
#[derive(Clone, Copy, Debug, PartialEq, Eq, Structural)]
pub struct PathEscapeError;

/// Neither port mapping nor direct discovery produced a reachable address.
#[derive(Clone, Copy, Debug, PartialEq, Eq, Structural)]
pub struct ReachabilityError;

/// The terminal outcome of a failed operation of a session engine.
#[derive(Clone, Copy, Debug, PartialEq, Eq, Structural)]
pub enum SessionError {
    /// The operation is not allowed in the engine's present state. Nothing was
    /// changed and no I/O is to be done.
    InvalidState,
    /// The listening endpoint could not be bound.
    Bind,
    /// The server could not be reached.
    Connect,
    /// A malformed request or frame.
    Protocol(ProtocolError),
    /// A path that resolves outside the served directory.
    PathEscape,
    /// The local file system refused a read or a write.
    Io,
    /// The connection dropped or miscounted in the middle of a transfer.
    Transport(TransportError),
}

} // verus!
