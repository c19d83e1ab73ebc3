//! The errors that the multiplexor reports to its callers.

use vstd::prelude::*;

verus! {

/// Why an operation on the multiplexor or on one of its streams failed.
#[derive(Clone, Copy, Debug, PartialEq, Eq, Structural)]
pub enum MuxError {
    /// The multiplexor is closed, or the peer reset the stream.
    ConnectionReset,
    /// The port is bound already, or no port is free.
    AddrInUse,
    /// The stream can carry no more data: it was reset or closed, or the
    /// carrier is gone.
    BrokenPipe,
    /// The listener is closed, or a handshake did not complete.
    Other,
}

} // verus!
