//! The caller's handle on one logical stream.

use crate::error::MuxError;
use crate::socket::{read_view, ReadOutcome};
use crate::WebSocketMultiplexor;
use vstd::prelude::*;

verus! {

/// A full-duplex byte stream of a multiplexor, named by its two ports. The
/// handle holds no data: every call goes to the multiplexor that made it.
#[derive(Debug)]
pub struct MuxStream {
    local_port: u16,
    remote_port: u16,
}

impl MuxStream {
    /// The pair of ports that names the stream.
    pub closed spec fn key(&self) -> (u16, u16) {
        (self.local_port, self.remote_port)
    }

    /// The handle on the stream that the two ports name.
    pub fn new(local_port: u16, remote_port: u16) -> (stream: Self)
        ensures
            stream.key() == (local_port, remote_port),
    {
        Self { local_port, remote_port }
    }

    /// This peer's port.
    pub fn local_port(&self) -> (port: u16)
        ensures
            port == self.key().0,
    {
        self.local_port
    }

    /// The peer's port.
    pub fn remote_port(&self) -> (port: u16)
        ensures
            port == self.key().1,
    {
        self.remote_port
    }

    /// How the handshake stands: `Ok(true)` once the stream is established,
    /// `Ok(false)` while the answer to `Syn` is awaited, `Other` when the
    /// stream was refused, reset or closed, `ConnectionReset` when the
    /// multiplexor is closed.
    pub fn handshake(&self, mux: &WebSocketMultiplexor) -> (result: Result<bool, MuxError>)
        requires
            mux@.wf(),
        ensures
            result == mux@.handshake(self.key()),
    {
        mux.inner.handshake(self.local_port, self.remote_port)
    }

    /// Reads at most `max_len` bytes: see `MuxView::read_outcome`.
    pub fn read(&self, mux: &mut WebSocketMultiplexor, max_len: usize) -> (result: Result<
        ReadOutcome,
        MuxError,
    >)
        requires
            old(mux)@.wf(),
        ensures
            read_view(result) == old(mux)@.read_outcome(self.key(), max_len as nat),
            final(mux)@ == old(mux)@.read(self.key(), max_len as nat),
            final(mux)@.wf(),
    {
        mux.inner.read(self.local_port, self.remote_port, max_len)
    }

    /// Writes `data` and returns how many bytes were taken: see
    /// `MuxView::write_outcome`. Fewer bytes than offered, or none, are
    /// taken while the outbound queue is full.
    pub fn write(&self, mux: &mut WebSocketMultiplexor, data: &[u8]) -> (result: Result<
        usize,
        MuxError,
    >)
        requires
            old(mux)@.wf(),
        ensures
            match result {
                Ok(accepted) => old(mux)@.write_outcome(self.key(), data@) == Ok::<nat, MuxError>(
                    accepted as nat,
                ),
                Err(error) => old(mux)@.write_outcome(self.key(), data@) == Err::<nat, MuxError>(
                    error,
                ),
            },
            final(mux)@ == old(mux)@.write(self.key(), data@),
            final(mux)@.wf(),
    {
        mux.inner.write(self.local_port, self.remote_port, data)
    }

    /// Gives the stream up: see `MuxView::close_stream`.
    pub fn close(self, mux: &mut WebSocketMultiplexor)
        requires
            old(mux)@.wf(),
        ensures
            final(mux)@ == old(mux)@.close_stream(self.key()),
            final(mux)@.wf(),
    {
        mux.inner.close_stream(self.local_port, self.remote_port)
    }
}

} // verus!
