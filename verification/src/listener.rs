//! The caller's handle on a bound port.

use crate::error::MuxError;
use crate::stream::MuxStream;
use crate::WebSocketMultiplexor;
use vstd::prelude::*;

verus! {

/// A bound port. Streams that peers open to the port wait in its accept
/// queue.
#[derive(Debug)]
pub struct MuxListener {
    port: u16,
}

impl MuxListener {
    /// The port as a mathematical value.
    pub closed spec fn bound_port(&self) -> u16 {
        self.port
    }

    pub(crate) fn new(port: u16) -> (listener: Self)
        ensures
            listener.bound_port() == port,
    {
        Self { port }
    }

    /// Takes the oldest stream that waits at the port: `Ok(None)` while
    /// none waits, `Other` when the listener or the multiplexor is closed.
    pub fn accept(&self, mux: &mut WebSocketMultiplexor) -> (result: Result<
        Option<MuxStream>,
        MuxError,
    >)
        requires
            old(mux)@.wf(),
        ensures
            match result {
                Ok(Some(stream)) => old(mux)@.accept_outcome(self.bound_port()) == Ok::<
                    Option<(u16, u16)>,
                    MuxError,
                >(Some(stream.key())),
                Ok(None) => old(mux)@.accept_outcome(self.bound_port()) == Ok::<
                    Option<(u16, u16)>,
                    MuxError,
                >(None),
                Err(error) => old(mux)@.accept_outcome(self.bound_port()) == Err::<
                    Option<(u16, u16)>,
                    MuxError,
                >(error),
            },
            final(mux)@ == old(mux)@.accept(self.bound_port()),
            final(mux)@.wf(),
    {
        match mux.inner.accept(self.port) {
            Ok(Some(key)) => Ok(Some(MuxStream::new(key.0, key.1))),
            Ok(None) => Ok(None),
            Err(error) => Err(error),
        }
    }

    /// The port that the listener is bound to.
    #[must_use]
    pub fn port(&self) -> (port: u16)
        ensures
            port == self.bound_port(),
    {
        self.port
    }

    /// Gives the listener up. The port waits to be freed by the maintenance
    /// task; streams that were accepted go on.
    pub fn close(self, mux: &mut WebSocketMultiplexor)
        requires
            old(mux)@.wf(),
        ensures
            final(mux)@ == old(mux)@.release_listener(self.bound_port()),
            final(mux)@.wf(),
    {
        mux.inner.release_listener(self.port)
    }
}

} // verus!
