//! Multiplex numbered byte streams over one ordered, message-oriented carrier.
//!
//! The crate is the protocol core of a stream multiplexor: the frame codec,
//! the per-connection state machine, and the port tables of one peer. It does
//! no I/O of its own. A driver feeds it the carrier's messages and the
//! caller's reads and writes, and sends what it hands back.

pub mod config;
pub mod error;
pub mod fidelity;
pub mod frame;
pub mod inner;
pub mod laws;
pub mod listener;
pub mod ports;
pub mod sequence;
pub mod socket;
pub mod stream;
pub mod table;
pub mod wire;

pub use config::Config;
pub use error::MuxError;
pub use frame::{Flag, Frame};
pub use inner::WebSocketMultiplexorInner;
pub use listener::MuxListener;
pub use socket::MuxSocket;
pub use stream::MuxStream;

use ports::ephemeral;
use table::MuxView;
use vstd::prelude::*;

verus! {

/// The stream multiplexor of one peer.
///
/// `bind` and `connect` are the caller's side. The three tasks of a driver
/// work on `inner`: the reader gives it the carrier's messages, the writer
/// takes from it the messages for the carrier, and the maintenance task
/// frees what was dropped.
#[derive(Debug)]
pub struct WebSocketMultiplexor {
    /// The state that the tasks share.
    pub inner: WebSocketMultiplexorInner,
}

impl View for WebSocketMultiplexor {
    type V = MuxView;

    open spec fn view(&self) -> MuxView {
        self.inner@
    }
}

impl WebSocketMultiplexor {
    /// Lets the reader and the writer of a paused multiplexor work.
    pub fn start(&mut self)
        requires
            old(self)@.wf(),
        ensures
            final(self)@ == old(self)@.start(),
            final(self)@.wf(),
    {
        self.inner.start();
    }

    /// Shuts the multiplexor down: it is no longer connected, and the next
    /// turn of the maintenance task resets its streams and frees its
    /// ports. Closing twice is closing once.
    pub fn close(&mut self)
        requires
            old(self)@.wf(),
        ensures
            final(self)@ == old(self)@.close(),
            final(self)@.wf(),
    {
        self.inner.close();
    }

    /// A multiplexor that runs from the start.
    pub fn new(config: Config) -> (mux: Self)
        requires
            config.is_valid(),
        ensures
            mux@ == MuxView::init(config, true),
            mux@.wf(),
    {
        Self::new_running(config, true)
    }

    /// A paused multiplexor: ports can be bound before the first frame is
    /// taken from the carrier. `start` lets it run.
    pub fn new_paused(config: Config) -> (mux: Self)
        requires
            config.is_valid(),
        ensures
            mux@ == MuxView::init(config, false),
            mux@.wf(),
    {
        Self::new_running(config, false)
    }

    fn new_running(config: Config, running: bool) -> (mux: Self)
        requires
            config.is_valid(),
        ensures
            mux@ == MuxView::init(config, running),
            mux@.wf(),
    {
        Self { inner: WebSocketMultiplexorInner::new(config, running) }
    }

    /// Binds `port`, or for port zero the first free ephemeral port on the
    /// walk from `start`.
    pub fn bind_from(&mut self, port: u16, start: u16) -> (result: Result<MuxListener, MuxError>)
        requires
            old(self)@.wf(),
            ephemeral(start),
        ensures
            match result {
                Ok(listener) => old(self)@.bind_port(port, start) == Ok::<u16, MuxError>(
                    listener.bound_port(),
                ),
                Err(error) => old(self)@.bind_port(port, start) == Err::<u16, MuxError>(error),
            },
            final(self)@ == old(self)@.bind(port, start),
            final(self)@.wf(),
    {
        match self.inner.bind_from(port, start) {
            Ok(bound) => Ok(MuxListener::new(bound)),
            Err(error) => Err(error),
        }
    }

    /// Binds `port` and returns its listener. It fails with
    /// `ConnectionReset` on a closed multiplexor and with `AddrInUse` where
    /// the port has a listener. Port zero asks for an ephemeral port that
    /// has none; it fails with `AddrInUse` only if all of them have one.
    pub fn bind(&mut self, port: u16) -> (result: Result<MuxListener, MuxError>)
        requires
            old(self)@.wf(),
        ensures
            exists|start: u16|
                ephemeral(start) && final(self)@ == #[trigger] old(self)@.bind(port, start)
                    && match result {
                    Ok(listener) => old(self)@.bind_port(port, start) == Ok::<u16, MuxError>(
                        listener.bound_port(),
                    ),
                    Err(error) => old(self)@.bind_port(port, start) == Err::<u16, MuxError>(error),
                },
            final(self)@.wf(),
            match result {
                Ok(listener) => {
                    &&& !old(self)@.has_listener(listener.bound_port())
                    &&& port == 0 ==> ephemeral(listener.bound_port())
                    &&& port != 0 ==> listener.bound_port() == port
                },
                Err(_) => true,
            },
    {
        match self.inner.bind(port) {
            Ok(bound) => Ok(MuxListener::new(bound)),
            Err(error) => Err(error),
        }
    }

    /// Opens a stream to `port` on the remote end from the first free
    /// ephemeral port on the walk from `start`.
    pub fn connect_from(&mut self, port: u16, start: u16) -> (result: Result<MuxStream, MuxError>)
        requires
            old(self)@.wf(),
            ephemeral(start),
        ensures
            match result {
                Ok(stream) => old(self)@.connect_port(port, start) == Ok::<u16, MuxError>(
                    stream.key().0,
                ) && stream.key().1 == port,
                Err(error) => old(self)@.connect_port(port, start) == Err::<u16, MuxError>(error),
            },
            final(self)@ == old(self)@.connect(port, start),
            final(self)@.wf(),
    {
        match self.inner.connect_from(port, start) {
            Ok(local_port) => Ok(MuxStream::new(local_port, port)),
            Err(error) => Err(error),
        }
    }

    /// Opens a stream to `port` on the remote end: the stream gets a free
    /// ephemeral local port, and its `Syn` waits for the carrier. The
    /// handshake is complete when the peer has answered; `handshake` on the
    /// stream tells. It fails with `ConnectionReset` on a closed
    /// multiplexor, and with `Other` only if no local port is free.
    pub fn connect(&mut self, port: u16) -> (result: Result<MuxStream, MuxError>)
        requires
            old(self)@.wf(),
        ensures
            exists|start: u16|
                ephemeral(start) && final(self)@ == #[trigger] old(self)@.connect(port, start)
                    && match result {
                    Ok(stream) => old(self)@.connect_port(port, start) == Ok::<u16, MuxError>(
                        stream.key().0,
                    ) && stream.key().1 == port,
                    Err(error) => old(self)@.connect_port(port, start) == Err::<u16, MuxError>(
                        error,
                    ),
                },
            final(self)@.wf(),
            match result {
                Ok(stream) => ephemeral(stream.key().0) && !old(self)@.has_connection(stream.key()),
                Err(_) => true,
            },
    {
        let ghost before = self@;
        match self.inner.connect(port) {
            Ok(local_port) => {
                let stream = MuxStream::new(local_port, port);
                proof {
                    let start = choose|start: u16|
                        ephemeral(start) && Ok::<u16, MuxError>(local_port) == before.connect_port(
                            port,
                            start,
                        ) && self@ == #[trigger] before.connect(port, start);
                    assert(ephemeral(start) && self@ == before.connect(port, start)
                        && before.connect_port(port, start) == Ok::<u16, MuxError>(
                        stream.key().0,
                    ));
                }
                Ok(stream)
            },
            Err(error) => {
                proof {
                    let start = choose|start: u16|
                        ephemeral(start) && Err::<u16, MuxError>(error) == before.connect_port(
                            port,
                            start,
                        ) && self@ == #[trigger] before.connect(port, start);
                    assert(ephemeral(start) && self@ == before.connect(port, start)
                        && before.connect_port(port, start) == Err::<u16, MuxError>(error));
                }
                Err(error)
            },
        }
    }

    /// Whether the multiplexor is connected: true from construction until
    /// it is closed or its carrier fails.
    pub fn watch_connected(&self) -> (connected: bool)
        ensures
            connected == self@.connected,
    {
        self.inner.is_connected()
    }
}

} // verus!
