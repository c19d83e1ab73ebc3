//! The state of one peer as a mathematical value, and what each event does
//! to it: the port tables, the queues between the tasks, and the rules by
//! which frames find their streams.

use crate::config::{Config, FRAME_OVERHEAD};
use crate::error::MuxError;
use crate::frame::{Flag, FrameError, FrameView};
use crate::ports::{first_free, has_free};
use crate::socket::{ReadView, Role, SocketState, SocketStep, SocketView};
use tungstenite::Message;
use vstd::prelude::*;

verus! {

/// A bound port and the streams that wait there to be accepted.
pub struct ListenerView {
    pub port: u16,
    /// The streams in the accept queue, oldest first, each named by its
    /// local and remote port.
    pub queue: Seq<(u16, u16)>,
}

/// One peer's multiplexor as a mathematical value.
pub struct MuxView {
    pub config: Config,
    /// The carrier is in order.
    pub connected: bool,
    /// The reader and the writer may work.
    pub running: bool,
    /// The streams, each named by its local and remote port.
    pub connections: Seq<SocketView>,
    /// The bound ports.
    pub listeners: Seq<ListenerView>,
    /// Ports whose listeners were dropped and wait to be freed.
    pub may_close_listeners: Seq<u16>,
    /// Streams that are over and wait to leave the table.
    pub may_close_connections: Seq<(u16, u16)>,
    /// Frames that wait for the carrier, oldest first.
    pub outbound: Seq<FrameView>,
    /// How many frames were dropped for their size; the count stops at the
    /// largest number.
    pub oversize_frames: u64,
}

/// What the reader did with one carrier message.
#[derive(Clone, Copy, Debug, PartialEq, Eq, Structural)]
pub enum ReaderStep {
    /// The multiplexor is paused; nothing was done.
    Parked,
    /// The multiplexor is closed; nothing was done.
    Stopped,
    /// The message holds no frame and was dropped.
    Invalid(FrameError),
    /// The frame is larger than the configuration allows and was dropped.
    Oversize,
    /// The accept queue of the listener is full; nothing was done, and the
    /// frame has to be routed again when the queue has room.
    Blocked,
    /// A `Syn` opened a stream at a listener.
    Accepted { local_port: u16, remote_port: u16 },
    /// The frame went to the stream it names.
    Delivered { local_port: u16, remote_port: u16 },
    /// The frame names no stream and was answered with `Rst`.
    Refused,
    /// A `Rst` that names no stream was dropped.
    Ignored,
}

/// What the maintenance task did, as a mathematical value.
pub enum MaintenanceView {
    /// Nothing waits.
    Idle,
    /// The multiplexor is closed: these streams were reset and dropped.
    Drained(Seq<SocketView>),
    /// A stream that was over left the table.
    ConnectionFreed { local_port: u16, remote_port: u16 },
    /// A port whose listener was dropped is free again.
    ListenerFreed { port: u16 },
}

impl MuxView {
    /// A multiplexor with empty tables over a carrier that is in order.
    pub open spec fn init(config: Config, running: bool) -> MuxView {
        MuxView {
            config,
            connected: true,
            running,
            connections: Seq::empty(),
            listeners: Seq::empty(),
            may_close_listeners: Seq::empty(),
            may_close_connections: Seq::empty(),
            outbound: Seq::empty(),
            oversize_frames: 0,
        }
    }

    /// Some stream is named `key`.
    pub open spec fn has_connection(self, key: (u16, u16)) -> bool {
        exists|i: int| 0 <= i < self.connections.len() && (#[trigger] self.connections[i]).key() == key
    }

    /// Where in the table the stream named `key` lies, if there is one.
    pub open spec fn connection_index(self, key: (u16, u16)) -> int {
        choose|i: int| 0 <= i < self.connections.len() && (#[trigger] self.connections[i]).key() == key
    }

    /// The stream named `key`, if there is one.
    pub open spec fn connection(self, key: (u16, u16)) -> SocketView {
        self.connections[self.connection_index(key)]
    }

    /// Some listener is bound to `port`.
    pub open spec fn has_listener(self, port: u16) -> bool {
        exists|i: int| 0 <= i < self.listeners.len() && (#[trigger] self.listeners[i]).port == port
    }

    /// Where in the table the listener of `port` lies, if there is one.
    pub open spec fn listener_index(self, port: u16) -> int {
        choose|i: int| 0 <= i < self.listeners.len() && (#[trigger] self.listeners[i]).port == port
    }

    /// The listener of `port`, if there is one.
    pub open spec fn listener(self, port: u16) -> ListenerView {
        self.listeners[self.listener_index(port)]
    }

    /// The tables are in order: no two listeners share a port, no two
    /// streams share the pair of their ports, no accept queue is over its
    /// limit, every stream is in order, and so is the configuration.
    pub open spec fn wf(self) -> bool {
        &&& self.config.is_valid()
        &&& forall|i: int| 0 <= i < self.connections.len() ==> (#[trigger] self.connections[i]).wf()
        &&& forall|i: int, j: int|
            0 <= i < j < self.connections.len() ==> (#[trigger] self.connections[i]).key() != (
            #[trigger] self.connections[j]).key()
        &&& forall|i: int, j: int|
            0 <= i < j < self.listeners.len() ==> (#[trigger] self.listeners[i]).port != (
            #[trigger] self.listeners[j]).port
        &&& forall|i: int|
            0 <= i < self.listeners.len() ==> (#[trigger] self.listeners[i]).queue.len()
                <= self.config.accept_queue_len
    }

    /// The ports that listeners are bound to.
    pub open spec fn bound_ports(self) -> Set<u16> {
        Set::new(|port: u16| self.has_listener(port))
    }

    /// The local ports of the streams that lead to `remote_port`.
    pub open spec fn local_ports_to(self, remote_port: u16) -> Set<u16> {
        Set::new(|port: u16| self.has_connection((port, remote_port)))
    }

    /// The table of streams without the one named `key`.
    pub open spec fn without_connection(self, key: (u16, u16)) -> Seq<SocketView> {
        if self.has_connection(key) {
            self.connections.remove(self.connection_index(key))
        } else {
            self.connections
        }
    }

    /// The port that a call of `bind` binds, or the reason it binds none. A
    /// closed multiplexor binds nothing. Port zero asks for the first free
    /// ephemeral port on the walk from `start`. Any other port is bound
    /// unless a listener has it.
    pub open spec fn bind_port(self, port: u16, start: u16) -> Result<u16, MuxError> {
        if !self.connected {
            Err(MuxError::ConnectionReset)
        } else if port == 0 {
            if has_free(self.bound_ports()) {
                Ok(first_free(self.bound_ports(), start))
            } else {
                Err(MuxError::AddrInUse)
            }
        } else if self.has_listener(port) {
            Err(MuxError::AddrInUse)
        } else {
            Ok(port)
        }
    }

    /// The multiplexor after `bind`: the port that was bound has a listener
    /// with an empty accept queue.
    pub open spec fn bind(self, port: u16, start: u16) -> MuxView {
        match self.bind_port(port, start) {
            Ok(bound) => MuxView {
                listeners: self.listeners.push(ListenerView { port: bound, queue: Seq::empty() }),
                ..self
            },
            Err(_) => self,
        }
    }

    /// The local port that a call of `connect` takes, or the reason it
    /// takes none. A closed multiplexor connects nothing. The port is the
    /// first ephemeral port on the walk from `start` that no stream to
    /// `remote_port` has.
    pub open spec fn connect_port(self, remote_port: u16, start: u16) -> Result<u16, MuxError> {
        if !self.connected {
            Err(MuxError::ConnectionReset)
        } else if has_free(self.local_ports_to(remote_port)) {
            Ok(first_free(self.local_ports_to(remote_port), start))
        } else {
            Err(MuxError::Other)
        }
    }

    /// The multiplexor after `connect`: a client stream has been opened,
    /// and its `Syn` waits for the carrier.
    pub open spec fn connect(self, remote_port: u16, start: u16) -> MuxView {
        match self.connect_port(remote_port, start) {
            Ok(local_port) => {
                let step = SocketView::fresh(local_port, remote_port, Role::Client).start();
                MuxView {
                    connections: self.connections.push(step.socket),
                    outbound: self.outbound.push(step.reply->0),
                    ..self
                }
            },
            Err(_) => self,
        }
    }

    /// The multiplexor after the stream at `index` has taken a step: the
    /// stream's answer waits for the carrier, and a stream that is over
    /// waits to leave the table.
    pub open spec fn with_step(self, index: int, step: SocketStep) -> MuxView {
        MuxView {
            connections: self.connections.update(index, step.socket),
            outbound: match step.reply {
                Some(frame) => self.outbound.push(frame),
                None => self.outbound,
            },
            may_close_connections: if step.release {
                self.may_close_connections.push(self.connections[index].key())
            } else {
                self.may_close_connections
            },
            ..self
        }
    }

    /// A frame counts as larger than the configuration allows.
    pub open spec fn oversize(self, frame: FrameView) -> bool {
        frame.data.len() + FRAME_OVERHEAD > self.config.max_frame_size
    }

    /// Where a frame goes.
    ///
    /// 1. A `Syn` for a port with a listener opens a server stream named by
    ///    the frame's destination and source port. It takes the place of
    ///    any stream of that name, answers with `SynAck` and joins the
    ///    listener's accept queue. With a full queue nothing happens and
    ///    the frame has to come again.
    /// 2. Otherwise a frame for an existing stream is given to it.
    /// 3. Otherwise a frame other than `Rst` is answered with a `Rst` that
    ///    has the ports swapped.
    /// 4. Otherwise the frame is dropped.
    pub open spec fn dispatch(self, frame: FrameView) -> (MuxView, ReaderStep) {
        let key = (frame.dport, frame.sport);
        if frame.flag == Flag::Syn && self.has_listener(frame.dport) {
            let at = self.listener_index(frame.dport);
            let listener = self.listeners[at];
            if listener.queue.len() >= self.config.accept_queue_len {
                (self, ReaderStep::Blocked)
            } else {
                let step = SocketView::fresh(frame.dport, frame.sport, Role::Server).on_frame(
                    frame,
                );
                (
                    MuxView {
                        connections: self.without_connection(key).push(step.socket),
                        listeners: self.listeners.update(
                            at,
                            ListenerView { queue: listener.queue.push(key), ..listener },
                        ),
                        outbound: self.outbound.push(step.reply->0),
                        ..self
                    },
                    ReaderStep::Accepted { local_port: frame.dport, remote_port: frame.sport },
                )
            }
        } else if self.has_connection(key) {
            let index = self.connection_index(key);
            (
                self.with_step(index, self.connections[index].on_frame(frame)),
                ReaderStep::Delivered { local_port: frame.dport, remote_port: frame.sport },
            )
        } else if frame.flag != Flag::Rst {
            (
                MuxView { outbound: self.outbound.push(frame.reply(Flag::Rst, 0)), ..self },
                ReaderStep::Refused,
            )
        } else {
            (self, ReaderStep::Ignored)
        }
    }

    /// The multiplexor after one more frame was dropped for its size.
    pub open spec fn counted(self) -> MuxView {
        MuxView {
            oversize_frames: if self.oversize_frames == u64::MAX {
                self.oversize_frames
            } else {
                (self.oversize_frames + 1) as u64
            },
            ..self
        }
    }

    /// What the reader does with one frame. Paused or closed, it does
    /// nothing. A frame that is too large is dropped and counted. Every
    /// other frame is dispatched.
    pub open spec fn route(self, frame: FrameView) -> (MuxView, ReaderStep) {
        if !self.running {
            (self, ReaderStep::Parked)
        } else if !self.connected {
            (self, ReaderStep::Stopped)
        } else if self.oversize(frame) {
            (self.counted(), ReaderStep::Oversize)
        } else {
            self.dispatch(frame)
        }
    }

    /// The multiplexor after the reader has routed the frames of `frames`
    /// one by one.
    pub open spec fn route_all(self, frames: Seq<FrameView>) -> MuxView
        decreases frames.len(),
    {
        if frames.len() == 0 {
            self
        } else {
            self.route(frames.first()).0.route_all(frames.drop_first())
        }
    }

    /// What the reader does with one carrier message. Paused or closed, it
    /// does nothing. A message that holds no frame is dropped. Every other
    /// message is routed as the frame it holds.
    pub open spec fn receive(self, message: Message) -> (MuxView, ReaderStep) {
        if !self.running {
            (self, ReaderStep::Parked)
        } else if !self.connected {
            (self, ReaderStep::Stopped)
        } else {
            match FrameView::of_message(message) {
                Err(error) => (self, ReaderStep::Invalid(error)),
                Ok(frame) => self.route(frame),
            }
        }
    }

    /// The frame that the writer sends next: the oldest that waits, while
    /// the multiplexor runs and is connected.
    pub open spec fn next_outbound(self) -> Option<FrameView> {
        if self.running && self.connected && self.outbound.len() > 0 {
            Some(self.outbound[0])
        } else {
            None
        }
    }

    /// The multiplexor after the writer has taken the frame it sends next.
    pub open spec fn after_transmit(self) -> MuxView {
        if self.next_outbound() is Some {
            MuxView { outbound: self.outbound.drop_first(), ..self }
        } else {
            self
        }
    }

    /// Closing by the caller of the stream named `key`; nothing happens
    /// where no stream has the name.
    pub open spec fn close_stream(self, key: (u16, u16)) -> MuxView {
        if self.has_connection(key) {
            let index = self.connection_index(key);
            self.with_step(index, self.connections[index].close())
        } else {
            self
        }
    }

    /// Closing of the streams named by `keys`, one after the other.
    pub open spec fn close_streams(self, keys: Seq<(u16, u16)>) -> MuxView
        decreases keys.len(),
    {
        if keys.len() == 0 {
            self
        } else {
            self.close_stream(keys.first()).close_streams(keys.drop_first())
        }
    }

    /// The oldest signal of a dropped listener is taken: the port is free
    /// again, and the streams that nobody accepted are closed.
    pub open spec fn free_listener(self) -> MuxView {
        if self.may_close_listeners.len() == 0 {
            self
        } else {
            let port = self.may_close_listeners[0];
            let rest = MuxView {
                may_close_listeners: self.may_close_listeners.drop_first(),
                ..self
            };
            if rest.has_listener(port) {
                let at = rest.listener_index(port);
                (MuxView { listeners: rest.listeners.remove(at), ..rest }).close_streams(
                    rest.listeners[at].queue,
                )
            } else {
                rest
            }
        }
    }

    /// The oldest signal of a finished stream is taken: the stream leaves
    /// the table.
    pub open spec fn free_connection(self) -> MuxView {
        if self.may_close_connections.len() == 0 {
            self
        } else {
            MuxView {
                may_close_connections: self.may_close_connections.drop_first(),
                connections: self.without_connection(self.may_close_connections[0]),
                ..self
            }
        }
    }

    /// The multiplexor after the loss of its carrier has been dealt with:
    /// no stream, no listener, and nothing in any queue.
    pub open spec fn drained(self) -> MuxView {
        MuxView {
            connections: Seq::empty(),
            listeners: Seq::empty(),
            may_close_listeners: Seq::empty(),
            may_close_connections: Seq::empty(),
            outbound: Seq::empty(),
            ..self
        }
    }

    /// One turn of the maintenance task. A closed multiplexor is drained.
    /// Otherwise the oldest signal is served, finished streams before
    /// dropped listeners.
    pub open spec fn maintain(self) -> (MuxView, MaintenanceView) {
        if !self.connected {
            (
                self.drained(),
                MaintenanceView::Drained(
                    self.connections.map_values(|socket: SocketView| socket.carrier_lost()),
                ),
            )
        } else if self.may_close_connections.len() > 0 {
            (
                self.free_connection(),
                MaintenanceView::ConnectionFreed {
                    local_port: self.may_close_connections[0].0,
                    remote_port: self.may_close_connections[0].1,
                },
            )
        } else if self.may_close_listeners.len() > 0 {
            (
                self.free_listener(),
                MaintenanceView::ListenerFreed { port: self.may_close_listeners[0] },
            )
        } else {
            (self, MaintenanceView::Idle)
        }
    }

    /// How many more frames the outbound queue takes from writers.
    pub open spec fn room(self) -> nat {
        if self.outbound.len() < self.config.max_queued_frames {
            (self.config.max_queued_frames - self.outbound.len()) as nat
        } else {
            0
        }
    }

    /// A write to the stream named `key` is possible: the multiplexor is
    /// connected and the stream exists and takes data.
    pub open spec fn writable(self, key: (u16, u16)) -> bool {
        self.connected && self.has_connection(key) && self.connection(key).can_send()
    }

    /// How many bytes a write to the stream named `key` takes, or the
    /// broken pipe that it meets.
    pub open spec fn write_outcome(self, key: (u16, u16), data: Seq<u8>) -> Result<nat, MuxError> {
        if self.writable(key) {
            Ok(SocketView::accepted_len(data.len(), self.config.buf_size as nat, self.room()))
        } else {
            Err(MuxError::BrokenPipe)
        }
    }

    /// The multiplexor after a write: the data frames wait for the carrier
    /// behind what waited before.
    pub open spec fn write(self, key: (u16, u16), data: Seq<u8>) -> MuxView {
        if self.writable(key) {
            let index = self.connection_index(key);
            let socket = self.connections[index];
            let frames = socket.chunk_frames(data, self.config.buf_size as nat, self.room());
            MuxView {
                connections: self.connections.update(index, socket.after_sends(frames.len())),
                outbound: self.outbound + frames,
                ..self
            }
        } else {
            self
        }
    }

    /// What a read from the stream named `key` finds. Under a closed
    /// multiplexor the pipe is broken. A stream that has left the table is
    /// at its end.
    pub open spec fn read_outcome(self, key: (u16, u16), max_len: nat) -> Result<
        ReadView,
        MuxError,
    > {
        if !self.connected {
            Err(MuxError::BrokenPipe)
        } else if !self.has_connection(key) {
            Ok(ReadView::Eof)
        } else {
            self.connection(key).read_outcome(max_len)
        }
    }

    /// The multiplexor after a read.
    pub open spec fn read(self, key: (u16, u16), max_len: nat) -> MuxView {
        if self.connected && self.has_connection(key) {
            let index = self.connection_index(key);
            MuxView {
                connections: self.connections.update(
                    index,
                    self.connections[index].after_read(max_len),
                ),
                ..self
            }
        } else {
            self
        }
    }

    /// How the handshake of the stream named `key` stands: complete, not
    /// yet complete, or failed. Under a closed multiplexor the connection
    /// is reset; a stream that is gone, reset or closed has failed.
    pub open spec fn handshake(self, key: (u16, u16)) -> Result<bool, MuxError> {
        if !self.connected {
            Err(MuxError::ConnectionReset)
        } else if !self.has_connection(key) {
            Err(MuxError::Other)
        } else {
            let state = self.connection(key).state;
            if state == SocketState::SynSent {
                Ok(false)
            } else if state == SocketState::Reset || state == SocketState::Closed {
                Err(MuxError::Other)
            } else {
                Ok(true)
            }
        }
    }

    /// What `accept` finds at `port`: the oldest stream of the accept
    /// queue, nothing yet, or no listener any more.
    pub open spec fn accept_outcome(self, port: u16) -> Result<Option<(u16, u16)>, MuxError> {
        if !self.connected || !self.has_listener(port) {
            Err(MuxError::Other)
        } else if self.listener(port).queue.len() == 0 {
            Ok(None)
        } else {
            Ok(Some(self.listener(port).queue[0]))
        }
    }

    /// The multiplexor after `accept`: the stream that was handed out has
    /// left the accept queue.
    pub open spec fn accept(self, port: u16) -> MuxView {
        match self.accept_outcome(port) {
            Ok(Some(_)) => {
                let at = self.listener_index(port);
                let listener = self.listeners[at];
                MuxView {
                    listeners: self.listeners.update(
                        at,
                        ListenerView { queue: listener.queue.drop_first(), ..listener },
                    ),
                    ..self
                }
            },
            _ => self,
        }
    }

    /// The multiplexor after the listener of `port` was dropped: the port
    /// waits to be freed.
    pub open spec fn release_listener(self, port: u16) -> MuxView {
        MuxView { may_close_listeners: self.may_close_listeners.push(port), ..self }
    }

    /// The multiplexor after `close`: not connected.
    pub open spec fn close(self) -> MuxView {
        MuxView { connected: false, ..self }
    }

    /// The multiplexor after `start`: running.
    pub open spec fn start(self) -> MuxView {
        MuxView { running: true, ..self }
    }
}

/// In tables that are in order a stream is found where it lies.
pub proof fn lemma_connection_at(mux: MuxView, index: int)
    requires
        mux.wf(),
        0 <= index < mux.connections.len(),
    ensures
        mux.has_connection(mux.connections[index].key()),
        mux.connection_index(mux.connections[index].key()) == index,
{
    let key = mux.connections[index].key();
    let found = mux.connection_index(key);
    assert(mux.connections[found].key() == key);
}

/// In tables that are in order a listener is found where it lies.
pub proof fn lemma_listener_at(mux: MuxView, index: int)
    requires
        mux.wf(),
        0 <= index < mux.listeners.len(),
    ensures
        mux.has_listener(mux.listeners[index].port),
        mux.listener_index(mux.listeners[index].port) == index,
{
    let port = mux.listeners[index].port;
    let found = mux.listener_index(port);
    assert(mux.listeners[found].port == port);
}

/// Whether tables are in order depends on the streams, the listeners and
/// the configuration alone.
pub proof fn lemma_same_tables(mux: MuxView, other: MuxView)
    requires
        mux.wf(),
        other.connections == mux.connections,
        other.listeners == mux.listeners,
        other.config == mux.config,
    ensures
        other.wf(),
{
}

/// Tables stay in order when a stream changes and keeps its name.
pub proof fn lemma_update_keeps_order(mux: MuxView, index: int, socket: SocketView)
    requires
        mux.wf(),
        0 <= index < mux.connections.len(),
        socket.wf(),
        socket.key() == mux.connections[index].key(),
    ensures
        (MuxView { connections: mux.connections.update(index, socket), ..mux }).wf(),
{
    let after = MuxView { connections: mux.connections.update(index, socket), ..mux };
    assert forall|i: int, j: int| 0 <= i < j < after.connections.len() implies (
    #[trigger] after.connections[i]).key() != (#[trigger] after.connections[j]).key() by {
        assert(after.connections[i].key() == mux.connections[i].key());
        assert(after.connections[j].key() == mux.connections[j].key());
    }
    assert forall|i: int| 0 <= i < after.connections.len() implies (
    #[trigger] after.connections[i]).wf() by {
        if i != index {
            assert(after.connections[i] == mux.connections[i]);
        }
    }
}

/// Tables stay in order when a stream leaves.
pub proof fn lemma_remove_keeps_order(mux: MuxView, index: int)
    requires
        mux.wf(),
        0 <= index < mux.connections.len(),
    ensures
        (MuxView { connections: mux.connections.remove(index), ..mux }).wf(),
        forall|i: int|
            0 <= i < mux.connections.len() - 1 ==> (#[trigger] mux.connections.remove(
                index,
            )[i]).key() != mux.connections[index].key(),
{
    let after = MuxView { connections: mux.connections.remove(index), ..mux };
    assert forall|i: int, j: int| 0 <= i < j < after.connections.len() implies (
    #[trigger] after.connections[i]).key() != (#[trigger] after.connections[j]).key() by {
        let i0 = if i < index { i } else { i + 1 };
        let j0 = if j < index { j } else { j + 1 };
        assert(after.connections[i] == mux.connections[i0]);
        assert(after.connections[j] == mux.connections[j0]);
    }
    assert forall|i: int| 0 <= i < after.connections.len() implies (
    #[trigger] after.connections[i]).wf() && after.connections[i].key()
        != mux.connections[index].key() by {
        let i0 = if i < index { i } else { i + 1 };
        assert(after.connections[i] == mux.connections[i0]);
    }
}

} // verus!
