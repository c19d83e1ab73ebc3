//! The state of one peer: the port tables, the queues between the tasks,
//! and one step of each of the three tasks that work on them.

use crate::config::{Config, FRAME_OVERHEAD};
use crate::error::MuxError;
use crate::frame::{Flag, Frame, FrameError, FrameView};
use crate::ports::{
    ephemeral, lemma_first_free_unique, probe, random_in_range, EPHEMERAL_END, EPHEMERAL_MIN,
};
use crate::socket::{
    frames_view, read_view, reply_view, MuxSocket, ReadOutcome, Reaction, Role, SocketState,
    SocketStep, SocketView,
};
use crate::table::{
    lemma_connection_at, lemma_listener_at, lemma_remove_keeps_order, lemma_same_tables,
    lemma_update_keeps_order, ListenerView, MaintenanceView, MuxView, ReaderStep,
};
use crate::wire::binary_payload;
use tungstenite::Message;
use vstd::prelude::*;

verus! {

/// What the reader did with a message or a frame.
#[derive(Debug)]
pub struct Received {
    /// What was done.
    pub step: ReaderStep,
    /// The frame that found a full accept queue, handed back so that it can
    /// be routed again.
    pub held: Option<Frame>,
}

/// What the writer has to do next.
#[derive(Debug)]
pub enum WriterStep {
    /// The multiplexor is paused.
    Parked,
    /// The multiplexor is closed: the writer is done.
    Stopped,
    /// Nothing waits for the carrier.
    Idle,
    /// This message has left the queue and goes to the carrier.
    Send(Message),
}

/// What the maintenance task did.
#[derive(Debug)]
pub enum Maintenance {
    /// Nothing waits.
    Idle,
    /// The multiplexor is closed: these streams were reset and dropped.
    Drained(Vec<MuxSocket>),
    /// A stream that was over left the table.
    ConnectionFreed { local_port: u16, remote_port: u16 },
    /// A port whose listener was dropped is free again.
    ListenerFreed { port: u16 },
}

impl View for Maintenance {
    type V = MaintenanceView;

    open spec fn view(&self) -> MaintenanceView {
        match self {
            Maintenance::Idle => MaintenanceView::Idle,
            Maintenance::Drained(sockets) => MaintenanceView::Drained(
                sockets@.map_values(|socket: MuxSocket| socket@),
            ),
            Maintenance::ConnectionFreed { local_port, remote_port } => {
                MaintenanceView::ConnectionFreed {
                    local_port: *local_port,
                    remote_port: *remote_port,
                }
            },
            Maintenance::ListenerFreed { port } => MaintenanceView::ListenerFreed { port: *port },
        }
    }
}

/// A bound port and its accept queue.
#[derive(Debug)]
struct AcceptQueue {
    port: u16,
    queue: Vec<(u16, u16)>,
}

impl View for AcceptQueue {
    type V = ListenerView;

    closed spec fn view(&self) -> ListenerView {
        ListenerView { port: self.port, queue: self.queue@ }
    }
}

/// The state that the tasks of one multiplexor share.
#[derive(Debug)]
pub struct WebSocketMultiplexorInner {
    config: Config,
    connected: bool,
    running: bool,
    port_connections: Vec<MuxSocket>,
    port_listeners: Vec<AcceptQueue>,
    may_close_listeners: Vec<u16>,
    may_close_connections: Vec<(u16, u16)>,
    send: Vec<Frame>,
    oversize_frames: u64,
}

impl View for WebSocketMultiplexorInner {
    type V = MuxView;

    closed spec fn view(&self) -> MuxView {
        MuxView {
            config: self.config,
            connected: self.connected,
            running: self.running,
            connections: self.port_connections@.map_values(|socket: MuxSocket| socket@),
            listeners: self.port_listeners@.map_values(|listener: AcceptQueue| listener@),
            may_close_listeners: self.may_close_listeners@,
            may_close_connections: self.may_close_connections@,
            outbound: frames_view(self.send@),
            oversize_frames: self.oversize_frames,
        }
    }
}

impl WebSocketMultiplexorInner {
    /// A multiplexor with empty tables, running or paused.
    pub fn new(config: Config, running: bool) -> (inner: Self)
        requires
            config.is_valid(),
        ensures
            inner@ == MuxView::init(config, running),
            inner@.wf(),
    {
        let inner = Self {
            config,
            connected: true,
            running,
            port_connections: Vec::new(),
            port_listeners: Vec::new(),
            may_close_listeners: Vec::new(),
            may_close_connections: Vec::new(),
            send: Vec::new(),
            oversize_frames: 0,
        };
        assert(inner@.connections =~= Seq::empty());
        assert(inner@.listeners =~= Seq::empty());
        assert(inner@.outbound =~= Seq::empty());
        inner
    }

    /// The configuration that the multiplexor was made with.
    pub fn config(&self) -> (config: Config)
        ensures
            config == self@.config,
    {
        self.config
    }

    /// Whether the carrier is in order.
    pub fn is_connected(&self) -> (connected: bool)
        ensures
            connected == self@.connected,
    {
        self.connected
    }

    /// Whether the reader and the writer may work.
    pub fn is_running(&self) -> (running: bool)
        ensures
            running == self@.running,
    {
        self.running
    }

    /// How many streams the table holds.
    pub fn connection_count(&self) -> (count: usize)
        ensures
            count == self@.connections.len(),
    {
        self.port_connections.len()
    }

    /// How many ports are bound.
    pub fn listener_count(&self) -> (count: usize)
        ensures
            count == self@.listeners.len(),
    {
        self.port_listeners.len()
    }

    /// How many frames were dropped for their size.
    pub fn oversize_frames(&self) -> (count: u64)
        ensures
            count == self@.oversize_frames,
    {
        self.oversize_frames
    }

    /// How many frames wait for the carrier.
    pub fn outbound_len(&self) -> (len: usize)
        ensures
            len == self@.outbound.len(),
    {
        self.send.len()
    }

    /// Whether a listener is bound to `port`.
    pub fn is_bound(&self, port: u16) -> (bound: bool)
        requires
            self@.wf(),
        ensures
            bound == self@.has_listener(port),
    {
        self.find_listener(port).is_some()
    }

    /// The state of the stream named by the two ports, if there is one.
    pub fn state_of(&self, local_port: u16, remote_port: u16) -> (state: Option<SocketState>)
        requires
            self@.wf(),
        ensures
            state is Some == self@.has_connection((local_port, remote_port)),
            state is Some ==> state->0 == self@.connection((local_port, remote_port)).state,
    {
        match self.find_connection(local_port, remote_port) {
            Some(index) => Some(self.port_connections[index].state()),
            None => None,
        }
    }

    /// The names of the streams, in the order of the table. No name occurs
    /// twice.
    pub fn connection_keys(&self) -> (keys: Vec<(u16, u16)>)
        requires
            self@.wf(),
        ensures
            keys@ == self@.connections.map_values(|socket: SocketView| socket.key()),
            keys@.no_duplicates(),
    {
        let mut keys: Vec<(u16, u16)> = Vec::new();
        let mut i: usize = 0;
        while i < self.port_connections.len()
            invariant
                i <= self.port_connections.len(),
                keys@.len() == i,
                forall|j: int| 0 <= j < i ==> keys@[j] == (#[trigger] self@.connections[j]).key(),
            decreases self.port_connections.len() - i,
        {
            let socket = &self.port_connections[i];
            keys.push((socket.local_port(), socket.remote_port()));
            i += 1;
        }
        proof {
            assert(keys@ =~= self@.connections.map_values(|socket: SocketView| socket.key()));
            assert forall|a: int, b: int| 0 <= a < keys@.len() && 0 <= b < keys@.len() && a
                != b implies keys@[a] != keys@[b] by {
                if a < b {
                    assert(self@.connections[a].key() != self@.connections[b].key());
                } else {
                    assert(self@.connections[b].key() != self@.connections[a].key());
                }
            }
        }
        keys
    }

    /// The bound ports, in the order of the table. No port occurs twice.
    pub fn listener_ports(&self) -> (ports: Vec<u16>)
        requires
            self@.wf(),
        ensures
            ports@ == self@.listeners.map_values(|listener: ListenerView| listener.port),
            ports@.no_duplicates(),
    {
        let mut ports: Vec<u16> = Vec::new();
        let mut i: usize = 0;
        while i < self.port_listeners.len()
            invariant
                i <= self.port_listeners.len(),
                ports@.len() == i,
                forall|j: int| 0 <= j < i ==> ports@[j] == (#[trigger] self@.listeners[j]).port,
            decreases self.port_listeners.len() - i,
        {
            ports.push(self.port_listeners[i].port);
            i += 1;
        }
        proof {
            assert(ports@ =~= self@.listeners.map_values(|listener: ListenerView| listener.port));
            assert forall|a: int, b: int| 0 <= a < ports@.len() && 0 <= b < ports@.len() && a
                != b implies ports@[a] != ports@[b] by {
                if a < b {
                    assert(self@.listeners[a].port != self@.listeners[b].port);
                } else {
                    assert(self@.listeners[b].port != self@.listeners[a].port);
                }
            }
        }
        ports
    }

    /// Where the stream named by the two ports lies in the table.
    fn find_connection(&self, local_port: u16, remote_port: u16) -> (found: Option<usize>)
        requires
            self@.wf(),
        ensures
            match found {
                Some(index) => {
                    &&& index < self@.connections.len()
                    &&& self@.has_connection((local_port, remote_port))
                    &&& self@.connection_index((local_port, remote_port)) == index
                },
                None => !self@.has_connection((local_port, remote_port)),
            },
    {
        let mut i: usize = 0;
        while i < self.port_connections.len()
            invariant
                self@.wf(),
                i <= self.port_connections.len(),
                forall|j: int|
                    0 <= j < i ==> (#[trigger] self@.connections[j]).key() != (
                        local_port,
                        remote_port,
                    ),
            decreases self.port_connections.len() - i,
        {
            let socket = &self.port_connections[i];
            if socket.local_port() == local_port && socket.remote_port() == remote_port {
                proof {
                    assert(self@.connections[i as int].key() == (local_port, remote_port));
                    lemma_connection_at(self@, i as int);
                }
                return Some(i);
            }
            i += 1;
        }
        None
    }

    /// Where the listener of `port` lies in the table.
    fn find_listener(&self, port: u16) -> (found: Option<usize>)
        requires
            self@.wf(),
        ensures
            match found {
                Some(index) => {
                    &&& index < self@.listeners.len()
                    &&& self@.has_listener(port)
                    &&& self@.listener_index(port) == index
                },
                None => !self@.has_listener(port),
            },
    {
        let mut i: usize = 0;
        while i < self.port_listeners.len()
            invariant
                self@.wf(),
                i <= self.port_listeners.len(),
                forall|j: int| 0 <= j < i ==> (#[trigger] self@.listeners[j]).port != port,
            decreases self.port_listeners.len() - i,
        {
            if self.port_listeners[i].port == port {
                proof {
                    assert(self@.listeners[i as int].port == port);
                    lemma_listener_at(self@, i as int);
                }
                return Some(i);
            }
            i += 1;
        }
        None
    }

    /// The ports that listeners are bound to.
    fn bound_ports(&self) -> (ports: Vec<u16>)
        requires
            self@.wf(),
        ensures
            ports@.to_set() == self@.bound_ports(),
    {
        let ports = self.listener_ports();
        proof {
            assert forall|port: u16| ports@.to_set().contains(port) == self@.bound_ports().contains(
                port,
            ) by {
                if ports@.contains(port) {
                    let j = choose|j: int| 0 <= j < ports@.len() && ports@[j] == port;
                    assert(self@.listeners[j].port == port);
                }
                if self@.has_listener(port) {
                    let j = self@.listener_index(port);
                    assert(ports@[j] == port);
                }
            }
            assert(ports@.to_set() =~= self@.bound_ports());
        }
        ports
    }

    /// The local ports of the streams that lead to `remote_port`.
    fn local_ports_to(&self, remote_port: u16) -> (ports: Vec<u16>)
        ensures
            ports@.to_set() == self@.local_ports_to(remote_port),
    {
        let mut ports: Vec<u16> = Vec::new();
        let mut i: usize = 0;
        while i < self.port_connections.len()
            invariant
                i <= self.port_connections.len(),
                forall|port: u16|
                    ports@.contains(port) ==> self@.has_connection((port, remote_port)),
                forall|j: int|
                    0 <= j < i && (#[trigger] self@.connections[j]).remote_port == remote_port
                        ==> ports@.contains(self@.connections[j].local_port),
            decreases self.port_connections.len() - i,
        {
            let socket = &self.port_connections[i];
            if socket.remote_port() == remote_port {
                let ghost before = ports@;
                let local_port = socket.local_port();
                ports.push(local_port);
                proof {
                    assert(self@.connections[i as int].key() == (local_port, remote_port));
                    assert(ports@[before.len() as int] == local_port);
                    assert forall|port: u16| ports@.contains(port) implies self@.has_connection(
                        (port, remote_port),
                    ) by {
                        if !before.contains(port) {
                            let j = choose|j: int| 0 <= j < ports@.len() && ports@[j] == port;
                            assert(j == before.len());
                        }
                    }
                    assert forall|j: int|
                        0 <= j < i + 1 && (#[trigger] self@.connections[j]).remote_port
                            == remote_port implies ports@.contains(
                        self@.connections[j].local_port,
                    ) by {
                        if j < i {
                            let at = choose|at: int|
                                0 <= at < before.len() && before[at]
                                    == self@.connections[j].local_port;
                            assert(ports@[at] == self@.connections[j].local_port);
                        }
                    }
                }
            }
            i += 1;
        }
        proof {
            assert forall|port: u16| ports@.to_set().contains(port) == self@.local_ports_to(
                remote_port,
            ).contains(port) by {
                if self@.has_connection((port, remote_port)) {
                    let j = self@.connection_index((port, remote_port));
                    assert(self@.connections[j].remote_port == remote_port);
                }
            }
            assert(ports@.to_set() =~= self@.local_ports_to(remote_port));
        }
        ports
    }

    /// Lets the reader and the writer work. It changes nothing on a
    /// multiplexor that runs already.
    pub fn start(&mut self)
        requires
            old(self)@.wf(),
        ensures
            final(self)@ == old(self)@.start(),
            final(self)@.wf(),
    {
        self.running = true;
        assert(self@ == old(self)@.start());
    }

    /// Marks the carrier as gone. The maintenance task then drains the
    /// tables. It changes nothing on a multiplexor that is closed already.
    pub fn close(&mut self)
        requires
            old(self)@.wf(),
        ensures
            final(self)@ == old(self)@.close(),
            final(self)@.wf(),
    {
        self.connected = false;
        assert(self@ == old(self)@.close());
    }

    /// Binds `port`, or for port zero the first free ephemeral port on the
    /// walk from `start`, and returns the port that was bound.
    pub fn bind_from(&mut self, port: u16, start: u16) -> (result: Result<u16, MuxError>)
        requires
            old(self)@.wf(),
            ephemeral(start),
        ensures
            result == old(self)@.bind_port(port, start),
            final(self)@ == old(self)@.bind(port, start),
            final(self)@.wf(),
            result is Ok ==> !old(self)@.has_listener(result->Ok_0) && (port == 0 ==> ephemeral(
                result->Ok_0,
            )) && (port != 0 ==> result->Ok_0 == port),
    {
        if !self.connected {
            return Err(MuxError::ConnectionReset);
        }
        let bound: u16 = if port == 0 {
            let taken = self.bound_ports();
            match probe(&taken, start) {
                Some(free) => {
                    proof {
                        lemma_first_free_unique(self@.bound_ports(), start, free);
                    }
                    free
                },
                None => {
                    return Err(MuxError::AddrInUse);
                },
            }
        } else {
            match self.find_listener(port) {
                Some(_) => {
                    return Err(MuxError::AddrInUse);
                },
                None => port,
            }
        };
        let ghost before = self@;
        assert(!before.has_listener(bound));
        let listener = AcceptQueue { port: bound, queue: Vec::new() };
        assert(listener@ == ListenerView { port: bound, queue: Seq::empty() });
        self.port_listeners.push(listener);
        proof {
            assert(self@.listeners =~= before.listeners.push(
                ListenerView { port: bound, queue: Seq::empty() },
            ));
            assert forall|i: int, j: int| 0 <= i < j < self@.listeners.len() implies (
            #[trigger] self@.listeners[i]).port != (#[trigger] self@.listeners[j]).port by {
                if j == before.listeners.len() {
                    assert(before.listeners[i].port != bound);
                    assert(self@.listeners[i] == before.listeners[i]);
                } else {
                    assert(self@.listeners[i] == before.listeners[i]);
                    assert(self@.listeners[j] == before.listeners[j]);
                }
            }
            assert forall|i: int| 0 <= i < self@.listeners.len() implies (
            #[trigger] self@.listeners[i]).queue.len() <= self@.config.accept_queue_len by {
                if i < before.listeners.len() {
                    assert(self@.listeners[i] == before.listeners[i]);
                }
            }
            assert(self@.connections == before.connections);
            assert(self@.config == before.config);
        }
        Ok(bound)
    }

    /// Binds `port` and returns the port that was bound. Port zero asks for
    /// a free ephemeral port: the walk begins at a port drawn at random.
    pub fn bind(&mut self, port: u16) -> (result: Result<u16, MuxError>)
        requires
            old(self)@.wf(),
        ensures
            exists|start: u16|
                ephemeral(start) && result == old(self)@.bind_port(port, start) && final(self)@
                    == #[trigger] old(self)@.bind(port, start),
            final(self)@.wf(),
            result is Ok ==> !old(self)@.has_listener(result->Ok_0) && (port == 0 ==> ephemeral(
                result->Ok_0,
            )) && (port != 0 ==> result->Ok_0 == port),
    {
        let start = random_in_range(EPHEMERAL_MIN, EPHEMERAL_END);
        let ghost before = self@;
        let result = self.bind_from(port, start);
        assert(ephemeral(start) && result == before.bind_port(port, start) && self@ == before.bind(
            port,
            start,
        ));
        result
    }

    /// Opens a client stream to `remote_port` from the first free ephemeral
    /// port on the walk from `start`, and returns that port. The stream's
    /// `Syn` waits for the carrier.
    pub fn connect_from(&mut self, remote_port: u16, start: u16) -> (result: Result<
        u16,
        MuxError,
    >)
        requires
            old(self)@.wf(),
            ephemeral(start),
        ensures
            result == old(self)@.connect_port(remote_port, start),
            final(self)@ == old(self)@.connect(remote_port, start),
            final(self)@.wf(),
            result is Ok ==> ephemeral(result->Ok_0) && !old(self)@.has_connection(
                (result->Ok_0, remote_port),
            ),
    {
        if !self.connected {
            return Err(MuxError::ConnectionReset);
        }
        let taken = self.local_ports_to(remote_port);
        let local_port: u16 = match probe(&taken, start) {
            Some(free) => {
                proof {
                    lemma_first_free_unique(self@.local_ports_to(remote_port), start, free);
                }
                free
            },
            None => {
                return Err(MuxError::Other);
            },
        };
        let ghost before = self@;
        assert(!before.has_connection((local_port, remote_port)));
        let mut socket = MuxSocket::new(local_port, remote_port, false);
        let reaction = socket.start();
        let ghost step = SocketView::fresh(local_port, remote_port, Role::Client).start();
        assert(socket@ == step.socket);
        match reaction.reply {
            Some(frame) => {
                assert(frame@ == step.reply->0);
                self.send.push(frame);
            },
            None => {},
        }
        self.port_connections.push(socket);
        proof {
            assert(self@.connections =~= before.connections.push(step.socket));
            assert(self@.outbound =~= before.outbound.push(step.reply->0));
            assert forall|i: int| 0 <= i < self@.connections.len() implies (
            #[trigger] self@.connections[i]).wf() by {
                if i < before.connections.len() {
                    assert(self@.connections[i] == before.connections[i]);
                }
            }
            assert forall|i: int, j: int| 0 <= i < j < self@.connections.len() implies (
            #[trigger] self@.connections[i]).key() != (#[trigger] self@.connections[j]).key() by {
                if j == before.connections.len() {
                    assert(before.connections[i].key() != (local_port, remote_port));
                    assert(self@.connections[i] == before.connections[i]);
                    assert(self@.connections[j].key() == (local_port, remote_port));
                } else {
                    assert(self@.connections[i] == before.connections[i]);
                    assert(self@.connections[j] == before.connections[j]);
                }
            }
            assert(self@.listeners == before.listeners);
            assert(self@.config == before.config);
        }
        Ok(local_port)
    }

    /// Opens a client stream to `remote_port` and returns its local port,
    /// a free ephemeral port: the walk begins at a port drawn at random.
    pub fn connect(&mut self, remote_port: u16) -> (result: Result<u16, MuxError>)
        requires
            old(self)@.wf(),
        ensures
            exists|start: u16|
                ephemeral(start) && result == old(self)@.connect_port(remote_port, start)
                    && final(self)@ == #[trigger] old(self)@.connect(remote_port, start),
            final(self)@.wf(),
            result is Ok ==> ephemeral(result->Ok_0) && !old(self)@.has_connection(
                (result->Ok_0, remote_port),
            ),
    {
        let start = random_in_range(EPHEMERAL_MIN, EPHEMERAL_END);
        let ghost before = self@;
        let result = self.connect_from(remote_port, start);
        assert(ephemeral(start) && result == before.connect_port(remote_port, start) && self@
            == before.connect(remote_port, start));
        result
    }

    /// Queues what a step of a stream asks for: its answer for the carrier,
    /// and its name for removal when the stream is over.
    fn settle(&mut self, reaction: Reaction, local_port: u16, remote_port: u16)
        ensures
            final(self)@ == (MuxView {
                outbound: match reply_view(reaction.reply) {
                    Some(frame) => old(self)@.outbound.push(frame),
                    None => old(self)@.outbound,
                },
                may_close_connections: if reaction.release {
                    old(self)@.may_close_connections.push((local_port, remote_port))
                } else {
                    old(self)@.may_close_connections
                },
                ..old(self)@
            }),
    {
        let ghost before = self@;
        match reaction.reply {
            Some(frame) => {
                self.send.push(frame);
                assert(self@.outbound =~= before.outbound.push(frame@));
            },
            None => {},
        }
        if reaction.release {
            self.may_close_connections.push((local_port, remote_port));
        }
    }

    /// Routes one frame: see `MuxView::route`. A frame that finds the
    /// accept queue of its listener full is handed back.
    pub fn route(&mut self, frame: Frame) -> (received: Received)
        requires
            old(self)@.wf(),
        ensures
            final(self)@ == old(self)@.route(frame@).0,
            received.step == old(self)@.route(frame@).1,
            match received.held {
                Some(held) => received.step == ReaderStep::Blocked && held@ == frame@,
                None => received.step != ReaderStep::Blocked,
            },
            final(self)@.wf(),
    {
        if !self.running {
            return Received { step: ReaderStep::Parked, held: None };
        }
        if !self.connected {
            return Received { step: ReaderStep::Stopped, held: None };
        }
        if frame.data.len() > self.config.max_frame_size - FRAME_OVERHEAD {
            self.oversize_frames = self.oversize_frames.saturating_add(1);
            assert(self@ == old(self)@.counted());
            return Received { step: ReaderStep::Oversize, held: None };
        }
        let ghost before = self@;
        let local_port: u16 = frame.dport;
        let remote_port: u16 = frame.sport;
        let ghost key = (local_port, remote_port);
        if frame.flag == Flag::Syn {
            match self.find_listener(local_port) {
                Some(at) => {
                    if self.port_listeners[at].queue.len() >= self.config.accept_queue_len {
                        return Received { step: ReaderStep::Blocked, held: Some(frame) };
                    }
                    let ghost step = SocketView::fresh(local_port, remote_port, Role::Server).on_frame(
                        frame@,
                    );
                    let mut socket = MuxSocket::new(local_port, remote_port, true);
                    let reaction = socket.recv_frame(frame);
                    match self.find_connection(local_port, remote_port) {
                        Some(index) => {
                            self.port_connections.remove(index);
                        },
                        None => {},
                    }
                    assert(self@.connections =~= before.without_connection(key));
                    let ghost rest = self@.connections;
                    assert forall|i: int| 0 <= i < rest.len() implies (#[trigger] rest[i]).key()
                        != key && rest[i].wf() by {
                        if before.has_connection(key) {
                            let index = before.connection_index(key);
                            let k = if i < index { i } else { i + 1 };
                            assert(rest[i] == before.connections[k]);
                        } else {
                            assert(rest[i] == before.connections[i]);
                        }
                    }
                    assert forall|i: int, j: int| 0 <= i < j < rest.len() implies (
                    #[trigger] rest[i]).key() != (#[trigger] rest[j]).key() by {
                        if before.has_connection(key) {
                            let index = before.connection_index(key);
                            let i0 = if i < index { i } else { i + 1 };
                            let j0 = if j < index { j } else { j + 1 };
                            assert(rest[i] == before.connections[i0]);
                            assert(rest[j] == before.connections[j0]);
                        } else {
                            assert(rest[i] == before.connections[i]);
                            assert(rest[j] == before.connections[j]);
                        }
                    }
                    self.port_connections.push(socket);
                    assert(self@.connections =~= rest.push(step.socket));
                    self.port_listeners[at].queue.push((local_port, remote_port));
                    assert(self@.listeners =~= before.listeners.update(
                        at as int,
                        ListenerView {
                            queue: before.listeners[at as int].queue.push(key),
                            ..before.listeners[at as int]
                        },
                    ));
                    let ghost middle = self@;
                    self.settle(reaction, local_port, remote_port);
                    proof {
                        assert(self@.outbound == before.outbound.push(step.reply->0));
                        assert(self@.connections == middle.connections);
                        assert(self@.listeners == middle.listeners);
                        assert(self@ == before.dispatch(frame@).0);
                        assert forall|i: int, j: int|
                            0 <= i < j < self@.connections.len() implies (
                        #[trigger] self@.connections[i]).key() != (
                        #[trigger] self@.connections[j]).key() by {
                            if j < rest.len() {
                                assert(self@.connections[i] == rest[i]);
                                assert(self@.connections[j] == rest[j]);
                            } else {
                                assert(self@.connections[i] == rest[i]);
                            }
                        }
                        assert forall|i: int| 0 <= i < self@.connections.len() implies (
                        #[trigger] self@.connections[i]).wf() by {
                            if i < rest.len() {
                                assert(self@.connections[i] == rest[i]);
                            }
                        }
                        assert forall|i: int, j: int| 0 <= i < j < self@.listeners.len() implies (
                        #[trigger] self@.listeners[i]).port != (
                        #[trigger] self@.listeners[j]).port by {
                            assert(self@.listeners[i].port == before.listeners[i].port);
                            assert(self@.listeners[j].port == before.listeners[j].port);
                        }
                        assert forall|i: int| 0 <= i < self@.listeners.len() implies (
                        #[trigger] self@.listeners[i]).queue.len()
                            <= self@.config.accept_queue_len by {
                            if i != at {
                                assert(self@.listeners[i] == before.listeners[i]);
                            }
                        }
                    }
                    return Received {
                        step: ReaderStep::Accepted { local_port, remote_port },
                        held: None,
                    };
                },
                None => {},
            }
        }
        match self.find_connection(local_port, remote_port) {
            Some(index) => {
                let ghost step = before.connections[index as int].on_frame(frame@);
                let reaction = self.port_connections[index].recv_frame(frame);
                assert(self@.connections =~= before.connections.update(index as int, step.socket));
                self.settle(reaction, local_port, remote_port);
                proof {
                    assert(self@ == before.with_step(index as int, step));
                    lemma_step_keeps_order(before, index as int, step);
                }
                Received { step: ReaderStep::Delivered { local_port, remote_port }, held: None }
            },
            None => {
                if frame.flag != Flag::Rst {
                    let reply = Frame::new_reply(&frame, Flag::Rst, 0);
                    self.send.push(reply);
                    assert(self@.outbound =~= before.outbound.push(frame@.reply(Flag::Rst, 0)));
                    assert(self@ == before.dispatch(frame@).0);
                    Received { step: ReaderStep::Refused, held: None }
                } else {
                    Received { step: ReaderStep::Ignored, held: None }
                }
            },
        }
    }

    /// One step of the reader task: takes one message of the carrier. See
    /// `MuxView::receive`. A frame that finds the accept queue of its
    /// listener full is handed back, to be given to `route` later.
    pub fn frame_reader_sender(&mut self, message: Message) -> (received: Received)
        requires
            old(self)@.wf(),
        ensures
            final(self)@ == old(self)@.receive(message).0,
            received.step == old(self)@.receive(message).1,
            match received.held {
                Some(held) => received.step == ReaderStep::Blocked && FrameView::of_message(message)
                    == Ok::<FrameView, FrameError>(held@),
                None => received.step != ReaderStep::Blocked,
            },
            final(self)@.wf(),
    {
        if !self.running {
            return Received { step: ReaderStep::Parked, held: None };
        }
        if !self.connected {
            return Received { step: ReaderStep::Stopped, held: None };
        }
        match Frame::try_from(message) {
            Err(error) => Received { step: ReaderStep::Invalid(error), held: None },
            Ok(frame) => self.route(frame),
        }
    }

    /// One step of the writer task: takes the oldest frame from the
    /// outbound queue and hands it out as a message for the carrier.
    pub fn frame_writer_sender(&mut self) -> (step: WriterStep)
        requires
            old(self)@.wf(),
        ensures
            final(self)@ == old(self)@.after_transmit(),
            match step {
                WriterStep::Parked => !old(self)@.running,
                WriterStep::Stopped => old(self)@.running && !old(self)@.connected,
                WriterStep::Idle => old(self)@.running && old(self)@.connected
                    && old(self)@.outbound.len() == 0,
                WriterStep::Send(message) => old(self)@.next_outbound() is Some
                    && binary_payload(message) == Some(old(self)@.next_outbound()->0.encode()),
            },
            final(self)@.wf(),
    {
        if !self.running {
            return WriterStep::Parked;
        }
        if !self.connected {
            return WriterStep::Stopped;
        }
        if self.send.len() == 0 {
            return WriterStep::Idle;
        }
        let ghost before = self@;
        let frame = self.send.remove(0);
        assert(self@.outbound =~= before.outbound.drop_first());
        assert(frame@ == before.outbound[0]);
        assert(self@ == before.after_transmit());
        WriterStep::Send(Message::from(frame))
    }

    /// Closes, for the caller, the stream named by the two ports: see
    /// `SocketView::close`. Nothing happens where no stream has the name.
    pub fn close_stream(&mut self, local_port: u16, remote_port: u16)
        requires
            old(self)@.wf(),
        ensures
            final(self)@ == old(self)@.close_stream((local_port, remote_port)),
            final(self)@.wf(),
    {
        let ghost before = self@;
        match self.find_connection(local_port, remote_port) {
            Some(index) => {
                let ghost step = before.connections[index as int].close();
                let reaction = self.port_connections[index].close();
                assert(self@.connections =~= before.connections.update(index as int, step.socket));
                self.settle(reaction, local_port, remote_port);
                proof {
                    assert(self@ == before.with_step(index as int, step));
                    lemma_step_keeps_order(before, index as int, step);
                }
            },
            None => {},
        }
    }

    /// Serves the oldest signal of a dropped listener, if one waits: the
    /// port is free again, and the streams that nobody accepted are closed.
    pub fn process_may_close_listeners_once(&mut self)
        requires
            old(self)@.wf(),
        ensures
            final(self)@ == old(self)@.free_listener(),
            final(self)@.wf(),
    {
        if self.may_close_listeners.len() == 0 {
            return ;
        }
        let ghost before = self@;
        let port: u16 = self.may_close_listeners.remove(0);
        assert(self@.may_close_listeners =~= before.may_close_listeners.drop_first());
        let ghost rest = self@;
        proof {
            lemma_same_tables(before, rest);
        }
        match self.find_listener(port) {
            Some(at) => {
                let listener = self.port_listeners.remove(at);
                assert(self@.listeners =~= rest.listeners.remove(at as int));
                assert(listener@ == rest.listeners[at as int]);
                proof {
                    let now = self@;
                    assert forall|i: int, j: int| 0 <= i < j < now.listeners.len() implies (
                    #[trigger] now.listeners[i]).port != (#[trigger] now.listeners[j]).port by {
                        let i0 = if i < at { i } else { i + 1 };
                        let j0 = if j < at { j } else { j + 1 };
                        assert(now.listeners[i] == rest.listeners[i0]);
                        assert(now.listeners[j] == rest.listeners[j0]);
                    }
                    assert forall|i: int| 0 <= i < now.listeners.len() implies (
                    #[trigger] now.listeners[i]).queue.len() <= now.config.accept_queue_len by {
                        let i0 = if i < at { i } else { i + 1 };
                        assert(now.listeners[i] == rest.listeners[i0]);
                    }
                    assert(now.connections == rest.connections);
                    assert(now.config == rest.config);
                    assert(now.wf());
                }
                let ghost goal = self@.close_streams(listener.queue@);
                assert(listener.queue@.skip(0) =~= listener.queue@);
                let mut k: usize = 0;
                while k < listener.queue.len()
                    invariant
                        k <= listener.queue.len(),
                        self@.wf(),
                        self@.close_streams(listener.queue@.skip(k as int)) == goal,
                    decreases listener.queue.len() - k,
                {
                    let key = listener.queue[k];
                    assert(listener.queue@.skip(k as int).first() == key);
                    assert(listener.queue@.skip(k as int).drop_first() =~= listener.queue@.skip(
                        k + 1,
                    ));
                    self.close_stream(key.0, key.1);
                    k += 1;
                }
            },
            None => {},
        }
    }

    /// Serves the oldest signal of a finished stream, if one waits: the
    /// stream leaves the table.
    pub fn process_may_close_connections_once(&mut self)
        requires
            old(self)@.wf(),
        ensures
            final(self)@ == old(self)@.free_connection(),
            final(self)@.wf(),
    {
        if self.may_close_connections.len() == 0 {
            return ;
        }
        let ghost before = self@;
        let key = self.may_close_connections.remove(0);
        assert(self@.may_close_connections =~= before.may_close_connections.drop_first());
        let ghost rest = self@;
        proof {
            lemma_same_tables(before, rest);
        }
        match self.find_connection(key.0, key.1) {
            Some(index) => {
                self.port_connections.remove(index);
                assert(self@.connections =~= before.connections.remove(index as int));
                proof {
                    lemma_remove_keeps_order(rest, index as int);
                }
            },
            None => {},
        }
    }

    /// One turn of the maintenance task: see `MuxView::maintain`. When the
    /// multiplexor is closed, every stream is reset and handed out, so that
    /// its reader can be told of the broken pipe, and the tables and queues
    /// are emptied.
    pub fn handle_mux_state_change(&mut self) -> (done: Maintenance)
        requires
            old(self)@.wf(),
        ensures
            final(self)@ == old(self)@.maintain().0,
            done@ == old(self)@.maintain().1,
            final(self)@.wf(),
    {
        let ghost before = self@;
        if !self.connected {
            let mut sockets: Vec<MuxSocket> = Vec::new();
            std::mem::swap(&mut sockets, &mut self.port_connections);
            self.port_listeners.clear();
            self.may_close_listeners.clear();
            self.may_close_connections.clear();
            self.send.clear();
            assert(self@.connections =~= Seq::empty());
            assert(self@.listeners =~= Seq::empty());
            assert(self@.outbound =~= Seq::empty());
            let mut i: usize = 0;
            while i < sockets.len()
                invariant
                    i <= sockets.len(),
                    sockets.len() == before.connections.len(),
                    before.wf(),
                    forall|j: int|
                        0 <= j < i ==> (#[trigger] sockets[j])@
                            == before.connections[j].carrier_lost(),
                    forall|j: int|
                        i <= j < sockets.len() ==> (#[trigger] sockets[j])@
                            == before.connections[j],
                decreases sockets.len() - i,
            {
                assert(sockets[i as int]@ == before.connections[i as int]);
                sockets[i].reset();
                i += 1;
            }
            assert(sockets@.map_values(|socket: MuxSocket| socket@)
                =~= before.connections.map_values(|socket: SocketView| socket.carrier_lost()));
            Maintenance::Drained(sockets)
        } else if self.may_close_connections.len() > 0 {
            let key = self.may_close_connections[0];
            self.process_may_close_connections_once();
            Maintenance::ConnectionFreed { local_port: key.0, remote_port: key.1 }
        } else if self.may_close_listeners.len() > 0 {
            let port: u16 = self.may_close_listeners[0];
            self.process_may_close_listeners_once();
            Maintenance::ListenerFreed { port }
        } else {
            Maintenance::Idle
        }
    }

    /// Notes that the listener of `port` was dropped. The maintenance task
    /// frees the port.
    pub fn release_listener(&mut self, port: u16)
        requires
            old(self)@.wf(),
        ensures
            final(self)@ == old(self)@.release_listener(port),
            final(self)@.wf(),
    {
        self.may_close_listeners.push(port);
        assert(self@ == old(self)@.release_listener(port));
    }

    /// Takes the oldest stream from the accept queue of `port`.
    pub fn accept(&mut self, port: u16) -> (result: Result<Option<(u16, u16)>, MuxError>)
        requires
            old(self)@.wf(),
        ensures
            result == old(self)@.accept_outcome(port),
            final(self)@ == old(self)@.accept(port),
            final(self)@.wf(),
    {
        if !self.connected {
            return Err(MuxError::Other);
        }
        let ghost before = self@;
        match self.find_listener(port) {
            None => Err(MuxError::Other),
            Some(at) => {
                if self.port_listeners[at].queue.len() == 0 {
                    Ok(None)
                } else {
                    let key = self.port_listeners[at].queue.remove(0);
                    proof {
                        let listener = before.listeners[at as int];
                        assert(self@.listeners =~= before.listeners.update(
                            at as int,
                            ListenerView { queue: listener.queue.drop_first(), ..listener },
                        ));
                        assert forall|i: int, j: int| 0 <= i < j < self@.listeners.len() implies (
                        #[trigger] self@.listeners[i]).port != (
                        #[trigger] self@.listeners[j]).port by {
                            assert(self@.listeners[i].port == before.listeners[i].port);
                            assert(self@.listeners[j].port == before.listeners[j].port);
                        }
                        assert forall|i: int| 0 <= i < self@.listeners.len() implies (
                        #[trigger] self@.listeners[i]).queue.len()
                            <= self@.config.accept_queue_len by {
                            if i != at {
                                assert(self@.listeners[i] == before.listeners[i]);
                            }
                        }
                    }
                    Ok(Some(key))
                }
            },
        }
    }

    /// How the handshake of the stream named by the two ports stands: see
    /// `MuxView::handshake`.
    pub fn handshake(&self, local_port: u16, remote_port: u16) -> (result: Result<bool, MuxError>)
        requires
            self@.wf(),
        ensures
            result == self@.handshake((local_port, remote_port)),
    {
        if !self.connected {
            return Err(MuxError::ConnectionReset);
        }
        match self.find_connection(local_port, remote_port) {
            None => Err(MuxError::Other),
            Some(index) => match self.port_connections[index].state() {
                SocketState::SynSent => Ok(false),
                SocketState::Reset | SocketState::Closed => Err(MuxError::Other),
                _ => Ok(true),
            },
        }
    }

    /// Writes `data` to the stream named by the two ports: as many bytes as
    /// the outbound queue has room for go out as data frames. It returns
    /// how many bytes were taken.
    pub fn write(&mut self, local_port: u16, remote_port: u16, data: &[u8]) -> (result: Result<
        usize,
        MuxError,
    >)
        requires
            old(self)@.wf(),
        ensures
            match result {
                Ok(accepted) => old(self)@.write_outcome((local_port, remote_port), data@) == Ok::<
                    nat,
                    MuxError,
                >(accepted as nat),
                Err(error) => old(self)@.write_outcome((local_port, remote_port), data@) == Err::<
                    nat,
                    MuxError,
                >(error),
            },
            final(self)@ == old(self)@.write((local_port, remote_port), data@),
            final(self)@.wf(),
    {
        if !self.connected {
            return Err(MuxError::BrokenPipe);
        }
        let ghost before = self@;
        match self.find_connection(local_port, remote_port) {
            None => Err(MuxError::BrokenPipe),
            Some(index) => {
                let room: usize = if self.send.len() < self.config.max_queued_frames {
                    self.config.max_queued_frames - self.send.len()
                } else {
                    0
                };
                let ghost socket = before.connections[index as int];
                match self.port_connections[index].write(data, self.config.buf_size, room) {
                    Err(error) => {
                        assert(self@.connections =~= before.connections);
                        Err(error)
                    },
                    Ok(written) => {
                        let mut written = written;
                        let ghost frames = frames_view(written.frames@);
                        assert(self@.connections =~= before.connections.update(
                            index as int,
                            socket.after_sends(frames.len()),
                        ));
                        self.send.append(&mut written.frames);
                        proof {
                            assert(self@.outbound =~= before.outbound + frames);
                            assert(self@ == before.write((local_port, remote_port), data@));
                            lemma_update_keeps_order(
                                before,
                                index as int,
                                socket.after_sends(frames.len()),
                            );
                            lemma_same_tables(
                                MuxView {
                                    connections: before.connections.update(
                                        index as int,
                                        socket.after_sends(frames.len()),
                                    ),
                                    ..before
                                },
                                self@,
                            );
                        }
                        Ok(written.accepted)
                    },
                }
            },
        }
    }

    /// Reads at most `max_len` bytes from the stream named by the two
    /// ports: see `MuxView::read_outcome`.
    pub fn read(&mut self, local_port: u16, remote_port: u16, max_len: usize) -> (result: Result<
        ReadOutcome,
        MuxError,
    >)
        requires
            old(self)@.wf(),
        ensures
            read_view(result) == old(self)@.read_outcome((local_port, remote_port), max_len as nat),
            final(self)@ == old(self)@.read((local_port, remote_port), max_len as nat),
            final(self)@.wf(),
    {
        if !self.connected {
            return Err(MuxError::BrokenPipe);
        }
        let ghost before = self@;
        match self.find_connection(local_port, remote_port) {
            None => Ok(ReadOutcome::Eof),
            Some(index) => {
                let result = self.port_connections[index].read(max_len);
                proof {
                    let socket = before.connections[index as int];
                    assert(self@.connections =~= before.connections.update(
                        index as int,
                        socket.after_read(max_len as nat),
                    ));
                    lemma_update_keeps_order(
                        before,
                        index as int,
                        socket.after_read(max_len as nat),
                    );
                }
                result
            },
        }
    }
}

/// A step of one stream that keeps the stream's name and leaves the stream
/// in order keeps the tables in order.
pub proof fn lemma_step_keeps_order(mux: MuxView, index: int, step: SocketStep)
    requires
        mux.wf(),
        0 <= index < mux.connections.len(),
        step.socket.wf(),
        step.socket.key() == mux.connections[index].key(),
    ensures
        mux.with_step(index, step).wf(),
{
    let after = mux.with_step(index, step);
    assert forall|i: int, j: int| 0 <= i < j < after.connections.len() implies (
    #[trigger] after.connections[i]).key() != (#[trigger] after.connections[j]).key() by {
        assert(after.connections[i].key() == mux.connections[i].key());
        assert(after.connections[j].key() == mux.connections[j].key());
    }
}

} // verus!
