//! One end of a logical stream: handshake, ordered delivery and teardown.
//!
//! `SocketView` is the endpoint as a mathematical value, and the functions
//! on it say what every event does to it. `MuxSocket` is the endpoint that
//! runs, and each of its methods is proved to do what the view says.

use crate::error::MuxError;
use crate::frame::{Flag, Frame, FrameView};
use crate::sequence::{is_after, lemma_seq_order, next_seq, seq_advance, seq_after, seq_succ};
use vstd::slice::slice_subrange;
use vstd::prelude::*;

verus! {

/// Which side opened the stream.
#[derive(Clone, Copy, Debug, PartialEq, Eq, Structural)]
pub enum Role {
    /// The endpoint answers a `Syn` of the peer.
    Server,
    /// The endpoint sent the `Syn`.
    Client,
}

/// Where an endpoint stands in the life of its stream.
#[derive(Clone, Copy, Debug, PartialEq, Eq, Structural)]
pub enum SocketState {
    /// Not open: never started, or finished.
    Closed,
    /// `Syn` sent, waiting for `SynAck`.
    SynSent,
    /// `Syn` received and answered, waiting for `Ack`.
    SynReceived,
    /// Both directions carry data.
    Established,
    /// This side has sent `Fin` and still receives.
    FinSent,
    /// The peer has sent `Fin`; this side may still send.
    FinReceived,
    /// Both sides have sent `Fin`; passed through on the way to `Closed`.
    Closing,
    /// Aborted by the peer or by the loss of the carrier.
    Reset,
}

/// An endpoint as a mathematical value.
pub struct SocketView {
    pub local_port: u16,
    pub remote_port: u16,
    pub role: Role,
    pub state: SocketState,
    /// Sequence number of the next data frame to send.
    pub tx_seq: u32,
    /// Sequence number of the next frame to deliver.
    pub rx_next_seq: u32,
    /// Frames that arrived ahead of `rx_next_seq`.
    pub reorder: Seq<FrameView>,
    /// Bytes delivered in order and not yet read.
    pub inbox: Seq<u8>,
    /// The carrier was lost under the stream.
    pub carrier_lost: bool,
}

/// What an event does to an endpoint.
pub struct SocketStep {
    /// The endpoint after the event.
    pub socket: SocketView,
    /// The frame to send in answer, if any.
    pub reply: Option<FrameView>,
    /// The stream is over and its table entry may go.
    pub release: bool,
}

/// What a read finds, as a mathematical value.
pub enum ReadView {
    Data(Seq<u8>),
    Eof,
    Pending,
}

/// Whether some frame of `buffer` has sequence number `seq`.
pub open spec fn holds_seq(buffer: Seq<FrameView>, seq: u32) -> bool {
    exists|i: int| 0 <= i < buffer.len() && (#[trigger] buffer[i]).seq == seq
}

/// Where in `buffer` a frame with sequence number `seq` lies, if one does.
pub open spec fn position(buffer: Seq<FrameView>, seq: u32) -> int {
    choose|i: int| 0 <= i < buffer.len() && (#[trigger] buffer[i]).seq == seq
}

/// The smaller of two lengths.
pub open spec fn min_len(a: nat, b: nat) -> nat {
    if a <= b {
        a
    } else {
        b
    }
}

impl SocketView {
    /// The pair that names the stream on this peer.
    pub open spec fn key(self) -> (u16, u16) {
        (self.local_port, self.remote_port)
    }

    /// An endpoint that has not been opened: both counters at one, nothing
    /// buffered.
    pub open spec fn fresh(local_port: u16, remote_port: u16, role: Role) -> SocketView {
        SocketView {
            local_port,
            remote_port,
            role,
            state: SocketState::Closed,
            tx_seq: 1,
            rx_next_seq: 1,
            reorder: Seq::empty(),
            inbox: Seq::empty(),
            carrier_lost: false,
        }
    }

    /// The frames held back are all ahead of the next one to deliver, and no
    /// two of them have the same sequence number.
    pub open spec fn wf(self) -> bool {
        &&& forall|i: int|
            0 <= i < self.reorder.len() ==> seq_after(
                (#[trigger] self.reorder[i]).seq,
                self.rx_next_seq,
            )
        &&& forall|i: int, j: int|
            0 <= i < j < self.reorder.len() ==> (#[trigger] self.reorder[i]).seq != (
            #[trigger] self.reorder[j]).seq
    }

    /// The condition that holds while held-back frames are being delivered:
    /// as `wf`, but one frame may be the next in order.
    pub open spec fn draining(self) -> bool {
        &&& forall|i: int|
            0 <= i < self.reorder.len() ==> (#[trigger] self.reorder[i]).seq == self.rx_next_seq
                || seq_after(self.reorder[i].seq, self.rx_next_seq)
        &&& forall|i: int, j: int|
            0 <= i < j < self.reorder.len() ==> (#[trigger] self.reorder[i]).seq != (
            #[trigger] self.reorder[j]).seq
    }

    /// A control frame from this endpoint to its peer.
    pub open spec fn control(self, flag: Flag, seq: u32) -> FrameView {
        FrameView {
            sport: self.local_port,
            dport: self.remote_port,
            flag,
            seq,
            data: Seq::empty(),
        }
    }

    /// The step that changes nothing.
    pub open spec fn idle(self) -> SocketStep {
        SocketStep { socket: self, reply: None, release: false }
    }

    /// The endpoint in another state.
    pub open spec fn in_state(self, state: SocketState) -> SocketView {
        SocketView { state, ..self }
    }

    /// Opening by the caller: a closed client endpoint sends `Syn` and
    /// waits. Any other endpoint stays as it is.
    pub open spec fn start(self) -> SocketStep {
        if self.state == SocketState::Closed && self.role == Role::Client {
            SocketStep {
                socket: self.in_state(SocketState::SynSent),
                reply: Some(self.control(Flag::Syn, 0)),
                release: false,
            }
        } else {
            self.idle()
        }
    }

    /// The stream has begun and has not ended.
    pub open spec fn live(self) -> bool {
        self.state != SocketState::Closed && self.state != SocketState::Reset
    }

    /// The endpoint takes data and `Fin` from the peer.
    pub open spec fn receiving(self) -> bool {
        self.state == SocketState::Established || self.state == SocketState::FinSent
    }

    /// The endpoint takes data from the caller.
    pub open spec fn can_send(self) -> bool {
        self.state == SocketState::SynReceived || self.state == SocketState::Established
            || self.state == SocketState::FinReceived
    }

    /// Delivery of the frame that is next in order. Data goes to the end of
    /// the inbox and the counter moves on. `Fin` ends the peer's half: the
    /// endpoint is `FinReceived`, or `Closed` if its own `Fin` is out, and
    /// whatever was held back is dropped.
    pub open spec fn deliver(self, frame: FrameView) -> SocketView {
        if frame.flag == Flag::Fin {
            SocketView {
                state: if self.state == SocketState::FinSent {
                    SocketState::Closed
                } else {
                    SocketState::FinReceived
                },
                reorder: Seq::empty(),
                ..self
            }
        } else {
            SocketView {
                inbox: self.inbox + frame.data,
                rx_next_seq: seq_succ(self.rx_next_seq),
                ..self
            }
        }
    }

    /// Delivery of every held-back frame that has become next in order.
    pub open spec fn drain(self) -> SocketView
        decreases self.reorder.len(),
    {
        if self.receiving() && holds_seq(self.reorder, self.rx_next_seq) {
            let i = position(self.reorder, self.rx_next_seq);
            let rest = SocketView { reorder: self.reorder.remove(i), ..self };
            rest.deliver(self.reorder[i]).drain()
        } else {
            self
        }
    }

    /// A frame ahead of its turn is held back, unless one with its sequence
    /// number is held back already.
    pub open spec fn stash(self, frame: FrameView) -> SocketView {
        if holds_seq(self.reorder, frame.seq) {
            self
        } else {
            SocketView { reorder: self.reorder.push(frame), ..self }
        }
    }

    /// Arrival of a data or `Fin` frame at a receiving endpoint. The frame
    /// that is next in order is delivered, and after it what it unblocks;
    /// one ahead of its turn is held back; one behind is a duplicate and is
    /// dropped. The stream is over when this closes the endpoint.
    pub open spec fn on_sequenced(self, frame: FrameView) -> SocketStep {
        let socket = if frame.seq == self.rx_next_seq {
            self.deliver(frame).drain()
        } else if seq_after(frame.seq, self.rx_next_seq) {
            self.stash(frame)
        } else {
            self
        };
        SocketStep { socket, reply: None, release: socket.state == SocketState::Closed }
    }

    /// Arrival of a frame.
    ///
    /// - `Rst` resets a live endpoint and ends the stream.
    /// - `Syn` at a closed server endpoint is answered with `SynAck`.
    /// - `SynAck` at an endpoint that sent `Syn` establishes the stream and
    ///   is answered with `Ack`.
    /// - `Ack` at an endpoint that sent `SynAck` establishes the stream.
    /// - Data and `Fin` at a receiving endpoint are taken in order.
    /// - Every other frame is dropped.
    pub open spec fn on_frame(self, frame: FrameView) -> SocketStep {
        match frame.flag {
            Flag::Rst => if self.live() {
                SocketStep { socket: self.in_state(SocketState::Reset), reply: None, release: true }
            } else {
                self.idle()
            },
            Flag::Syn => if self.state == SocketState::Closed && self.role == Role::Server {
                SocketStep {
                    socket: self.in_state(SocketState::SynReceived),
                    reply: Some(self.control(Flag::SynAck, 0)),
                    release: false,
                }
            } else {
                self.idle()
            },
            Flag::SynAck => if self.state == SocketState::SynSent {
                SocketStep {
                    socket: self.in_state(SocketState::Established),
                    reply: Some(self.control(Flag::Ack, 0)),
                    release: false,
                }
            } else {
                self.idle()
            },
            Flag::Ack => if self.state == SocketState::SynReceived {
                SocketStep {
                    socket: self.in_state(SocketState::Established),
                    reply: None,
                    release: false,
                }
            } else {
                self.idle()
            },
            Flag::Fin | Flag::Unset => if self.receiving() {
                self.on_sequenced(frame)
            } else {
                self.idle()
            },
        }
    }

    /// Closing by the caller. An established endpoint sends `Fin`, numbered
    /// like the data frame that would come next, and goes on receiving. One
    /// whose peer has finished sends `Fin` and is closed. One whose
    /// handshake is not complete is closed without a frame. In the last two
    /// cases the stream is over. A second close changes nothing.
    pub open spec fn close(self) -> SocketStep {
        match self.state {
            SocketState::Established => SocketStep {
                socket: self.in_state(SocketState::FinSent),
                reply: Some(self.control(Flag::Fin, self.tx_seq)),
                release: false,
            },
            SocketState::FinReceived => SocketStep {
                socket: self.in_state(SocketState::Closed),
                reply: Some(self.control(Flag::Fin, self.tx_seq)),
                release: true,
            },
            SocketState::SynSent | SocketState::SynReceived => SocketStep {
                socket: self.in_state(SocketState::Closed),
                reply: None,
                release: true,
            },
            _ => self.idle(),
        }
    }

    /// Loss of the carrier: the endpoint is reset, and its reader will be
    /// told that the pipe is broken.
    pub open spec fn carrier_lost(self) -> SocketView {
        SocketView { state: SocketState::Reset, carrier_lost: true, ..self }
    }

    /// The data frame that carries `chunk` next.
    pub open spec fn data_frame(self, chunk: Seq<u8>) -> FrameView {
        FrameView {
            sport: self.local_port,
            dport: self.remote_port,
            flag: Flag::Unset,
            seq: self.tx_seq,
            data: chunk,
        }
    }

    /// The endpoint after it has sent one data frame.
    pub open spec fn after_send(self) -> SocketView {
        SocketView { tx_seq: seq_succ(self.tx_seq), ..self }
    }

    /// The data frames that carry `data` in pieces of at most `size` bytes,
    /// as far as `room` frames go.
    pub open spec fn chunk_frames(self, data: Seq<u8>, size: nat, room: nat) -> Seq<FrameView>
        decreases room,
    {
        if room == 0 || data.len() == 0 || size == 0 {
            Seq::empty()
        } else {
            let n = min_len(size, data.len()) as int;
            seq![self.data_frame(data.take(n))] + self.after_send().chunk_frames(
                data.skip(n),
                size,
                (room - 1) as nat,
            )
        }
    }

    /// The endpoint after it has sent `count` data frames.
    pub open spec fn after_sends(self, count: nat) -> SocketView {
        SocketView { tx_seq: seq_advance(self.tx_seq, count), ..self }
    }

    /// How many bytes a write of `len` bytes places in `room` frames of at
    /// most `size` bytes.
    pub open spec fn accepted_len(len: nat, size: nat, room: nat) -> nat {
        min_len(len, room * size)
    }

    /// What a read of at most `max_len` bytes finds. A reset endpoint fails:
    /// with a broken pipe where the carrier was lost, with a reset
    /// connection where the peer aborted. Otherwise the read takes bytes
    /// from the front of the inbox. With an empty inbox it finds the end of
    /// the stream once the peer has finished or the endpoint is closed, and
    /// nothing yet before that.
    pub open spec fn read_outcome(self, max_len: nat) -> Result<ReadView, MuxError> {
        if self.state == SocketState::Reset {
            if self.carrier_lost {
                Err(MuxError::BrokenPipe)
            } else {
                Err(MuxError::ConnectionReset)
            }
        } else if self.inbox.len() > 0 {
            Ok(ReadView::Data(self.inbox.take(min_len(max_len, self.inbox.len()) as int)))
        } else if self.state == SocketState::FinReceived || self.state == SocketState::Closed
            || self.state == SocketState::Closing {
            Ok(ReadView::Eof)
        } else {
            Ok(ReadView::Pending)
        }
    }

    /// The endpoint after a read of at most `max_len` bytes: the bytes that
    /// the read hands out leave the inbox.
    pub open spec fn after_read(self, max_len: nat) -> SocketView {
        if self.state == SocketState::Reset {
            self
        } else {
            SocketView {
                inbox: self.inbox.skip(min_len(max_len, self.inbox.len()) as int),
                ..self
            }
        }
    }

    /// The endpoint after the frames of `frames` have arrived one by one.
    pub open spec fn after_frames(self, frames: Seq<FrameView>) -> SocketView
        decreases frames.len(),
    {
        if frames.len() == 0 {
            self
        } else {
            self.on_frame(frames.first()).socket.after_frames(frames.drop_first())
        }
    }
}

/// Delivering what was held back changes neither the name of an endpoint
/// nor what it has sent.
pub proof fn lemma_drain_keeps_name(socket: SocketView)
    ensures
        socket.drain().key() == socket.key(),
        socket.drain().role == socket.role,
        socket.drain().tx_seq == socket.tx_seq,
        socket.drain().carrier_lost == socket.carrier_lost,
    decreases socket.reorder.len(),
{
    if socket.receiving() && holds_seq(socket.reorder, socket.rx_next_seq) {
        let i = position(socket.reorder, socket.rx_next_seq);
        let rest = SocketView { reorder: socket.reorder.remove(i), ..socket };
        lemma_drain_keeps_name(rest.deliver(socket.reorder[i]));
    }
}

/// No frame changes the name of the endpoint it comes to, and no close
/// does.
pub proof fn lemma_step_keeps_name(socket: SocketView, frame: FrameView)
    ensures
        socket.on_frame(frame).socket.key() == socket.key(),
        socket.close().socket.key() == socket.key(),
        socket.start().socket.key() == socket.key(),
{
    lemma_drain_keeps_name(socket.deliver(frame));
}

/// Delivery of what was held back leaves the endpoint in order.
pub proof fn lemma_drain_keeps_order(socket: SocketView)
    requires
        socket.draining(),
        socket.receiving() || socket.reorder.len() == 0,
    ensures
        socket.drain().wf(),
    decreases socket.reorder.len(),
{
    if socket.receiving() && holds_seq(socket.reorder, socket.rx_next_seq) {
        let i = position(socket.reorder, socket.rx_next_seq);
        let rest = SocketView { reorder: socket.reorder.remove(i), ..socket };
        let next = rest.deliver(socket.reorder[i]);
        assert forall|j: int| 0 <= j < next.reorder.len() implies (#[trigger] next.reorder[j]).seq
            == next.rx_next_seq || seq_after(next.reorder[j].seq, next.rx_next_seq) by {
            let k = if j < i { j } else { j + 1 };
            assert(next.reorder[j] == socket.reorder[k]);
            lemma_seq_order(socket.reorder[k].seq, socket.rx_next_seq);
        }
        assert forall|j: int, k: int| 0 <= j < k < next.reorder.len() implies (
        #[trigger] next.reorder[j]).seq != (#[trigger] next.reorder[k]).seq by {
            let j0 = if j < i { j } else { j + 1 };
            let k0 = if k < i { k } else { k + 1 };
            assert(next.reorder[j] == socket.reorder[j0]);
            assert(next.reorder[k] == socket.reorder[k0]);
        }
        lemma_drain_keeps_order(next);
    } else {
        assert forall|j: int| 0 <= j < socket.reorder.len() implies seq_after(
            (#[trigger] socket.reorder[j]).seq,
            socket.rx_next_seq,
        ) by {
            assert(socket.receiving());
        }
    }
}

/// Every step leaves an endpoint that was in order in order.
pub proof fn lemma_step_keeps_order(socket: SocketView, frame: FrameView)
    requires
        socket.wf(),
    ensures
        socket.on_frame(frame).socket.wf(),
        socket.close().socket.wf(),
        socket.start().socket.wf(),
        socket.carrier_lost().wf(),
{
    if socket.receiving() && (frame.flag == Flag::Fin || frame.flag == Flag::Unset) {
        if frame.seq == socket.rx_next_seq {
            let next = socket.deliver(frame);
            assert forall|j: int| 0 <= j < next.reorder.len() implies (
            #[trigger] next.reorder[j]).seq == next.rx_next_seq || seq_after(
                next.reorder[j].seq,
                next.rx_next_seq,
            ) by {
                assert(next.reorder[j] == socket.reorder[j]);
                lemma_seq_order(socket.reorder[j].seq, socket.rx_next_seq);
            }
            lemma_drain_keeps_order(next);
        } else if seq_after(frame.seq, socket.rx_next_seq) {
            if !holds_seq(socket.reorder, frame.seq) {
                let next = socket.stash(frame);
                assert forall|j: int, k: int| 0 <= j < k < next.reorder.len() implies (
                #[trigger] next.reorder[j]).seq != (#[trigger] next.reorder[k]).seq by {
                    if k == socket.reorder.len() {
                        assert(socket.reorder[j].seq != frame.seq);
                    }
                }
            }
        }
    }
}

/// The frames of a write go from the writer's port to its peer's, carry
/// data, and hold at least one byte and at most `size`.
pub proof fn lemma_chunk_frames_shape(socket: SocketView, data: Seq<u8>, size: nat, room: nat)
    ensures
        socket.chunk_frames(data, size, room).len() <= room,
        forall|i: int|
            0 <= i < socket.chunk_frames(data, size, room).len() ==> {
                let frame = #[trigger] socket.chunk_frames(data, size, room)[i];
                &&& frame.sport == socket.local_port
                &&& frame.dport == socket.remote_port
                &&& frame.flag == Flag::Unset
                &&& 1 <= frame.data.len() <= size
            },
    decreases room,
{
    if !(room == 0 || data.len() == 0 || size == 0) {
        let n = min_len(size, data.len()) as int;
        let rest = socket.after_send().chunk_frames(data.skip(n), size, (room - 1) as nat);
        lemma_chunk_frames_shape(socket.after_send(), data.skip(n), size, (room - 1) as nat);
        let frames = socket.chunk_frames(data, size, room);
        assert forall|i: int| 0 <= i < frames.len() implies {
            let frame = #[trigger] frames[i];
            &&& frame.sport == socket.local_port
            &&& frame.dport == socket.remote_port
            &&& frame.flag == Flag::Unset
            &&& 1 <= frame.data.len() <= size
        } by {
            if i > 0 {
                assert(frames[i] == rest[i - 1]);
            }
        }
    }
}

/// The views of the frames of a vector, in order.
pub open spec fn frames_view(frames: Seq<Frame>) -> Seq<FrameView> {
    frames.map_values(|frame: Frame| frame@)
}

/// The view of a frame that may be absent.
pub open spec fn reply_view(reply: Option<Frame>) -> Option<FrameView> {
    match reply {
        Some(frame) => Some(frame@),
        None => None,
    }
}

/// What a step of an endpoint asks of the multiplexor.
#[derive(Debug)]
pub struct Reaction {
    /// The frame to send in answer, if any.
    pub reply: Option<Frame>,
    /// The stream is over and its table entry may go.
    pub release: bool,
}

/// What a read finds.
#[derive(Debug)]
pub enum ReadOutcome {
    /// Bytes of the stream, in order.
    Data(Vec<u8>),
    /// The peer has finished and every byte has been read.
    Eof,
    /// Nothing has arrived yet.
    Pending,
}

impl View for ReadOutcome {
    type V = ReadView;

    open spec fn view(&self) -> ReadView {
        match self {
            ReadOutcome::Data(bytes) => ReadView::Data(bytes@),
            ReadOutcome::Eof => ReadView::Eof,
            ReadOutcome::Pending => ReadView::Pending,
        }
    }
}

/// The view of what a read returns.
pub open spec fn read_view(result: Result<ReadOutcome, MuxError>) -> Result<ReadView, MuxError> {
    match result {
        Ok(outcome) => Ok(outcome@),
        Err(error) => Err(error),
    }
}

/// The frames of a write and the number of bytes they carry.
#[derive(Debug)]
pub struct Written {
    /// The data frames, in sending order.
    pub frames: Vec<Frame>,
    /// How many bytes of the caller's data the frames carry.
    pub accepted: usize,
}

/// One end of a logical stream.
#[derive(Debug)]
pub struct MuxSocket {
    local_port: u16,
    remote_port: u16,
    inbound_role: Role,
    state: SocketState,
    tx_seq: u32,
    rx_next_seq: u32,
    rx_reorder_buffer: Vec<Frame>,
    inbox: Vec<u8>,
    carrier_lost: bool,
}

impl View for MuxSocket {
    type V = SocketView;

    closed spec fn view(&self) -> SocketView {
        SocketView {
            local_port: self.local_port,
            remote_port: self.remote_port,
            role: self.inbound_role,
            state: self.state,
            tx_seq: self.tx_seq,
            rx_next_seq: self.rx_next_seq,
            reorder: frames_view(self.rx_reorder_buffer@),
            inbox: self.inbox@,
            carrier_lost: self.carrier_lost,
        }
    }
}

/// Looks for a frame with sequence number `seq`.
fn find_seq(buffer: &Vec<Frame>, seq: u32) -> (found: Option<usize>)
    ensures
        match found {
            Some(i) => i < buffer.len() && buffer[i as int].seq == seq,
            None => !holds_seq(frames_view(buffer@), seq),
        },
{
    let mut i: usize = 0;
    while i < buffer.len()
        invariant
            i <= buffer.len(),
            forall|j: int| 0 <= j < i ==> (#[trigger] frames_view(buffer@)[j]).seq != seq,
        decreases buffer.len() - i,
    {
        if buffer[i].seq == seq {
            return Some(i);
        }
        i += 1;
    }
    None
}

impl MuxSocket {
    /// An endpoint that has not been opened. It is the server's end when
    /// `inbound` is set, the client's when not.
    pub fn new(local_port: u16, remote_port: u16, inbound: bool) -> (socket: Self)
        ensures
            socket@ == SocketView::fresh(
                local_port,
                remote_port,
                if inbound {
                    Role::Server
                } else {
                    Role::Client
                },
            ),
            socket@.wf(),
    {
        let socket = Self {
            local_port,
            remote_port,
            inbound_role: if inbound {
                Role::Server
            } else {
                Role::Client
            },
            state: SocketState::Closed,
            tx_seq: 1,
            rx_next_seq: 1,
            rx_reorder_buffer: Vec::new(),
            inbox: Vec::new(),
            carrier_lost: false,
        };
        assert(socket@.reorder =~= Seq::empty());
        socket
    }

    /// This peer's port.
    pub fn local_port(&self) -> (port: u16)
        ensures
            port == self@.local_port,
    {
        self.local_port
    }

    /// The peer's port.
    pub fn remote_port(&self) -> (port: u16)
        ensures
            port == self@.remote_port,
    {
        self.remote_port
    }

    /// Which side opened the stream.
    pub fn role(&self) -> (role: Role)
        ensures
            role == self@.role,
    {
        self.inbound_role
    }

    /// Where the endpoint stands.
    pub fn state(&self) -> (state: SocketState)
        ensures
            state == self@.state,
    {
        self.state
    }

    /// Sequence number of the next data frame to send.
    pub fn tx_seq(&self) -> (seq: u32)
        ensures
            seq == self@.tx_seq,
    {
        self.tx_seq
    }

    /// Sequence number of the next frame to deliver.
    pub fn rx_next_seq(&self) -> (seq: u32)
        ensures
            seq == self@.rx_next_seq,
    {
        self.rx_next_seq
    }

    /// How many frames are held back.
    pub fn reorder_len(&self) -> (len: usize)
        ensures
            len == self@.reorder.len(),
    {
        self.rx_reorder_buffer.len()
    }

    /// How many bytes wait to be read.
    pub fn readable_len(&self) -> (len: usize)
        ensures
            len == self@.inbox.len(),
    {
        self.inbox.len()
    }

    /// Whether the endpoint takes data from the caller.
    pub fn can_send(&self) -> (open: bool)
        ensures
            open == self@.can_send(),
    {
        match self.state {
            SocketState::SynReceived | SocketState::Established | SocketState::FinReceived => true,
            _ => false,
        }
    }

    /// Opens the stream from the client's side.
    pub fn start(&mut self) -> (reaction: Reaction)
        requires
            old(self)@.wf(),
        ensures
            final(self)@ == old(self)@.start().socket,
            reply_view(reaction.reply) == old(self)@.start().reply,
            reaction.release == old(self)@.start().release,
            final(self)@.key() == old(self)@.key(),
            final(self)@.wf(),
    {
        match (self.state, self.inbound_role) {
            (SocketState::Closed, Role::Client) => {
                self.state = SocketState::SynSent;
                Reaction {
                    reply: Some(Frame::new_init(self.local_port, self.remote_port, Flag::Syn)),
                    release: false,
                }
            },
            _ => Reaction { reply: None, release: false },
        }
    }

    /// Closes the stream from the caller's side.
    pub fn close(&mut self) -> (reaction: Reaction)
        requires
            old(self)@.wf(),
        ensures
            final(self)@ == old(self)@.close().socket,
            reply_view(reaction.reply) == old(self)@.close().reply,
            reaction.release == old(self)@.close().release,
            final(self)@.key() == old(self)@.key(),
            final(self)@.wf(),
    {
        match self.state {
            SocketState::Established => {
                self.state = SocketState::FinSent;
                Reaction {
                    reply: Some(
                        Frame::new_no_data(
                            self.local_port,
                            self.remote_port,
                            Flag::Fin,
                            self.tx_seq,
                        ),
                    ),
                    release: false,
                }
            },
            SocketState::FinReceived => {
                self.state = SocketState::Closed;
                Reaction {
                    reply: Some(
                        Frame::new_no_data(
                            self.local_port,
                            self.remote_port,
                            Flag::Fin,
                            self.tx_seq,
                        ),
                    ),
                    release: true,
                }
            },
            SocketState::SynSent | SocketState::SynReceived => {
                self.state = SocketState::Closed;
                Reaction { reply: None, release: true }
            },
            _ => Reaction { reply: None, release: false },
        }
    }

    /// Delivers the frame that is next in order.
    fn deliver(&mut self, frame: Frame)
        ensures
            final(self)@ == old(self)@.deliver(frame@),
            final(self)@.key() == old(self)@.key(),
    {
        let mut frame = frame;
        match frame.flag {
            Flag::Fin => {
                self.state = match self.state {
                    SocketState::FinSent => SocketState::Closed,
                    _ => SocketState::FinReceived,
                };
                self.rx_reorder_buffer.clear();
                assert(self@.reorder =~= Seq::empty());
            },
            _ => {
                self.inbox.append(&mut frame.data);
                self.rx_next_seq = next_seq(self.rx_next_seq);
            },
        }
    }

    /// Delivers every held-back frame that has become next in order.
    fn absorb(&mut self)
        requires
            old(self)@.draining(),
            old(self)@.receiving() || old(self)@.reorder.len() == 0,
        ensures
            final(self)@ == old(self)@.drain(),
            final(self)@.key() == old(self)@.key(),
            final(self)@.wf(),
    {
        let ghost goal = self@.drain();
        let ghost key = self@.key();
        loop
            invariant
                self@.key() == key,
                self@.draining(),
                self@.receiving() || self@.reorder.len() == 0,
                self@.drain() == goal,
            ensures
                self@ == goal,
                self@.key() == key,
                self@.wf(),
            decreases self@.reorder.len(),
        {
            match self.state {
                SocketState::Established | SocketState::FinSent => {},
                _ => {
                    break ;
                },
            }
            match find_seq(&self.rx_reorder_buffer, self.rx_next_seq) {
                None => {
                    break ;
                },
                Some(i) => {
                    let ghost before = self@;
                    assert(before.reorder[i as int].seq == before.rx_next_seq);
                    assert(position(before.reorder, before.rx_next_seq) == i);
                    let frame = self.rx_reorder_buffer.remove(i);
                    assert(self@.reorder =~= before.reorder.remove(i as int));
                    self.deliver(frame);
                    proof {
                        let after = self@;
                        assert forall|j: int| 0 <= j < after.reorder.len() implies (
                        #[trigger] after.reorder[j]).seq == after.rx_next_seq || seq_after(
                            after.reorder[j].seq,
                            after.rx_next_seq,
                        ) by {
                            let k = if j < i { j } else { j + 1 };
                            assert(after.reorder[j] == before.reorder[k]);
                            lemma_seq_order(before.reorder[k].seq, before.rx_next_seq);
                        }
                        assert forall|j: int, k: int|
                            0 <= j < k < after.reorder.len() implies (#[trigger] after.reorder[j]).seq
                            != (#[trigger] after.reorder[k]).seq by {
                            let j0 = if j < i { j } else { j + 1 };
                            let k0 = if k < i { k } else { k + 1 };
                            assert(after.reorder[j] == before.reorder[j0]);
                            assert(after.reorder[k] == before.reorder[k0]);
                        }
                    }
                },
            }
        }
    }

    /// Holds back a frame that is ahead of its turn.
    fn stash(&mut self, frame: Frame)
        requires
            old(self)@.wf(),
            seq_after(frame.seq, old(self)@.rx_next_seq),
        ensures
            final(self)@ == old(self)@.stash(frame@),
            final(self)@.key() == old(self)@.key(),
            final(self)@.wf(),
    {
        match find_seq(&self.rx_reorder_buffer, frame.seq) {
            Some(i) => {
                assert(self@.reorder[i as int].seq == frame.seq);
            },
            None => {
                let ghost before = self@;
                self.rx_reorder_buffer.push(frame);
                assert(self@.reorder =~= before.reorder.push(frame@));
            },
        }
    }

    /// Takes a frame that the peer sent to this endpoint.
    pub fn recv_frame(&mut self, frame: Frame) -> (reaction: Reaction)
        requires
            old(self)@.wf(),
        ensures
            final(self)@ == old(self)@.on_frame(frame@).socket,
            reply_view(reaction.reply) == old(self)@.on_frame(frame@).reply,
            reaction.release == old(self)@.on_frame(frame@).release,
            final(self)@.key() == old(self)@.key(),
            final(self)@.wf(),
    {
        match frame.flag {
            Flag::Rst => match self.state {
                SocketState::Closed | SocketState::Reset => Reaction { reply: None, release: false },
                _ => {
                    self.state = SocketState::Reset;
                    Reaction { reply: None, release: true }
                },
            },
            Flag::Syn => match (self.state, self.inbound_role) {
                (SocketState::Closed, Role::Server) => {
                    self.state = SocketState::SynReceived;
                    Reaction {
                        reply: Some(
                            Frame::new_init(self.local_port, self.remote_port, Flag::SynAck),
                        ),
                        release: false,
                    }
                },
                _ => Reaction { reply: None, release: false },
            },
            Flag::SynAck => match self.state {
                SocketState::SynSent => {
                    self.state = SocketState::Established;
                    Reaction {
                        reply: Some(Frame::new_init(self.local_port, self.remote_port, Flag::Ack)),
                        release: false,
                    }
                },
                _ => Reaction { reply: None, release: false },
            },
            Flag::Ack => match self.state {
                SocketState::SynReceived => {
                    self.state = SocketState::Established;
                    Reaction { reply: None, release: false }
                },
                _ => Reaction { reply: None, release: false },
            },
            Flag::Fin | Flag::Unset => match self.state {
                SocketState::Established | SocketState::FinSent => {
                    if frame.seq == self.rx_next_seq {
                        let ghost before = self@;
                        self.deliver(frame);
                        proof {
                            let after = self@;
                            assert forall|j: int| 0 <= j < after.reorder.len() implies (
                            #[trigger] after.reorder[j]).seq == after.rx_next_seq || seq_after(
                                after.reorder[j].seq,
                                after.rx_next_seq,
                            ) by {
                                assert(after.reorder[j] == before.reorder[j]);
                                lemma_seq_order(before.reorder[j].seq, before.rx_next_seq);
                            }
                        }
                        self.absorb();
                    } else if is_after(frame.seq, self.rx_next_seq) {
                        self.stash(frame);
                    }
                    let release = match self.state {
                        SocketState::Closed => true,
                        _ => false,
                    };
                    Reaction { reply: None, release }
                },
                _ => Reaction { reply: None, release: false },
            },
        }
    }

    /// Cuts the caller's data into data frames of at most `buf_size` bytes
    /// and numbers them, as far as `room` frames go. It fails with a broken
    /// pipe, and changes nothing, when the endpoint takes no data.
    pub fn write(&mut self, data: &[u8], buf_size: usize, room: usize) -> (result: Result<
        Written,
        MuxError,
    >)
        requires
            old(self)@.wf(),
        ensures
            final(self)@.wf(),
            final(self)@.key() == old(self)@.key(),
            match result {
                Err(error) => {
                    &&& !old(self)@.can_send()
                    &&& error == MuxError::BrokenPipe
                    &&& final(self)@ == old(self)@
                },
                Ok(written) => {
                    &&& old(self)@.can_send()
                    &&& frames_view(written.frames@) == old(self)@.chunk_frames(
                        data@,
                        buf_size as nat,
                        room as nat,
                    )
                    &&& written.accepted == SocketView::accepted_len(
                        data@.len(),
                        buf_size as nat,
                        room as nat,
                    )
                    &&& final(self)@ == old(self)@.after_sends(written.frames@.len())
                },
            },
    {
        if !self.can_send() {
            return Err(MuxError::BrokenPipe);
        }
        let ghost start = self@;
        let mut frames: Vec<Frame> = Vec::new();
        let mut offset: usize = 0;
        assert(frames_view(frames@) =~= Seq::empty());
        assert(data@.skip(0) =~= data@);
        if buf_size == 0 {
            assert(room * 0 == 0) by (nonlinear_arith);
            return Ok(Written { frames, accepted: 0 });
        }
        assert(0 * buf_size == 0) by (nonlinear_arith);
        while offset < data.len() && frames.len() < room
            invariant
                buf_size >= 1,
                offset <= data.len(),
                frames.len() <= room,
                self@.wf(),
                self@ == start.after_sends(frames@.len()),
                start.chunk_frames(data@, buf_size as nat, room as nat) == frames_view(frames@)
                    + self@.chunk_frames(
                    data@.skip(offset as int),
                    buf_size as nat,
                    (room - frames.len()) as nat,
                ),
                offset == min_len(data@.len(), (frames.len() * buf_size) as nat),
            decreases data.len() - offset,
        {
            let ghost before = self@;
            let ghost sent = frames@;
            let ghost rest = data@.skip(offset as int);
            let left: usize = data.len() - offset;
            let n: usize = if buf_size < left {
                buf_size
            } else {
                left
            };
            let chunk = slice_subrange(data, offset, offset + n);
            let frame = Frame::new_data(self.local_port, self.remote_port, self.tx_seq, chunk);
            self.tx_seq = next_seq(self.tx_seq);
            proof {
                assert(chunk@ =~= rest.take(n as int));
                assert(rest.skip(n as int) =~= data@.skip(offset + n));
                assert(frame@ == before.data_frame(rest.take(n as int)));
                assert(self@ == before.after_send());
                assert((sent.len() + 1) * buf_size == sent.len() * buf_size + buf_size)
                    by (nonlinear_arith);
            }
            frames.push(frame);
            offset += n;
            proof {
                assert(frames_view(frames@) =~= frames_view(sent).push(frame@));
                assert(frames_view(sent) + (seq![frame@] + self@.chunk_frames(
                    data@.skip(offset as int),
                    buf_size as nat,
                    (room - frames.len()) as nat,
                )) =~= frames_view(frames@) + self@.chunk_frames(
                    data@.skip(offset as int),
                    buf_size as nat,
                    (room - frames.len()) as nat,
                ));
            }
        }
        proof {
            let k = frames@.len();
            assert(k * buf_size <= room * buf_size) by (nonlinear_arith)
                requires
                    k <= room,
                    buf_size >= 0,
            ;
        }
        Ok(Written { frames, accepted: offset })
    }

    /// Hands out at most `max_len` bytes from the front of the inbox.
    pub fn read(&mut self, max_len: usize) -> (result: Result<ReadOutcome, MuxError>)
        requires
            old(self)@.wf(),
        ensures
            final(self)@ == old(self)@.after_read(max_len as nat),
            read_view(result) == old(self)@.read_outcome(max_len as nat),
            final(self)@.key() == old(self)@.key(),
            final(self)@.wf(),
    {
        match self.state {
            SocketState::Reset => {
                return Err(
                    if self.carrier_lost {
                        MuxError::BrokenPipe
                    } else {
                        MuxError::ConnectionReset
                    },
                );
            },
            _ => {},
        }
        if self.inbox.len() > 0 {
            let n: usize = if max_len < self.inbox.len() {
                max_len
            } else {
                self.inbox.len()
            };
            let mut rest = self.inbox.split_off(n);
            std::mem::swap(&mut self.inbox, &mut rest);
            return Ok(ReadOutcome::Data(rest));
        }
        assert(self@.inbox.skip(0) =~= self@.inbox);
        match self.state {
            SocketState::FinReceived | SocketState::Closed | SocketState::Closing => Ok(
                ReadOutcome::Eof,
            ),
            _ => Ok(ReadOutcome::Pending),
        }
    }

    /// Resets the endpoint because the carrier is gone.
    pub fn reset(&mut self)
        requires
            old(self)@.wf(),
        ensures
            final(self)@ == old(self)@.carrier_lost(),
            final(self)@.wf(),
    {
        self.state = SocketState::Reset;
        self.carrier_lost = true;
    }
}

} // verus!
