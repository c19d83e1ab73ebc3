//! Laws of the port tables, stated over the view of a multiplexor.

use crate::config::FRAME_OVERHEAD;
use crate::error::MuxError;
use crate::frame::{Flag, FrameView};
use crate::socket::{
    lemma_chunk_frames_shape, lemma_step_keeps_name, ReadView, Role, SocketState, SocketStep,
    SocketView,
};
use crate::table::{
    lemma_connection_at, lemma_listener_at, lemma_remove_keeps_order, lemma_same_tables,
    lemma_update_keeps_order, MaintenanceView, MuxView, ReaderStep,
};
use tungstenite::Message;
use vstd::prelude::*;

verus! {

/// The stream named `name` is the same in both tables: there in both or in
/// neither, and with the same state, counters and buffers.
pub open spec fn same_stream(before: MuxView, after: MuxView, name: (u16, u16)) -> bool {
    &&& after.has_connection(name) == before.has_connection(name)
    &&& before.has_connection(name) ==> after.connection(name) == before.connection(name)
}

/// No two listeners share a port, and no two streams share the pair of
/// their ports.
pub proof fn lemma_names_are_unique(mux: MuxView)
    requires
        mux.wf(),
    ensures
        forall|i: int, j: int|
            0 <= i < mux.listeners.len() && 0 <= j < mux.listeners.len() && i != j ==> (
            #[trigger] mux.listeners[i]).port != (#[trigger] mux.listeners[j]).port,
        forall|i: int, j: int|
            0 <= i < mux.connections.len() && 0 <= j < mux.connections.len() && i != j ==> (
            #[trigger] mux.connections[i]).key() != (#[trigger] mux.connections[j]).key(),
{
    assert forall|i: int, j: int|
        0 <= i < mux.listeners.len() && 0 <= j < mux.listeners.len() && i != j implies (
    #[trigger] mux.listeners[i]).port != (#[trigger] mux.listeners[j]).port by {
        if i < j {
            assert(mux.listeners[i].port != mux.listeners[j].port);
        } else {
            assert(mux.listeners[j].port != mux.listeners[i].port);
        }
    }
    assert forall|i: int, j: int|
        0 <= i < mux.connections.len() && 0 <= j < mux.connections.len() && i != j implies (
    #[trigger] mux.connections[i]).key() != (#[trigger] mux.connections[j]).key() by {
        if i < j {
            assert(mux.connections[i].key() != mux.connections[j].key());
        } else {
            assert(mux.connections[j].key() != mux.connections[i].key());
        }
    }
}

/// A change of the stream at `index` that keeps its name changes no stream
/// of another name.
pub proof fn lemma_update_isolates(
    before: MuxView,
    after: MuxView,
    index: int,
    other: (u16, u16),
)
    requires
        before.wf(),
        0 <= index < before.connections.len(),
        after.connections.len() == before.connections.len(),
        forall|i: int|
            0 <= i < before.connections.len() && i != index ==> after.connections[i]
                == before.connections[i],
        after.connections[index].key() == before.connections[index].key(),
        other != before.connections[index].key(),
    ensures
        same_stream(before, after, other),
{
    if before.has_connection(other) {
        let at = before.connection_index(other);
        assert(after.connections[at].key() == other);
    }
    if after.has_connection(other) {
        let at = after.connection_index(other);
        assert(before.connections[at].key() == other);
        lemma_connection_at(before, at);
    }
}

/// The leaving of the stream at `index` changes no stream of another name.
pub proof fn lemma_remove_isolates(before: MuxView, after: MuxView, index: int, other: (u16, u16))
    requires
        before.wf(),
        0 <= index < before.connections.len(),
        after.connections == before.connections.remove(index),
        other != before.connections[index].key(),
    ensures
        same_stream(before, after, other),
{
    if before.has_connection(other) {
        let at = before.connection_index(other);
        let moved = if at < index { at } else { at - 1 };
        assert(after.connections[moved] == before.connections[at]);
    }
    if after.has_connection(other) {
        let at = after.connection_index(other);
        let was = if at < index { at } else { at + 1 };
        assert(before.connections[was] == after.connections[at]);
        lemma_connection_at(before, was);
    }
}

/// The coming of a stream changes no stream of another name.
pub proof fn lemma_push_isolates(
    before: MuxView,
    after: MuxView,
    socket: SocketView,
    other: (u16, u16),
)
    requires
        before.wf(),
        after.connections == before.connections.push(socket),
        other != socket.key(),
    ensures
        same_stream(before, after, other),
{
    if before.has_connection(other) {
        let at = before.connection_index(other);
        assert(after.connections[at] == before.connections[at]);
    }
    if after.has_connection(other) {
        let at = after.connection_index(other);
        assert(at < before.connections.len());
        assert(before.connections[at] == after.connections[at]);
        lemma_connection_at(before, at);
    }
}

/// Isolation of a close: closing one stream changes no other stream, and
/// no listener.
pub proof fn lemma_close_isolates(mux: MuxView, name: (u16, u16), other: (u16, u16))
    requires
        mux.wf(),
        other != name,
    ensures
        same_stream(mux, mux.close_stream(name), other),
        mux.close_stream(name).listeners == mux.listeners,
{
    if mux.has_connection(name) {
        let index = mux.connection_index(name);
        lemma_update_isolates(mux, mux.close_stream(name), index, other);
    }
}

/// Isolation of a frame: whatever a frame does to the stream it names, be
/// it data, a close or a reset, it changes no stream of another name.
pub proof fn lemma_frame_isolates(mux: MuxView, frame: FrameView, other: (u16, u16))
    requires
        mux.wf(),
        other != (frame.dport, frame.sport),
    ensures
        same_stream(mux, mux.route(frame).0, other),
        same_stream(mux, mux.dispatch(frame).0, other),
{
    let name = (frame.dport, frame.sport);
    let after = mux.dispatch(frame).0;
    if frame.flag == Flag::Syn && mux.has_listener(frame.dport) {
        let at = mux.listener_index(frame.dport);
        if mux.listeners[at].queue.len() < mux.config.accept_queue_len {
            let step = SocketView::fresh(frame.dport, frame.sport, Role::Server).on_frame(
                frame,
            );
            let middle = MuxView { connections: mux.without_connection(name), ..mux };
            if mux.has_connection(name) {
                let index = mux.connection_index(name);
                lemma_remove_isolates(mux, middle, index, other);
                lemma_remove_keeps_order(mux, index);
            } else {
                assert(middle == mux);
            }
            lemma_push_isolates(middle, after, step.socket, other);
        }
    } else if mux.has_connection(name) {
        let index = mux.connection_index(name);
        lemma_step_keeps_name(mux.connections[index], frame);
        lemma_update_isolates(mux, after, index, other);
    }
}

/// Isolation of a removal: when a finished stream leaves the table, every
/// other stream stays as it is.
pub proof fn lemma_removal_isolates(mux: MuxView, other: (u16, u16))
    requires
        mux.wf(),
        mux.may_close_connections.len() > 0,
        other != mux.may_close_connections[0],
    ensures
        same_stream(mux, mux.free_connection(), other),
{
    let name = mux.may_close_connections[0];
    if mux.has_connection(name) {
        lemma_remove_isolates(mux, mux.free_connection(), mux.connection_index(name), other);
    }
}

/// A paused multiplexor neither takes nor sends: whatever the carrier
/// offers, nothing changes, and no frame leaves the outbound queue.
pub proof fn lemma_paused_is_still(mux: MuxView, message: Message, frame: FrameView)
    requires
        !mux.running,
    ensures
        mux.receive(message) == (mux, ReaderStep::Parked),
        mux.route(frame) == (mux, ReaderStep::Parked),
        mux.next_outbound() is None,
        mux.after_transmit() == mux,
{
}

/// A frame for nobody is reset. A frame other than `Rst` that names no
/// stream, and is no `Syn` for a bound port, puts exactly one frame on the
/// outbound queue and changes nothing else: a `Rst` without payload from
/// the frame's destination port to its source port.
pub proof fn lemma_unknown_is_reset(mux: MuxView, frame: FrameView)
    requires
        mux.running,
        mux.connected,
        !mux.oversize(frame),
        frame.flag != Flag::Rst,
        !mux.has_connection((frame.dport, frame.sport)),
        !(frame.flag == Flag::Syn && mux.has_listener(frame.dport)),
    ensures
        mux.route(frame).1 == ReaderStep::Refused,
        mux.route(frame).0 == (MuxView {
            outbound: mux.outbound.push(
                FrameView {
                    sport: frame.dport,
                    dport: frame.sport,
                    flag: Flag::Rst,
                    seq: 0,
                    data: Seq::empty(),
                },
            ),
            ..mux
        }),
{
}

/// A `Rst` for nobody is dropped without an answer.
pub proof fn lemma_unknown_rst_is_dropped(mux: MuxView, frame: FrameView)
    requires
        mux.running,
        mux.connected,
        !mux.oversize(frame),
        frame.flag == Flag::Rst,
        !mux.has_connection((frame.dport, frame.sport)),
    ensures
        mux.route(frame) == (mux, ReaderStep::Ignored),
{
}

/// The largest frame. A frame whose payload and overhead come to exactly
/// `max_frame_size` is dispatched; with one byte more it is dropped, and
/// nothing changes but the count of such frames.
pub proof fn lemma_frame_size_boundary(mux: MuxView, frame: FrameView)
    requires
        mux.running,
        mux.connected,
    ensures
        frame.data.len() + FRAME_OVERHEAD == mux.config.max_frame_size ==> mux.route(frame)
            == mux.dispatch(frame),
        frame.data.len() + FRAME_OVERHEAD == mux.config.max_frame_size + 1 ==> mux.route(frame)
            == (mux.counted(), ReaderStep::Oversize),
        mux.counted().connections == mux.connections,
        mux.counted().listeners == mux.listeners,
        mux.counted().outbound == mux.outbound,
{
}

/// What a write sends fits. No data frame of a write is larger than the
/// writer's own configuration allows, so a peer with the same limits drops
/// none of them.
pub proof fn lemma_written_frames_fit(mux: MuxView, name: (u16, u16), data: Seq<u8>, i: int)
    requires
        mux.wf(),
        mux.has_connection(name),
        0 <= i < mux.connection(name).chunk_frames(
            data,
            mux.config.buf_size as nat,
            mux.room(),
        ).len(),
    ensures
        !mux.oversize(
            mux.connection(name).chunk_frames(data, mux.config.buf_size as nat, mux.room())[i],
        ),
{
    lemma_chunk_frames_shape(mux.connection(name), data, mux.config.buf_size as nat, mux.room());
}

/// After the loss of the carrier nothing is left open. From the moment the
/// multiplexor is closed, every read and write meets a broken pipe, `bind`
/// and `connect` meet a reset connection, and `accept` finds its listener
/// closed. One turn of the maintenance task then empties both tables and
/// hands out every stream reset, with a broken pipe for its reader.
pub proof fn lemma_carrier_loss_closes(
    mux: MuxView,
    name: (u16, u16),
    port: u16,
    start: u16,
    data: Seq<u8>,
    max_len: nat,
)
    ensures
        ({
            let lost = mux.close();
            &&& !lost.connected
            &&& lost.read_outcome(name, max_len) == Err::<ReadView, MuxError>(MuxError::BrokenPipe)
            &&& lost.write_outcome(name, data) == Err::<nat, MuxError>(MuxError::BrokenPipe)
            &&& lost.bind_port(port, start) == Err::<u16, MuxError>(MuxError::ConnectionReset)
            &&& lost.connect_port(port, start) == Err::<u16, MuxError>(MuxError::ConnectionReset)
            &&& lost.accept_outcome(port) == Err::<Option<(u16, u16)>, MuxError>(MuxError::Other)
            &&& lost.maintain().0.connections.len() == 0
            &&& lost.maintain().0.listeners.len() == 0
            &&& lost.maintain().0.outbound.len() == 0
            &&& lost.maintain().1 matches MaintenanceView::Drained(sockets) && sockets.len()
                == mux.connections.len() && forall|i: int|
                0 <= i < sockets.len() ==> (#[trigger] sockets[i]).state == SocketState::Reset
                    && sockets[i].key() == mux.connections[i].key() && sockets[i].read_outcome(
                    max_len,
                ) == Err::<ReadView, MuxError>(MuxError::BrokenPipe)
        }),
{
}

/// Closing a multiplexor twice is closing it once, and draining it twice
/// is draining it once.
pub proof fn lemma_close_is_idempotent(mux: MuxView)
    ensures
        mux.close().close() == mux.close(),
        mux.close().maintain().0.maintain().0 == mux.close().maintain().0,
        mux.start().start() == mux.start(),
{
    let drained = mux.close().maintain().0;
    assert(drained.drained() == drained);
}

/// Closing a stream that its caller has closed already does nothing: no
/// frame, no change of state, no second request for removal.
pub proof fn lemma_socket_close_is_idempotent(socket: SocketView)
    ensures
        socket.close().socket.close() == (SocketStep {
            socket: socket.close().socket,
            reply: None,
            release: false,
        }),
{
}

/// Closing a stream of a multiplexor twice is closing it once.
pub proof fn lemma_stream_close_is_idempotent(mux: MuxView, name: (u16, u16))
    requires
        mux.wf(),
    ensures
        mux.close_stream(name).close_stream(name) == mux.close_stream(name),
{
    let once = mux.close_stream(name);
    if mux.has_connection(name) {
        let index = mux.connection_index(name);
        let step = mux.connections[index].close();
        lemma_update_keeps_order(mux, index, step.socket);
        lemma_same_tables(
            MuxView { connections: mux.connections.update(index, step.socket), ..mux },
            once,
        );
        assert(once.connections[index].key() == name);
        lemma_connection_at(once, index);
        lemma_socket_close_is_idempotent(mux.connections[index]);
        assert(once.connections.update(index, step.socket) =~= once.connections);
    } else {
        assert(once == mux);
    }
}

/// Freeing a port that has no listener does nothing to the tables: the
/// signal is taken and that is all. So a listener that is dropped twice is
/// dropped once.
pub proof fn lemma_listener_close_is_idempotent(mux: MuxView)
    requires
        mux.may_close_listeners.len() > 0,
        !mux.has_listener(mux.may_close_listeners[0]),
    ensures
        mux.free_listener() == (MuxView {
            may_close_listeners: mux.may_close_listeners.drop_first(),
            ..mux
        }),
{
    let rest = MuxView { may_close_listeners: mux.may_close_listeners.drop_first(), ..mux };
    assert(rest.has_listener(mux.may_close_listeners[0]) == mux.has_listener(
        mux.may_close_listeners[0],
    ));
}

/// Freeing the port of a listener frees it for good: after the signal has
/// been served no listener has the port, so it can be bound again.
pub proof fn lemma_freed_port_is_free(mux: MuxView)
    requires
        mux.wf(),
        mux.may_close_listeners.len() > 0,
    ensures
        !mux.free_listener().has_listener(mux.may_close_listeners[0]),
{
    let port = mux.may_close_listeners[0];
    let rest = MuxView { may_close_listeners: mux.may_close_listeners.drop_first(), ..mux };
    lemma_same_tables(mux, rest);
    if rest.has_listener(port) {
        let at = rest.listener_index(port);
        let cut = MuxView { listeners: rest.listeners.remove(at), ..rest };
        assert(!cut.has_listener(port)) by {
            if cut.has_listener(port) {
                let found = cut.listener_index(port);
                let was = if found < at { found } else { found + 1 };
                assert(cut.listeners[found] == rest.listeners[was]);
                lemma_listener_at(rest, was);
            }
        }
        lemma_close_streams_keeps_listeners(cut, rest.listeners[at].queue);
    }
}

/// Closing streams changes no listener.
pub proof fn lemma_close_streams_keeps_listeners(mux: MuxView, names: Seq<(u16, u16)>)
    ensures
        mux.close_streams(names).listeners == mux.listeners,
    decreases names.len(),
{
    if names.len() > 0 {
        lemma_close_streams_keeps_listeners(mux.close_stream(names.first()), names.drop_first());
    }
}

} // verus!
