//! What a reader gets is what the writer gave: laws of the two ends of a
//! stream, stated over their views.

use crate::config::FRAME_OVERHEAD;
use crate::error::MuxError;
use crate::frame::{lemma_decode_encode, Flag, FrameView};
use crate::laws::{lemma_frame_isolates, same_stream};
use crate::sequence::{lemma_seq_advance_shift, lemma_seq_order, seq_advance, seq_succ};
use crate::socket::{
    holds_seq, lemma_chunk_frames_shape, lemma_step_keeps_name, lemma_step_keeps_order, min_len,
    position, ReadView, Role, SocketState, SocketView,
};
use crate::table::{
    lemma_connection_at, lemma_same_tables, lemma_update_keeps_order, MuxView,
};
use crate::wire::binary_payload;
use tungstenite::Message;
use vstd::prelude::*;

verus! {

/// The receiving end `rx` has taken every frame that the sending end `tx`
/// has numbered so far, and holds none back.
pub open spec fn in_step(tx: SocketView, rx: SocketView) -> bool {
    &&& rx.receiving()
    &&& rx.reorder.len() == 0
    &&& rx.rx_next_seq == tx.tx_seq
}

/// The handshake puts the two ends in step. When a client end is opened,
/// its `Syn` is taken by a fresh server end, the answer by the client and
/// the client's `Ack` by the server, both ends are established and each
/// expects the frame that the other numbers next.
pub proof fn lemma_handshake_puts_ends_in_step(client_port: u16, server_port: u16)
    ensures
        ({
            let opened = SocketView::fresh(client_port, server_port, Role::Client).start();
            let heard = SocketView::fresh(server_port, client_port, Role::Server).on_frame(
                opened.reply->0,
            );
            let answered = opened.socket.on_frame(heard.reply->0);
            let done = heard.socket.on_frame(answered.reply->0);
            &&& opened.reply == Some(
                FrameView {
                    sport: client_port,
                    dport: server_port,
                    flag: Flag::Syn,
                    seq: 0,
                    data: Seq::empty(),
                },
            )
            &&& heard.reply == Some(
                FrameView {
                    sport: server_port,
                    dport: client_port,
                    flag: Flag::SynAck,
                    seq: 0,
                    data: Seq::empty(),
                },
            )
            &&& answered.reply == Some(
                FrameView {
                    sport: client_port,
                    dport: server_port,
                    flag: Flag::Ack,
                    seq: 0,
                    data: Seq::empty(),
                },
            )
            &&& done.reply is None
            &&& answered.socket.state == SocketState::Established
            &&& done.socket.state == SocketState::Established
            &&& in_step(answered.socket, done.socket)
            &&& in_step(done.socket, answered.socket)
        }),
{
}

/// Cutting data into frames and taking the frames in order puts the data
/// together again, whatever the size of the pieces. The bytes that a write
/// places in its frames arrive at the end of the reader's inbox, in the
/// order in which they were written, and nothing else changes at the
/// reader but the number of the frame it expects. Afterwards the two ends
/// are in step again, so the same holds of the next write. Where the frames
/// have room for all the data, all of it arrives.
pub proof fn lemma_chunks_reassemble(
    tx: SocketView,
    rx: SocketView,
    data: Seq<u8>,
    size: nat,
    room: nat,
)
    requires
        in_step(tx, rx),
    ensures
        ({
            let frames = tx.chunk_frames(data, size, room);
            let accepted = SocketView::accepted_len(data.len(), size, room);
            let after = rx.after_frames(frames);
            &&& after == SocketView {
                inbox: rx.inbox + data.take(accepted as int),
                rx_next_seq: seq_advance(rx.rx_next_seq, frames.len()),
                ..rx
            }
            &&& in_step(tx.after_sends(frames.len()), after)
            &&& room * size >= data.len() ==> after.inbox == rx.inbox + data
        }),
    decreases room,
{
    let frames = tx.chunk_frames(data, size, room);
    let accepted = SocketView::accepted_len(data.len(), size, room);
    if room == 0 || data.len() == 0 || size == 0 {
        assert(accepted == 0) by (nonlinear_arith)
            requires
                room == 0 || data.len() == 0 || size == 0,
                accepted == min_len(data.len(), room * size),
        ;
        assert(rx.inbox + data.take(0) =~= rx.inbox);
        if room * size >= data.len() {
            assert(data.len() == 0) by (nonlinear_arith)
                requires
                    room == 0 || data.len() == 0 || size == 0,
                    room * size >= data.len(),
            ;
            assert(rx.inbox + data =~= rx.inbox);
        }
    } else {
        let n = min_len(size, data.len()) as int;
        let first = tx.data_frame(data.take(n));
        let tx1 = tx.after_send();
        let rest = tx1.chunk_frames(data.skip(n), size, (room - 1) as nat);
        assert(frames.first() == first);
        assert(frames.drop_first() =~= rest);
        let delivered = rx.deliver(first);
        assert(!holds_seq(delivered.reorder, delivered.rx_next_seq));
        assert(delivered.drain() == delivered);
        assert(rx.on_frame(first).socket == delivered);
        lemma_chunks_reassemble(tx1, delivered, data.skip(n), size, (room - 1) as nat);
        lemma_seq_advance_shift(rx.rx_next_seq, rest.len());
        let tail = SocketView::accepted_len(data.skip(n).len(), size, (room - 1) as nat);
        assert(accepted == n + tail) by (nonlinear_arith)
            requires
                room >= 1,
                size >= 1,
                n == min_len(size, data.len()),
                accepted == min_len(data.len(), room * size),
                tail == min_len((data.len() - n) as nat, ((room - 1) * size) as nat),
        ;
        assert(data.take(n) + data.skip(n).take(tail as int) =~= data.take(accepted as int));
        assert((rx.inbox + data.take(n)) + data.skip(n).take(tail as int) =~= rx.inbox + data.take(
            accepted as int,
        ));
        if room * size >= data.len() {
            assert(data.take(accepted as int) =~= data);
        }
    }
}

/// A graceful close ends the stream after its last byte. When the writer
/// closes an end that is in step with the reader, its `Fin` changes nothing
/// in the reader's inbox; from then on the reader finds the bytes that are
/// left, and after the last of them the end of the stream.
pub proof fn lemma_fin_ends_stream(tx: SocketView, rx: SocketView, max_len: nat)
    requires
        in_step(tx, rx),
        tx.state == SocketState::Established || tx.state == SocketState::FinReceived,
    ensures
        tx.close().reply is Some,
        ({
            let after = rx.on_frame(tx.close().reply->0).socket;
            &&& after.inbox == rx.inbox
            &&& after.state == SocketState::FinReceived || after.state == SocketState::Closed
            &&& after.inbox.len() > 0 ==> after.read_outcome(max_len) == Ok::<ReadView, MuxError>(
                ReadView::Data(after.inbox.take(min_len(max_len, after.inbox.len()) as int)),
            )
            &&& after.inbox.len() == 0 ==> after.read_outcome(max_len) == Ok::<ReadView, MuxError>(
                ReadView::Eof,
            )
        }),
{
    let fin = tx.close().reply->0;
    let delivered = rx.deliver(fin);
    assert(!holds_seq(delivered.reorder, delivered.rx_next_seq));
}

/// A data frame that overtakes the one before it is held back until that
/// one has come: the reader ends as if the two had come in order.
pub proof fn lemma_overtaking_frame_waits(rx: SocketView, first: FrameView, second: FrameView)
    requires
        rx.receiving(),
        rx.reorder.len() == 0,
        first.flag == Flag::Unset,
        second.flag == Flag::Unset,
        first.seq == rx.rx_next_seq,
        second.seq == seq_succ(first.seq),
    ensures
        rx.after_frames(seq![second, first]) == rx.after_frames(seq![first, second]),
        rx.after_frames(seq![first, second]) == (SocketView {
            inbox: rx.inbox + first.data + second.data,
            rx_next_seq: seq_succ(seq_succ(rx.rx_next_seq)),
            ..rx
        }),
{
    lemma_seq_order(second.seq, first.seq);
    let none = Seq::<FrameView>::empty();
    // In order.
    let a1 = rx.deliver(first);
    assert(!holds_seq(a1.reorder, a1.rx_next_seq));
    assert(rx.on_frame(first).socket == a1);
    let a2 = a1.deliver(second);
    assert(!holds_seq(a2.reorder, a2.rx_next_seq));
    assert(a1.on_frame(second).socket == a2);
    let in_order = seq![first, second];
    assert(in_order.drop_first() =~= seq![second]);
    assert(in_order.drop_first().drop_first() =~= none);
    assert(rx.after_frames(in_order) == a1.after_frames(seq![second]));
    assert(a1.after_frames(seq![second]) == a2.after_frames(none));
    // Out of order.
    assert(!holds_seq(rx.reorder, second.seq));
    let b1 = rx.stash(second);
    assert(rx.on_frame(second).socket == b1);
    assert(b1.reorder =~= seq![second]);
    let b2 = b1.deliver(first);
    assert(b2.reorder[0].seq == b2.rx_next_seq);
    assert(holds_seq(b2.reorder, b2.rx_next_seq));
    assert(position(b2.reorder, b2.rx_next_seq) == 0);
    assert(b2.reorder.remove(0) =~= none);
    let b3 = (SocketView { reorder: none, ..b2 }).deliver(second);
    assert(!holds_seq(b3.reorder, b3.rx_next_seq));
    assert(b3.drain() == b3);
    assert(b2.drain() == b3);
    assert(b1.on_frame(first).socket == b3);
    let swapped = seq![second, first];
    assert(swapped.drop_first() =~= seq![first]);
    assert(swapped.drop_first().drop_first() =~= none);
    assert(rx.after_frames(swapped) == b1.after_frames(seq![first]));
    assert(b1.after_frames(seq![first]) == b3.after_frames(none));
    assert(rx.reorder =~= none);
    assert(a2.inbox =~= rx.inbox + first.data + second.data);
    assert(b3.inbox =~= a2.inbox);
    assert(a2 == b3);
    assert(a2.after_frames(none) == a2);
    assert(b3.after_frames(none) == b3);
}

/// What the writer sends is what the reader gets: a message that carries
/// the encoding of a frame is routed as that frame.
pub proof fn lemma_message_is_its_frame(mux: MuxView, message: Message, frame: FrameView)
    requires
        binary_payload(message) == Some(frame.encode()),
    ensures
        mux.receive(message) == mux.route(frame),
{
    lemma_decode_encode(frame);
}

/// Data frames for one stream reach that stream and no other. When a
/// running multiplexor routes data frames that all name the stream `name`,
/// the stream ends as if it had taken the frames itself, one by one; every
/// other stream, every listener and the outbound queue stay as they are.
pub proof fn lemma_frames_reach_their_stream(
    mux: MuxView,
    name: (u16, u16),
    frames: Seq<FrameView>,
    other: (u16, u16),
)
    requires
        mux.wf(),
        mux.running,
        mux.connected,
        mux.has_connection(name),
        other != name,
        forall|i: int|
            0 <= i < frames.len() ==> {
                let frame = #[trigger] frames[i];
                &&& (frame.dport, frame.sport) == name
                &&& frame.flag == Flag::Unset
                &&& !mux.oversize(frame)
            },
    ensures
        ({
            let after = mux.route_all(frames);
            &&& after.wf()
            &&& after.has_connection(name)
            &&& after.connection(name) == mux.connection(name).after_frames(frames)
            &&& same_stream(mux, after, other)
            &&& after.listeners == mux.listeners
            &&& after.outbound == mux.outbound
            &&& after.running && after.connected && after.config == mux.config
        }),
    decreases frames.len(),
{
    if frames.len() > 0 {
        let frame = frames.first();
        let index = mux.connection_index(name);
        let socket = mux.connections[index];
        let step = socket.on_frame(frame);
        let next = mux.route(frame).0;
        assert(next == mux.with_step(index, step));
        lemma_step_keeps_name(socket, frame);
        lemma_step_keeps_order(socket, frame);
        lemma_update_keeps_order(mux, index, step.socket);
        lemma_same_tables(
            MuxView { connections: mux.connections.update(index, step.socket), ..mux },
            next,
        );
        assert(next.connections[index].key() == name);
        lemma_connection_at(next, index);
        lemma_frame_isolates(mux, frame, other);
        let rest = frames.drop_first();
        assert forall|i: int| 0 <= i < rest.len() implies {
            let later = #[trigger] rest[i];
            &&& (later.dport, later.sport) == name
            &&& later.flag == Flag::Unset
            &&& !next.oversize(later)
        } by {
            assert(rest[i] == frames[i + 1]);
        }
        lemma_frames_reach_their_stream(next, name, rest, other);
    }
}

/// Byte fidelity from end to end. Let a stream of one peer be in step with
/// its other end at a running peer whose frames may be as large as the
/// writer's chunks. Then a write puts its data frames at the end of the
/// writer's outbound queue; and when the reader's peer has routed those
/// frames, the bytes that the write took stand at the end of the reader's
/// inbox, in the order in which they were written, the two ends are in
/// step again, and no other stream of the reader's peer has changed.
pub proof fn lemma_write_arrives(
    writer: MuxView,
    reader: MuxView,
    name: (u16, u16),
    data: Seq<u8>,
    other: (u16, u16),
)
    requires
        writer.wf(),
        reader.wf(),
        reader.running,
        reader.connected,
        writer.writable(name),
        reader.has_connection((name.1, name.0)),
        in_step(writer.connection(name), reader.connection((name.1, name.0))),
        writer.config.buf_size + FRAME_OVERHEAD <= reader.config.max_frame_size,
        other != (name.1, name.0),
    ensures
        ({
            let peer = (name.1, name.0);
            let size = writer.config.buf_size as nat;
            let frames = writer.connection(name).chunk_frames(data, size, writer.room());
            let accepted = SocketView::accepted_len(data.len(), size, writer.room());
            let written = writer.write(name, data);
            let arrived = reader.route_all(frames);
            &&& writer.write_outcome(name, data) == Ok::<nat, MuxError>(accepted)
            &&& written.outbound == writer.outbound + frames
            &&& arrived.has_connection(peer)
            &&& arrived.connection(peer).inbox == reader.connection(peer).inbox + data.take(
                accepted as int,
            )
            &&& written.has_connection(name)
            &&& in_step(written.connection(name), arrived.connection(peer))
            &&& same_stream(reader, arrived, other)
        }),
{
    let peer = (name.1, name.0);
    let size = writer.config.buf_size as nat;
    let index = writer.connection_index(name);
    let socket = writer.connections[index];
    let frames = socket.chunk_frames(data, size, writer.room());
    let written = writer.write(name, data);
    lemma_chunk_frames_shape(socket, data, size, writer.room());
    lemma_frames_reach_their_stream(reader, peer, frames, other);
    lemma_chunks_reassemble(socket, reader.connection(peer), data, size, writer.room());
    let sent = socket.after_sends(frames.len());
    lemma_update_keeps_order(writer, index, sent);
    lemma_same_tables(
        MuxView { connections: writer.connections.update(index, sent), ..writer },
        written,
    );
    assert(written.connections[index].key() == name);
    lemma_connection_at(written, index);
}

} // verus!
