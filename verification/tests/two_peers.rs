use tungstenite::Message;
use websocket_multiplexor::inner::{Maintenance, WriterStep};
use websocket_multiplexor::socket::{ReadOutcome, SocketState};
use websocket_multiplexor::table::ReaderStep;
use websocket_multiplexor::{Config, Flag, Frame, MuxError, MuxStream, WebSocketMultiplexor};

/// Carries every waiting message from one peer to the other and returns the
/// frames that went over.
fn carry(from: &mut WebSocketMultiplexor, to: &mut WebSocketMultiplexor) -> Vec<Frame> {
    let mut seen = Vec::new();
    loop {
        match from.inner.frame_writer_sender() {
            WriterStep::Send(message) => {
                seen.push(Frame::try_from(message.clone()).unwrap());
                let received = to.inner.frame_reader_sender(message);
                assert!(received.held.is_none());
            }
            _ => break,
        }
    }
    seen
}

/// Carries messages both ways until neither peer has anything to send.
fn settle(a: &mut WebSocketMultiplexor, b: &mut WebSocketMultiplexor) {
    loop {
        let moved = carry(a, b).len() + carry(b, a).len();
        if moved == 0 {
            break;
        }
    }
}

/// Runs the maintenance task until it has nothing to do.
fn maintain(mux: &mut WebSocketMultiplexor) {
    loop {
        match mux.inner.handle_mux_state_change() {
            Maintenance::Idle => break,
            Maintenance::Drained(_) => break,
            _ => {}
        }
    }
}

/// Binds `port` on `a`, connects to it from `b`, and returns both ends of
/// the established stream.
fn open_stream(
    a: &mut WebSocketMultiplexor,
    b: &mut WebSocketMultiplexor,
    port: u16,
) -> (MuxStream, MuxStream) {
    let listener = a.bind(port).unwrap();
    let client = b.connect(port).unwrap();
    settle(a, b);
    let server = listener.accept(a).unwrap().unwrap();
    assert_eq!(client.handshake(b), Ok(true));
    assert_eq!(server.handshake(a), Ok(true));
    (server, client)
}

fn read_all(stream: &MuxStream, mux: &mut WebSocketMultiplexor) -> Vec<u8> {
    let mut all = Vec::new();
    loop {
        match stream.read(mux, 4096).unwrap() {
            ReadOutcome::Data(bytes) => all.extend_from_slice(&bytes),
            _ => break,
        }
    }
    all
}

#[test]
fn hello_world_then_end_of_stream() {
    let mut a = WebSocketMultiplexor::new(Config::default());
    let mut b = WebSocketMultiplexor::new(Config::default());
    let (server, client) = open_stream(&mut a, &mut b, 23);
    assert_eq!(server.local_port(), 23);
    assert_eq!(client.remote_port(), 23);
    assert!(matches!(client.read(&mut b, 16), Ok(ReadOutcome::Pending)));

    assert_eq!(server.write(&mut a, b"Hello, world!"), Ok(13));
    settle(&mut a, &mut b);
    match client.read(&mut b, 16).unwrap() {
        ReadOutcome::Data(bytes) => assert_eq!(bytes, b"Hello, world!".to_vec()),
        other => panic!("no data: {:?}", other),
    }
    assert!(matches!(client.read(&mut b, 16), Ok(ReadOutcome::Pending)));

    server.close(&mut a);
    settle(&mut a, &mut b);
    assert!(matches!(client.read(&mut b, 16), Ok(ReadOutcome::Eof)));
    assert_eq!(
        b.inner.state_of(client.local_port(), 23),
        Some(SocketState::FinReceived)
    );
}

#[test]
fn connect_without_listener_is_refused_with_one_rst() {
    let mut a = WebSocketMultiplexor::new(Config::default());
    let mut b = WebSocketMultiplexor::new(Config::default());
    let client = b.connect(99).unwrap();
    assert_eq!(client.handshake(&b), Ok(false));

    let to_a = carry(&mut b, &mut a);
    assert_eq!(to_a.len(), 1);
    assert_eq!(to_a[0].flag, Flag::Syn);
    let to_b = carry(&mut a, &mut b);
    assert_eq!(to_b.len(), 1);
    assert_eq!(to_b[0].flag, Flag::Rst);
    assert_eq!(to_b[0].sport, 99);
    assert_eq!(to_b[0].dport, client.local_port());
    assert_eq!(to_b[0].seq, 0);
    assert!(to_b[0].data.is_empty());
    assert!(carry(&mut b, &mut a).is_empty());
    assert!(carry(&mut a, &mut b).is_empty());

    assert_eq!(client.handshake(&b), Err(MuxError::Other));
    assert_eq!(a.inner.connection_count(), 0);
    assert_eq!(a.inner.listener_count(), 0);

    maintain(&mut b);
    assert_eq!(b.inner.connection_count(), 0);
}

#[test]
fn bind_zero_picks_an_ephemeral_port() {
    let mut mux = WebSocketMultiplexor::new(Config::default());
    let listener = mux.bind(0).unwrap();
    let port = listener.port();
    assert!((1024..65535).contains(&port));
    assert!(mux.inner.is_bound(port));

    assert_eq!(mux.bind(port).unwrap_err(), MuxError::AddrInUse);

    listener.close(&mut mux);
    assert!(matches!(
        mux.inner.handle_mux_state_change(),
        Maintenance::ListenerFreed { port: freed } if freed == port
    ));
    assert!(!mux.inner.is_bound(port));
    assert_eq!(mux.bind(port).unwrap().port(), port);
}

#[test]
fn two_streams_carry_a_mebibyte_each() {
    let mut a = WebSocketMultiplexor::new(Config::default().with_identifier("a"));
    let mut b = WebSocketMultiplexor::new(Config::default().with_identifier("b"));
    let (server_one, client_one) = open_stream(&mut a, &mut b, 1);
    let (server_two, client_two) = open_stream(&mut a, &mut b, 2);

    let size = 1024 * 1024;
    let first: Vec<u8> = (0..size).map(|i| (i % 251) as u8).collect();
    let second: Vec<u8> = (0..size).map(|i| (i % 241) as u8 ^ 0x55).collect();

    let piece = 100_000;
    let mut sent_one = 0;
    let mut sent_two = 0;
    let mut got_one = Vec::new();
    let mut got_two = Vec::new();
    while sent_one < size || sent_two < size {
        if sent_one < size {
            let end = (sent_one + piece).min(size);
            sent_one += client_one.write(&mut b, &first[sent_one..end]).unwrap();
        }
        if sent_two < size {
            let end = (sent_two + piece).min(size);
            sent_two += client_two.write(&mut b, &second[sent_two..end]).unwrap();
        }
        settle(&mut a, &mut b);
        got_one.extend(read_all(&server_one, &mut a));
        got_two.extend(read_all(&server_two, &mut a));
    }
    assert_eq!(got_one.len(), size);
    assert_eq!(got_two.len(), size);
    assert!(got_one == first);
    assert!(got_two == second);

    // The other way, in one write each.
    assert_eq!(server_one.write(&mut a, &second), Ok(size));
    assert_eq!(server_two.write(&mut a, &first), Ok(size));
    settle(&mut a, &mut b);
    assert!(read_all(&client_one, &mut b) == second);
    assert!(read_all(&client_two, &mut b) == first);
}

#[test]
fn paused_peer_binds_before_the_first_syn_is_taken() {
    let mut a = WebSocketMultiplexor::new_paused(Config::default());
    let mut b = WebSocketMultiplexor::new_paused(Config::default());
    assert!(a.watch_connected());
    assert!(!a.inner.is_running());

    // A paused multiplexor takes nothing from the carrier and sends nothing.
    let early = Message::from(Frame::new_init(5000, 7, Flag::Syn));
    assert_eq!(a.inner.frame_reader_sender(early).step, ReaderStep::Parked);
    assert!(matches!(b.inner.frame_writer_sender(), WriterStep::Parked));
    assert_eq!(a.inner.outbound_len(), 0);

    let listener_a = a.bind(7).unwrap();
    let listener_b = b.bind(8).unwrap();
    let to_a = b.connect(7).unwrap();
    let to_b = a.connect(8).unwrap();
    a.start();
    b.start();
    assert!(a.inner.is_running());
    settle(&mut a, &mut b);

    assert_eq!(to_a.handshake(&b), Ok(true));
    assert_eq!(to_b.handshake(&a), Ok(true));
    assert!(listener_a.accept(&mut a).unwrap().is_some());
    assert!(listener_b.accept(&mut b).unwrap().is_some());
}

#[test]
fn syn_before_bind_is_reset() {
    let mut a = WebSocketMultiplexor::new(Config::default());
    let syn = Message::from(Frame::new_init(5000, 7, Flag::Syn));
    assert_eq!(a.inner.frame_reader_sender(syn).step, ReaderStep::Refused);
    let _listener = a.bind(7).unwrap();
    let syn = Message::from(Frame::new_init(5000, 7, Flag::Syn));
    assert_eq!(
        a.inner.frame_reader_sender(syn).step,
        ReaderStep::Accepted { local_port: 7, remote_port: 5000 }
    );
}

#[test]
fn dropped_multiplexor_breaks_the_peers_pipe() {
    let mut a = WebSocketMultiplexor::new(Config::default());
    let mut b = WebSocketMultiplexor::new(Config::default());
    let (server, client) = open_stream(&mut a, &mut b, 23);
    assert_eq!(server.write(&mut a, b"partial"), Ok(7));

    a.close();
    assert!(!a.watch_connected());
    match a.inner.handle_mux_state_change() {
        Maintenance::Drained(mut sockets) => {
            assert_eq!(sockets.len(), 1);
            assert_eq!(sockets[0].state(), SocketState::Reset);
            assert_eq!(sockets[0].read(16).unwrap_err(), MuxError::BrokenPipe);
        }
        other => panic!("not drained: {:?}", other),
    }
    assert_eq!(a.inner.connection_count(), 0);
    assert_eq!(a.inner.listener_count(), 0);
    assert_eq!(a.inner.outbound_len(), 0);
    assert!(matches!(a.inner.frame_writer_sender(), WriterStep::Stopped));

    // The carrier fails under the peer.
    b.close();
    assert_eq!(client.read(&mut b, 16).unwrap_err(), MuxError::BrokenPipe);
    assert_eq!(client.write(&mut b, b"x").unwrap_err(), MuxError::BrokenPipe);
    assert_eq!(b.connect(23).unwrap_err(), MuxError::ConnectionReset);
    assert_eq!(b.bind(40).unwrap_err(), MuxError::ConnectionReset);
    assert_eq!(client.handshake(&b), Err(MuxError::ConnectionReset));
    maintain(&mut b);
    assert_eq!(b.inner.connection_count(), 0);
    assert_eq!(client.read(&mut b, 16).unwrap_err(), MuxError::BrokenPipe);
}

#[test]
fn closing_one_stream_leaves_the_other_alone() {
    let mut a = WebSocketMultiplexor::new(Config::default());
    let mut b = WebSocketMultiplexor::new(Config::default());
    let (server_one, client_one) = open_stream(&mut a, &mut b, 1);
    let (server_two, client_two) = open_stream(&mut a, &mut b, 2);
    assert_eq!(server_two.write(&mut a, b"kept"), Ok(4));
    settle(&mut a, &mut b);

    // One stream is reset by the peer, the other closed by both sides.
    let rst = Message::from(Frame::new_init(1, client_one.local_port(), Flag::Rst));
    assert_eq!(
        b.inner.frame_reader_sender(rst).step,
        ReaderStep::Delivered { local_port: client_one.local_port(), remote_port: 1 }
    );
    assert_eq!(client_one.read(&mut b, 8).unwrap_err(), MuxError::ConnectionReset);
    assert_eq!(client_one.write(&mut b, b"x").unwrap_err(), MuxError::BrokenPipe);
    server_one.close(&mut a);
    settle(&mut a, &mut b);
    maintain(&mut a);
    maintain(&mut b);

    assert_eq!(b.inner.state_of(client_two.local_port(), 2), Some(SocketState::Established));
    assert_eq!(read_all(&client_two, &mut b), b"kept".to_vec());
    assert_eq!(client_two.write(&mut b, b"still open"), Ok(10));
    settle(&mut a, &mut b);
    assert_eq!(read_all(&server_two, &mut a), b"still open".to_vec());
    assert_eq!(b.inner.connection_keys(), vec![(client_two.local_port(), 2)]);
}

#[test]
fn closing_twice_is_closing_once() {
    let mut a = WebSocketMultiplexor::new(Config::default());
    let mut b = WebSocketMultiplexor::new(Config::default());
    let (server, client) = open_stream(&mut a, &mut b, 23);
    let again = MuxStream::new(server.local_port(), server.remote_port());

    server.close(&mut a);
    assert_eq!(a.inner.outbound_len(), 1);
    assert_eq!(a.inner.state_of(23, client.local_port()), Some(SocketState::FinSent));
    again.close(&mut a);
    assert_eq!(a.inner.outbound_len(), 1);
    assert_eq!(a.inner.state_of(23, client.local_port()), Some(SocketState::FinSent));

    a.close();
    a.close();
    assert!(!a.watch_connected());
    assert!(matches!(a.inner.handle_mux_state_change(), Maintenance::Drained(_)));
    match a.inner.handle_mux_state_change() {
        Maintenance::Drained(sockets) => assert!(sockets.is_empty()),
        other => panic!("not drained: {:?}", other),
    }
    let _ = b;
}

#[test]
fn both_sides_close_and_the_stream_leaves_the_tables() {
    let mut a = WebSocketMultiplexor::new(Config::default());
    let mut b = WebSocketMultiplexor::new(Config::default());
    let (server, client) = open_stream(&mut a, &mut b, 23);
    let local = client.local_port();
    server.close(&mut a);
    settle(&mut a, &mut b);
    assert_eq!(b.inner.state_of(local, 23), Some(SocketState::FinReceived));
    client.close(&mut b);
    assert_eq!(b.inner.state_of(local, 23), Some(SocketState::Closed));
    settle(&mut a, &mut b);
    assert_eq!(a.inner.state_of(23, local), Some(SocketState::Closed));
    assert!(matches!(
        a.inner.handle_mux_state_change(),
        Maintenance::ConnectionFreed { local_port: 23, remote_port } if remote_port == local
    ));
    maintain(&mut b);
    assert_eq!(a.inner.connection_count(), 0);
    assert_eq!(b.inner.connection_count(), 0);
    assert!(matches!(a.inner.handle_mux_state_change(), Maintenance::Idle));
}
