use tungstenite::Message;
use websocket_multiplexor::frame::FrameError;
use websocket_multiplexor::inner::{Maintenance, WriterStep};
use websocket_multiplexor::ports::probe;
use websocket_multiplexor::socket::{ReadOutcome, SocketState};
use websocket_multiplexor::table::ReaderStep;
use websocket_multiplexor::{
    Config, Flag, Frame, MuxError, MuxStream, WebSocketMultiplexor, WebSocketMultiplexorInner,
};

fn small_config() -> Config {
    Config {
        max_frame_size: 1000,
        buf_size: 4,
        max_queued_frames: 2,
        accept_queue_len: 1,
        identifier: "small",
    }
}

fn take(mux: &mut WebSocketMultiplexorInner) -> Option<Frame> {
    match mux.frame_writer_sender() {
        WriterStep::Send(message) => Some(Frame::try_from(message).unwrap()),
        _ => None,
    }
}

fn give(mux: &mut WebSocketMultiplexorInner, frame: Frame) -> ReaderStep {
    mux.frame_reader_sender(Message::from(frame)).step
}

/// An established stream from remote port 5000 to local port 80.
fn with_stream(config: Config) -> WebSocketMultiplexor {
    let mut mux = WebSocketMultiplexor::new(config);
    let listener = mux.bind(80).unwrap();
    give(&mut mux.inner, Frame::new_init(5000, 80, Flag::Syn));
    give(&mut mux.inner, Frame::new_init(5000, 80, Flag::Ack));
    assert!(listener.accept(&mut mux).unwrap().is_some());
    assert_eq!(take(&mut mux.inner).unwrap().flag, Flag::SynAck);
    assert_eq!(mux.inner.state_of(80, 5000), Some(SocketState::Established));
    mux
}

#[test]
fn default_configuration() {
    let config = Config::default();
    assert_eq!(config.max_frame_size, 4 * 1024 * 1024);
    assert_eq!(config.buf_size, 1024 * 1024);
    assert_eq!(config.max_queued_frames, 256);
    assert_eq!(config.accept_queue_len, 16);
    assert_eq!(config.identifier, "");
    assert!(config.validate());
    let named = config.with_identifier("left");
    assert_eq!(named.identifier, "left");
    assert_eq!(named.buf_size, config.buf_size);
}

#[test]
fn configuration_limits() {
    let good = Config { max_frame_size: 12, buf_size: 1, ..Config::default() };
    assert!(good.validate());
    assert!(!Config { max_frame_size: 11, buf_size: 1, ..Config::default() }.validate());
    assert!(!Config { buf_size: 0, ..Config::default() }.validate());
    assert!(!Config { max_queued_frames: 0, ..Config::default() }.validate());
    assert!(!Config { accept_queue_len: 0, ..Config::default() }.validate());
    assert!(!Config { max_frame_size: 10, buf_size: 1, ..Config::default() }.validate());
    assert!(!Config { max_frame_size: 1000, buf_size: 990, ..Config::default() }.validate());
    assert!(Config { max_frame_size: 1000, buf_size: 989, ..Config::default() }.validate());
}

#[test]
fn new_multiplexor_is_empty_and_connected() {
    let mux = WebSocketMultiplexor::new(small_config());
    assert!(mux.watch_connected());
    assert!(mux.inner.is_running());
    assert_eq!(mux.inner.config().buf_size, 4);
    assert_eq!(mux.inner.connection_count(), 0);
    assert_eq!(mux.inner.listener_count(), 0);
    assert_eq!(mux.inner.outbound_len(), 0);
    let paused = WebSocketMultiplexor::new_paused(small_config());
    assert!(paused.watch_connected());
    assert!(!paused.inner.is_running());
}

#[test]
fn largest_frame_is_taken_and_one_byte_more_is_dropped() {
    let mut mux = WebSocketMultiplexorInner::new(small_config(), true);
    let fits = Frame::new_data(5000, 80, 1, &vec![0u8; 1000 - 11]);
    assert_eq!(give(&mut mux, fits), ReaderStep::Refused);
    assert_eq!(mux.outbound_len(), 1);
    let too_large = Frame::new_data(5000, 80, 1, &vec![0u8; 1000 - 11 + 1]);
    assert_eq!(mux.oversize_frames(), 0);
    assert_eq!(give(&mut mux, too_large), ReaderStep::Oversize);
    assert_eq!(mux.outbound_len(), 1);
    assert_eq!(mux.oversize_frames(), 1);
}

#[test]
fn messages_that_hold_no_frame_are_dropped() {
    let mut mux = WebSocketMultiplexorInner::new(small_config(), true);
    let text = mux.frame_reader_sender(Message::Text("hi".to_string()));
    assert_eq!(text.step, ReaderStep::Invalid(FrameError::NotBinary));
    let ping = mux.frame_reader_sender(Message::Ping(vec![1, 2, 3]));
    assert_eq!(ping.step, ReaderStep::Invalid(FrameError::NotBinary));
    let short = mux.frame_reader_sender(Message::Binary(vec![0; 8]));
    assert_eq!(short.step, ReaderStep::Invalid(FrameError::Truncated));
    assert_eq!(mux.outbound_len(), 0);
    assert!(mux.is_connected());
}

#[test]
fn frame_for_nobody_gets_one_rst_with_ports_swapped() {
    let mut mux = WebSocketMultiplexorInner::new(small_config(), true);
    for flag in [Flag::Syn, Flag::SynAck, Flag::Ack, Flag::Fin, Flag::Unset] {
        assert_eq!(give(&mut mux, Frame::new_no_data(5000, 80, flag, 9)), ReaderStep::Refused);
        let rst = take(&mut mux).unwrap();
        assert_eq!((rst.sport, rst.dport, rst.flag, rst.seq), (80, 5000, Flag::Rst, 0));
        assert!(rst.data.is_empty());
        assert!(take(&mut mux).is_none());
    }
    assert_eq!(give(&mut mux, Frame::new_init(5000, 80, Flag::Rst)), ReaderStep::Ignored);
    assert!(take(&mut mux).is_none());
    assert_eq!(mux.connection_count(), 0);
}

#[test]
fn frame_for_a_bound_port_without_stream_gets_rst_unless_it_is_syn() {
    let mut mux = WebSocketMultiplexor::new(small_config());
    let _listener = mux.bind(80).unwrap();
    assert_eq!(give(&mut mux.inner, Frame::new_data(5000, 80, 1, b"x")), ReaderStep::Refused);
    assert_eq!(take(&mut mux.inner).unwrap().flag, Flag::Rst);
    assert_eq!(
        give(&mut mux.inner, Frame::new_init(5000, 80, Flag::Syn)),
        ReaderStep::Accepted { local_port: 80, remote_port: 5000 }
    );
    assert_eq!(take(&mut mux.inner).unwrap().flag, Flag::SynAck);
}

#[test]
fn full_accept_queue_holds_the_reader_back() {
    let mut mux = WebSocketMultiplexor::new(small_config());
    let listener = mux.bind(80).unwrap();
    assert_eq!(
        give(&mut mux.inner, Frame::new_init(5000, 80, Flag::Syn)),
        ReaderStep::Accepted { local_port: 80, remote_port: 5000 }
    );
    let blocked = mux.inner.frame_reader_sender(Message::from(Frame::new_init(5001, 80, Flag::Syn)));
    assert_eq!(blocked.step, ReaderStep::Blocked);
    let held = blocked.held.unwrap();
    assert_eq!((held.sport, held.dport, held.flag), (5001, 80, Flag::Syn));
    assert_eq!(mux.inner.connection_count(), 1);
    assert_eq!(mux.inner.outbound_len(), 1);

    let again = mux.inner.route(held);
    assert_eq!(again.step, ReaderStep::Blocked);
    let held = again.held.unwrap();

    let first = listener.accept(&mut mux).unwrap().unwrap();
    assert_eq!((first.local_port(), first.remote_port()), (80, 5000));
    assert!(listener.accept(&mut mux).unwrap().is_none());
    let routed = mux.inner.route(held);
    assert_eq!(routed.step, ReaderStep::Accepted { local_port: 80, remote_port: 5001 });
    assert!(routed.held.is_none());
    let second = listener.accept(&mut mux).unwrap().unwrap();
    assert_eq!((second.local_port(), second.remote_port()), (80, 5001));
}

#[test]
fn full_outbound_queue_holds_writers_back() {
    let mut mux = with_stream(small_config());
    let stream = MuxStream::new(80, 5000);
    assert_eq!(stream.write(&mut mux, b"0123456789"), Ok(8));
    assert_eq!(mux.inner.outbound_len(), 2);
    assert_eq!(stream.write(&mut mux, b"89"), Ok(0));

    let first = take(&mut mux.inner).unwrap();
    assert_eq!((first.flag, first.seq, &first.data[..]), (Flag::Unset, 1, &b"0123"[..]));
    assert_eq!(stream.write(&mut mux, b"89abcdef"), Ok(4));
    let second = take(&mut mux.inner).unwrap();
    assert_eq!((second.seq, &second.data[..]), (2, &b"4567"[..]));
    let third = take(&mut mux.inner).unwrap();
    assert_eq!((third.seq, &third.data[..]), (3, &b"89ab"[..]));
    assert!(take(&mut mux.inner).is_none());
}

#[test]
fn control_frames_are_queued_past_the_writers_limit() {
    let mut mux = with_stream(small_config());
    let stream = MuxStream::new(80, 5000);
    assert_eq!(stream.write(&mut mux, b"01234567"), Ok(8));
    stream.close(&mut mux);
    assert_eq!(mux.inner.outbound_len(), 3);
    give(&mut mux.inner, Frame::new_init(6000, 81, Flag::Ack));
    assert_eq!(mux.inner.outbound_len(), 4);
}

#[test]
fn a_second_syn_takes_the_place_of_the_stream() {
    let mut mux = WebSocketMultiplexor::new(Config::default());
    let listener = mux.bind(80).unwrap();
    give(&mut mux.inner, Frame::new_init(5000, 80, Flag::Syn));
    give(&mut mux.inner, Frame::new_init(5000, 80, Flag::Ack));
    give(&mut mux.inner, Frame::new_data(5000, 80, 1, b"old"));
    assert_eq!(mux.inner.state_of(80, 5000), Some(SocketState::Established));

    give(&mut mux.inner, Frame::new_init(5000, 80, Flag::Syn));
    assert_eq!(mux.inner.connection_count(), 1);
    assert_eq!(mux.inner.connection_keys(), vec![(80, 5000)]);
    assert_eq!(mux.inner.state_of(80, 5000), Some(SocketState::SynReceived));
    let stream = listener.accept(&mut mux).unwrap().unwrap();
    assert!(matches!(stream.read(&mut mux, 8), Ok(ReadOutcome::Pending)));
}

#[test]
fn names_stay_unique() {
    let mut mux = WebSocketMultiplexor::new(Config::default());
    let _one = mux.bind(80).unwrap();
    let _two = mux.bind(81).unwrap();
    let _three = mux.bind(0).unwrap();
    for remote in [5000u16, 5001, 5000, 5002, 5001] {
        give(&mut mux.inner, Frame::new_init(remote, 80, Flag::Syn));
        give(&mut mux.inner, Frame::new_init(remote, 81, Flag::Syn));
    }
    for _ in 0..5 {
        mux.connect(80).unwrap();
    }
    let keys = mux.inner.connection_keys();
    assert_eq!(keys.len(), 11);
    for (i, a) in keys.iter().enumerate() {
        for b in &keys[i + 1..] {
            assert_ne!(a, b);
        }
    }
    let ports = mux.inner.listener_ports();
    assert_eq!(ports.len(), 3);
    assert_eq!(&ports[..2], &[80, 81]);
    assert!(ports[2] >= 1024 && ports[2] < 65535);
}

#[test]
fn connect_walks_to_the_first_free_local_port() {
    let mut mux = WebSocketMultiplexor::new(Config::default());
    let first = mux.connect_from(80, 65533).unwrap();
    let second = mux.connect_from(80, 65533).unwrap();
    let third = mux.connect_from(80, 65533).unwrap();
    let other_remote = mux.connect_from(81, 65533).unwrap();
    assert_eq!(first.local_port(), 65533);
    assert_eq!(second.local_port(), 65534);
    assert_eq!(third.local_port(), 1024);
    assert_eq!(other_remote.local_port(), 65533);
    assert_eq!(first.remote_port(), 80);

    let syn = take(&mut mux.inner).unwrap();
    assert_eq!((syn.sport, syn.dport, syn.flag, syn.seq), (65533, 80, Flag::Syn, 0));
    assert_eq!(mux.inner.state_of(65533, 80), Some(SocketState::SynSent));
    assert_eq!(first.handshake(&mux), Ok(false));
}

#[test]
fn bind_walks_to_the_first_free_port() {
    let mut mux = WebSocketMultiplexor::new(Config::default());
    assert_eq!(mux.bind_from(0, 65534).unwrap().port(), 65534);
    assert_eq!(mux.bind_from(0, 65534).unwrap().port(), 1024);
    assert_eq!(mux.bind_from(0, 65534).unwrap().port(), 1025);
    assert_eq!(mux.bind_from(1026, 2000).unwrap().port(), 1026);
    assert_eq!(mux.bind_from(0, 1024).unwrap().port(), 1027);
    assert_eq!(mux.bind_from(1026, 2000).unwrap_err(), MuxError::AddrInUse);
    assert_eq!(mux.bind_from(65535, 2000).unwrap().port(), 65535);
    assert_eq!(mux.bind_from(23, 2000).unwrap().port(), 23);
}

#[test]
fn probe_finds_the_first_port_that_is_not_taken() {
    assert_eq!(probe(&vec![], 5000), Some(5000));
    assert_eq!(probe(&vec![5000, 5002, 5001], 5000), Some(5003));
    assert_eq!(probe(&vec![65534], 65534), Some(1024));
    assert_eq!(probe(&vec![65534, 1024], 65534), Some(1025));
    assert_eq!(probe(&vec![80, 65535], 1024), Some(1024));
}

#[test]
fn operations_on_names_that_are_not_there() {
    let mut mux = WebSocketMultiplexor::new(Config::default());
    let ghost = MuxStream::new(1, 2);
    assert!(matches!(ghost.read(&mut mux, 8), Ok(ReadOutcome::Eof)));
    assert_eq!(ghost.write(&mut mux, b"x"), Err(MuxError::BrokenPipe));
    assert_eq!(ghost.handshake(&mux), Err(MuxError::Other));
    ghost.close(&mut mux);
    assert_eq!(mux.inner.outbound_len(), 0);
    assert_eq!(mux.inner.accept(80), Err(MuxError::Other));
    assert_eq!(mux.inner.state_of(1, 2), None);
    assert!(!mux.inner.is_bound(80));
    assert!(matches!(mux.inner.handle_mux_state_change(), Maintenance::Idle));
}

#[test]
fn accept_on_a_dropped_listener_fails() {
    let mut mux = WebSocketMultiplexor::new(Config::default());
    let listener = mux.bind(80).unwrap();
    assert_eq!(mux.inner.accept(80), Ok(None));
    listener.close(&mut mux);
    mux.inner.process_may_close_listeners_once();
    assert_eq!(mux.inner.accept(80), Err(MuxError::Other));
    // A second signal for the same port changes nothing.
    mux.inner.release_listener(80);
    mux.inner.process_may_close_listeners_once();
    assert_eq!(mux.inner.listener_count(), 0);
    mux.inner.process_may_close_listeners_once();
    assert_eq!(mux.inner.listener_count(), 0);
}

#[test]
fn dropped_listener_closes_the_streams_nobody_accepted() {
    let mut mux = WebSocketMultiplexor::new(Config::default());
    let keep = mux.bind(81).unwrap();
    let listener = mux.bind(80).unwrap();
    give(&mut mux.inner, Frame::new_init(5000, 80, Flag::Syn));
    give(&mut mux.inner, Frame::new_init(5000, 80, Flag::Ack));
    give(&mut mux.inner, Frame::new_init(5001, 80, Flag::Syn));
    give(&mut mux.inner, Frame::new_init(5002, 80, Flag::Syn));
    give(&mut mux.inner, Frame::new_init(5002, 80, Flag::Ack));
    give(&mut mux.inner, Frame::new_init(5003, 81, Flag::Syn));
    let accepted = listener.accept(&mut mux).unwrap().unwrap();
    assert_eq!(accepted.remote_port(), 5000);
    while take(&mut mux.inner).is_some() {}

    listener.close(&mut mux);
    assert!(mux.inner.is_bound(80));
    assert!(matches!(
        mux.inner.handle_mux_state_change(),
        Maintenance::ListenerFreed { port: 80 }
    ));
    assert!(!mux.inner.is_bound(80));
    assert!(mux.inner.is_bound(81));
    // The accepted stream goes on; of the others one was established and
    // says `Fin`, one was not and leaves without a word.
    assert_eq!(mux.inner.state_of(80, 5000), Some(SocketState::Established));
    assert_eq!(mux.inner.state_of(80, 5001), Some(SocketState::Closed));
    assert_eq!(mux.inner.state_of(80, 5002), Some(SocketState::FinSent));
    assert_eq!(mux.inner.state_of(81, 5003), Some(SocketState::SynReceived));
    let fin = take(&mut mux.inner).unwrap();
    assert_eq!((fin.sport, fin.dport, fin.flag, fin.seq), (80, 5002, Flag::Fin, 1));
    assert!(take(&mut mux.inner).is_none());
    assert!(matches!(
        mux.inner.handle_mux_state_change(),
        Maintenance::ConnectionFreed { local_port: 80, remote_port: 5001 }
    ));
    assert_eq!(mux.inner.connection_count(), 3);
    assert!(keep.accept(&mut mux).unwrap().is_some());
}

#[test]
fn finished_streams_leave_one_signal_at_a_time() {
    let mut mux = with_stream(Config::default());
    give(&mut mux.inner, Frame::new_init(5000, 80, Flag::Rst));
    assert_eq!(mux.inner.state_of(80, 5000), Some(SocketState::Reset));
    assert_eq!(mux.inner.connection_count(), 1);
    mux.inner.process_may_close_connections_once();
    assert_eq!(mux.inner.connection_count(), 0);
    mux.inner.process_may_close_connections_once();
    assert_eq!(mux.inner.connection_count(), 0);
}

#[test]
fn writer_hands_out_frames_oldest_first() {
    let mut mux = WebSocketMultiplexor::new(Config::default());
    assert!(matches!(mux.inner.frame_writer_sender(), WriterStep::Idle));
    let stream = mux.connect_from(80, 2000).unwrap();
    give(&mut mux.inner, Frame::new_init(80, 2000, Flag::SynAck));
    assert_eq!(stream.write(&mut mux, b"abc"), Ok(3));
    match mux.inner.frame_writer_sender() {
        WriterStep::Send(message) => {
            assert_eq!(message, Message::Binary(vec![0x07, 0xd0, 0, 80, 0, 0, 0, 0, 0]));
        }
        other => panic!("nothing to send: {:?}", other),
    }
    assert_eq!(take(&mut mux.inner).unwrap().flag, Flag::Ack);
    match mux.inner.frame_writer_sender() {
        WriterStep::Send(message) => {
            assert_eq!(
                message,
                Message::Binary(vec![0x07, 0xd0, 0, 80, 5, 0, 0, 0, 1, b'a', b'b', b'c'])
            );
        }
        other => panic!("nothing to send: {:?}", other),
    }
    assert!(matches!(mux.inner.frame_writer_sender(), WriterStep::Idle));
    mux.close();
    assert!(matches!(mux.inner.frame_writer_sender(), WriterStep::Stopped));
    assert_eq!(
        mux.inner.frame_reader_sender(Message::Binary(vec![0; 9])).step,
        ReaderStep::Stopped
    );
}

#[test]
fn unknown_flag_byte_is_read_as_data() {
    assert_eq!(Flag::from_byte(0), Flag::Syn);
    assert_eq!(Flag::from_byte(1), Flag::SynAck);
    assert_eq!(Flag::from_byte(2), Flag::Ack);
    assert_eq!(Flag::from_byte(3), Flag::Rst);
    assert_eq!(Flag::from_byte(4), Flag::Fin);
    assert_eq!(Flag::from_byte(5), Flag::Unset);
    assert_eq!(Flag::from_byte(6), Flag::Unset);
    assert_eq!(Flag::from_byte(255), Flag::Unset);
    assert_eq!(Flag::Fin.to_byte(), 4);
    let frame = Frame::decode(vec![0, 1, 0, 2, 77, 0, 0, 0, 3, 9]).unwrap();
    assert_eq!(frame.flag, Flag::Unset);
    assert_eq!(frame.data, vec![9]);
}

#[test]
fn reply_swaps_the_ports() {
    let frame = Frame::new_data(10, 20, 5, b"abc");
    let reply = Frame::new_reply(&frame, Flag::Rst, 7);
    assert_eq!((reply.sport, reply.dport, reply.flag, reply.seq), (20, 10, Flag::Rst, 7));
    assert!(reply.data.is_empty());
    let init = Frame::new_init(1, 2, Flag::Syn);
    assert_eq!((init.sport, init.dport, init.flag, init.seq), (1, 2, Flag::Syn, 0));
    let plain = Frame::new_no_data(1, 2, Flag::Fin, 9);
    assert_eq!((plain.flag, plain.seq, plain.data.len()), (Flag::Fin, 9, 0));
}

#[test]
fn ephemeral_ports_are_drawn_at_random() {
    let mut mux = WebSocketMultiplexor::new(Config::default());
    let mut seen = Vec::new();
    for remote in 0..32u16 {
        let stream = mux.connect(remote).unwrap();
        assert!((1024..65535).contains(&stream.local_port()));
        assert_eq!(stream.remote_port(), remote);
        if !seen.contains(&stream.local_port()) {
            seen.push(stream.local_port());
        }
    }
    assert!(seen.len() > 1);
}
