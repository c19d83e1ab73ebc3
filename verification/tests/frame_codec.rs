use tungstenite::Message;
use websocket_multiplexor::frame::FrameError;
use websocket_multiplexor::{Flag, Frame};

#[test]
fn encode_lays_out_header_then_payload() {
    let frame = Frame::new_data(0x1234, 0x00ff, 0x0102_0304, &[9, 8, 7]);
    assert_eq!(
        frame.encode(),
        vec![0x12, 0x34, 0x00, 0xff, 5, 0x01, 0x02, 0x03, 0x04, 9, 8, 7]
    );
}

#[test]
fn decode_reads_what_encode_wrote() {
    let bytes = Frame::new_no_data(23, 40000, Flag::Fin, 77).encode();
    let frame = Frame::decode(bytes).unwrap();
    assert_eq!(frame.sport, 23);
    assert_eq!(frame.dport, 40000);
    assert_eq!(frame.flag, Flag::Fin);
    assert_eq!(frame.seq, 77);
    assert!(frame.data.is_empty());
}

#[test]
fn decode_refuses_short_message() {
    assert_eq!(Frame::decode(vec![0; 8]).unwrap_err(), FrameError::Truncated);
    assert!(Frame::decode(vec![0; 9]).is_ok());
}

#[test]
fn message_round_trip() {
    let message = Message::from(Frame::new_data(1, 2, 3, b"abc"));
    assert_eq!(message, Message::Binary(vec![0, 1, 0, 2, 5, 0, 0, 0, 3, b'a', b'b', b'c']));
    let frame = Frame::try_from(message).unwrap();
    assert_eq!(frame.data, b"abc".to_vec());
    assert_eq!(frame.seq, 3);
}

#[test]
fn text_message_is_not_a_frame() {
    let result = Frame::try_from(Message::Text("hello".to_string()));
    assert_eq!(result.unwrap_err(), FrameError::NotBinary);
}

#[test]
fn decode_reads_big_endian_numbers() {
    let frame = Frame::decode(vec![0x12, 0x34, 0xfe, 0xdc, 3, 0x01, 0x02, 0x03, 0x04, 7, 8]).unwrap();
    assert_eq!(frame.sport, 0x1234);
    assert_eq!(frame.dport, 0xfedc);
    assert_eq!(frame.flag, Flag::Rst);
    assert_eq!(frame.seq, 0x0102_0304);
    assert_eq!(frame.data, vec![7, 8]);
}

#[test]
fn every_frame_survives_the_wire() {
    let flags = [Flag::Syn, Flag::SynAck, Flag::Ack, Flag::Rst, Flag::Fin, Flag::Unset];
    let numbers = [0u32, 1, 255, 256, 65535, 65536, 0x00ff_ffff, 0x0100_0000, u32::MAX];
    for flag in flags {
        for seq in numbers {
            for port in [0u16, 1, 255, 256, 1024, 65535] {
                let payload: Vec<u8> = (0..(seq % 17) as u8).collect();
                let mut frame = Frame::new_data(port, !port, seq, &payload);
                frame.flag = flag;
                let back = Frame::decode(frame.encode()).unwrap();
                assert_eq!(back.sport, port);
                assert_eq!(back.dport, !port);
                assert_eq!(back.flag, flag);
                assert_eq!(back.seq, seq);
                assert_eq!(back.data, payload);
            }
        }
    }
}
