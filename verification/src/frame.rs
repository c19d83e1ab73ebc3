//! The frame, the unit that travels on the carrier, and its byte layout.

use crate::config::FRAME_HEADER_LEN;
use crate::wire::{
    be16, be32, binary_message, binary_payload, bytes_from_vec, bytes_get_u16, bytes_get_u32,
    bytes_get_u8, bytes_into_vec, bytes_remaining, into_binary_payload,
};
use tungstenite::Message;
use vstd::prelude::*;
use vstd::std_specs::convert::{FromSpecImpl, TryFromSpecImpl};

verus! {

/// What a frame asks of the stream it belongs to.
#[derive(Clone, Copy, Debug, PartialEq, Eq, Structural)]
pub enum Flag {
    /// Opens a stream.
    Syn,
    /// Answers a `Syn`.
    SynAck,
    /// Completes the handshake.
    Ack,
    /// Aborts the stream.
    Rst,
    /// Ends the sender's half of the stream.
    Fin,
    /// Carries payload.
    Unset,
}

/// One message of the protocol.
#[derive(Debug)]
pub struct Frame {
    /// The sender's port.
    pub sport: u16,
    /// The receiver's port.
    pub dport: u16,
    /// The kind of frame.
    pub flag: Flag,
    /// Position of a data or `Fin` frame in its stream; zero on the others.
    pub seq: u32,
    /// The payload; empty on control frames.
    pub data: Vec<u8>,
}

/// A frame as a mathematical value.
pub struct FrameView {
    pub sport: u16,
    pub dport: u16,
    pub flag: Flag,
    pub seq: u32,
    pub data: Seq<u8>,
}

/// Why a carrier message is not a frame.
#[derive(Clone, Copy, Debug, PartialEq, Eq, Structural)]
pub enum FrameError {
    /// The message is not a binary message.
    NotBinary,
    /// The message is shorter than a frame header.
    Truncated,
}

impl View for Frame {
    type V = FrameView;

    open spec fn view(&self) -> FrameView {
        FrameView {
            sport: self.sport,
            dport: self.dport,
            flag: self.flag,
            seq: self.seq,
            data: self.data@,
        }
    }
}

impl Flag {
    /// The byte that stands for the flag on the wire.
    pub open spec fn wire_byte(self) -> u8 {
        match self {
            Flag::Syn => 0,
            Flag::SynAck => 1,
            Flag::Ack => 2,
            Flag::Rst => 3,
            Flag::Fin => 4,
            Flag::Unset => 5,
        }
    }

    /// The flag that a wire byte stands for. A byte that names no flag is
    /// read as `Unset`.
    pub open spec fn of_wire_byte(byte: u8) -> Flag {
        if byte == 0 {
            Flag::Syn
        } else if byte == 1 {
            Flag::SynAck
        } else if byte == 2 {
            Flag::Ack
        } else if byte == 3 {
            Flag::Rst
        } else if byte == 4 {
            Flag::Fin
        } else {
            Flag::Unset
        }
    }

    /// Computes `wire_byte`.
    pub fn to_byte(self) -> (byte: u8)
        ensures
            byte == self.wire_byte(),
    {
        match self {
            Flag::Syn => 0,
            Flag::SynAck => 1,
            Flag::Ack => 2,
            Flag::Rst => 3,
            Flag::Fin => 4,
            Flag::Unset => 5,
        }
    }

    /// Computes `of_wire_byte`.
    pub fn from_byte(byte: u8) -> (flag: Flag)
        ensures
            flag == Flag::of_wire_byte(byte),
    {
        match byte {
            0 => Flag::Syn,
            1 => Flag::SynAck,
            2 => Flag::Ack,
            3 => Flag::Rst,
            4 => Flag::Fin,
            _ => Flag::Unset,
        }
    }
}

impl FrameView {
    /// The control frame that answers `self`: its ports swapped, no payload.
    pub open spec fn reply(self, flag: Flag, seq: u32) -> FrameView {
        FrameView { sport: self.dport, dport: self.sport, flag, seq, data: Seq::empty() }
    }

    /// The bytes of the frame on the wire: source port, destination port,
    /// flag and sequence number, each big-endian, then the payload.
    pub open spec fn encode(self) -> Seq<u8> {
        seq![
            (self.sport / 256) as u8,
            (self.sport % 256) as u8,
            (self.dport / 256) as u8,
            (self.dport % 256) as u8,
            self.flag.wire_byte(),
            (self.seq / 0x100_0000) as u8,
            (self.seq / 0x1_0000 % 256) as u8,
            (self.seq / 0x100 % 256) as u8,
            (self.seq % 256) as u8,
        ] + self.data
    }

    /// The frame that a sequence of bytes holds, if it is long enough to
    /// hold a header.
    pub open spec fn decode(bytes: Seq<u8>) -> Option<FrameView> {
        if bytes.len() < FRAME_HEADER_LEN {
            None
        } else {
            Some(
                FrameView {
                    sport: be16(bytes[0], bytes[1]),
                    dport: be16(bytes[2], bytes[3]),
                    flag: Flag::of_wire_byte(bytes[4]),
                    seq: be32(bytes[5], bytes[6], bytes[7], bytes[8]),
                    data: bytes.skip(FRAME_HEADER_LEN as int),
                },
            )
        }
    }

    /// The frame that a carrier message holds, or the reason it holds none.
    pub open spec fn of_message(message: Message) -> Result<FrameView, FrameError> {
        match binary_payload(message) {
            None => Err(FrameError::NotBinary),
            Some(bytes) => match FrameView::decode(bytes) {
                None => Err(FrameError::Truncated),
                Some(frame) => Ok(frame),
            },
        }
    }
}

impl Frame {
    /// A frame without payload.
    pub fn new_no_data(sport: u16, dport: u16, flag: Flag, seq: u32) -> (frame: Self)
        ensures
            frame@ == (FrameView { sport, dport, flag, seq, data: Seq::empty() }),
    {
        Self { sport, dport, flag, seq, data: Vec::new() }
    }

    /// A frame without payload and with sequence number zero.
    pub fn new_init(sport: u16, dport: u16, flag: Flag) -> (frame: Self)
        ensures
            frame@ == (FrameView { sport, dport, flag, seq: 0, data: Seq::empty() }),
    {
        Self { sport, dport, flag, seq: 0, data: Vec::new() }
    }

    /// The frame without payload that answers `frame`: it goes from the
    /// port `frame` was sent to, to the port `frame` came from.
    pub fn new_reply(frame: &Frame, flag: Flag, seq: u32) -> (reply: Self)
        ensures
            reply@ == frame@.reply(flag, seq),
    {
        Self { sport: frame.dport, dport: frame.sport, flag, seq, data: Vec::new() }
    }

    /// A data frame that carries a copy of `data`.
    pub fn new_data(sport: u16, dport: u16, seq: u32, data: &[u8]) -> (frame: Self)
        ensures
            frame@ == (FrameView { sport, dport, flag: Flag::Unset, seq, data: data@ }),
    {
        let mut payload: Vec<u8> = Vec::new();
        payload.extend_from_slice(data);
        assert(payload@ =~= data@);
        Self { sport, dport, flag: Flag::Unset, seq, data: payload }
    }

    /// Writes the frame out as the bytes of one carrier message.
    pub fn encode(self) -> (bytes: Vec<u8>)
        ensures
            bytes@ == self@.encode(),
    {
        let mut frame = self;
        let mut encoded: Vec<u8> = Vec::new();
        encoded.push((frame.sport / 256) as u8);
        encoded.push((frame.sport % 256) as u8);
        encoded.push((frame.dport / 256) as u8);
        encoded.push((frame.dport % 256) as u8);
        encoded.push(frame.flag.to_byte());
        encoded.push((frame.seq / 0x100_0000) as u8);
        encoded.push((frame.seq / 0x1_0000 % 256) as u8);
        encoded.push((frame.seq / 0x100 % 256) as u8);
        encoded.push((frame.seq % 256) as u8);
        encoded.append(&mut frame.data);
        encoded
    }

    /// Reads a frame from the bytes of one carrier message. The first nine
    /// bytes are the header and the rest is the payload, whatever its
    /// length. Fewer than nine bytes hold no frame.
    pub fn decode(bytes: Vec<u8>) -> (result: Result<Frame, FrameError>)
        ensures
            match FrameView::decode(bytes@) {
                Some(frame) => result is Ok && result->Ok_0@ == frame,
                None => result == Err::<Frame, FrameError>(FrameError::Truncated),
            },
    {
        let mut buf = bytes_from_vec(bytes);
        if bytes_remaining(&buf) < FRAME_HEADER_LEN {
            return Err(FrameError::Truncated);
        }
        let sport: u16 = bytes_get_u16(&mut buf);
        let dport: u16 = bytes_get_u16(&mut buf);
        let flag = Flag::from_byte(bytes_get_u8(&mut buf));
        let seq: u32 = bytes_get_u32(&mut buf);
        let data = bytes_into_vec(buf);
        assert(data@ =~= bytes@.skip(FRAME_HEADER_LEN as int));
        Ok(Frame { sport, dport, flag, seq, data })
    }
}

impl From<Frame> for Message {
    /// The binary carrier message whose payload is the encoded frame.
    fn from(frame: Frame) -> (message: Message)
        ensures
            binary_payload(message) == Some(frame@.encode()),
    {
        binary_message(frame.encode())
    }
}

impl FromSpecImpl<Frame> for Message {
    open spec fn obeys_from_spec() -> bool {
        false
    }

    open spec fn from_spec(frame: Frame) -> Message {
        choose|message: Message| binary_payload(message) == Some(frame@.encode())
    }
}

impl TryFrom<Message> for Frame {
    type Error = FrameError;

    /// Reads the frame that a carrier message holds. A message that is not
    /// binary, or too short for a header, is refused.
    fn try_from(value: Message) -> (result: Result<Frame, FrameError>)
        ensures
            match FrameView::of_message(value) {
                Ok(frame) => result is Ok && result->Ok_0@ == frame,
                Err(error) => result == Err::<Frame, FrameError>(error),
            },
    {
        match into_binary_payload(value) {
            Some(bytes) => Frame::decode(bytes),
            None => Err(FrameError::NotBinary),
        }
    }
}

impl TryFromSpecImpl<Message> for Frame {
    open spec fn obeys_try_from_spec() -> bool {
        false
    }

    open spec fn try_from_spec(value: Message) -> Result<Frame, FrameError> {
        match FrameView::of_message(value) {
            Ok(view) => Ok(choose|frame: Frame| frame@ == view),
            Err(error) => Err(error),
        }
    }
}

/// Encoding a frame and decoding the bytes gives the frame back.
pub proof fn lemma_decode_encode(frame: FrameView)
    ensures
        FrameView::decode(frame.encode()) == Some(frame),
{
    let bytes = frame.encode();
    assert(bytes.len() == FRAME_HEADER_LEN + frame.data.len());
    assert(bytes.skip(FRAME_HEADER_LEN as int) =~= frame.data);
    assert(Flag::of_wire_byte(frame.flag.wire_byte()) == frame.flag);
    assert(be16(bytes[0], bytes[1]) == frame.sport);
    assert(be16(bytes[2], bytes[3]) == frame.dport);
    assert(be32(bytes[5], bytes[6], bytes[7], bytes[8]) == frame.seq);
}

} // verus!
