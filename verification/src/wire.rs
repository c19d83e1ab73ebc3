//! The carrier's message type and the byte cursor that frames are read with.
//!
//! Everything here is taken on trust from the `bytes` and `tungstenite`
//! crates: Verus reads the contracts below and not the code behind them.

use bytes::Buf;
use bytes::Bytes;
use tungstenite::Message;
use vstd::prelude::*;

verus! {

/// `bytes::Bytes`, a cursor over a shared byte buffer.
#[verifier::external_type_specification]
#[verifier::external_body]
pub struct ExBytes(Bytes);

/// `tungstenite::Message`, one message of the carrier.
#[verifier::external_type_specification]
#[verifier::external_body]
pub struct ExMessage(Message);

/// The bytes between a cursor's position and its end.
pub uninterp spec fn unread(buf: Bytes) -> Seq<u8>;

/// The payload of a binary message; `None` for every other kind of message.
pub uninterp spec fn binary_payload(message: Message) -> Option<Seq<u8>>;

/// The value of two bytes read in big-endian order.
pub open spec fn be16(b0: u8, b1: u8) -> u16 {
    (b0 as int * 256 + b1 as int) as u16
}

/// The value of four bytes read in big-endian order.
pub open spec fn be32(b0: u8, b1: u8, b2: u8, b3: u8) -> u32 {
    (((b0 as int * 256 + b1 as int) * 256 + b2 as int) * 256 + b3 as int) as u32
}

/// `Bytes::from(Vec<u8>)`: a cursor at the start of the vector's bytes.
#[verifier::external_body]
pub(crate) fn bytes_from_vec(data: Vec<u8>) -> (buf: Bytes)
    ensures
        unread(buf) == data@,
{
    Bytes::from(data)
}

/// `Buf::remaining` on `Bytes`: how many bytes are left to read.
#[verifier::external_body]
pub(crate) fn bytes_remaining(buf: &Bytes) -> (n: usize)
    ensures
        n == unread(*buf).len(),
{
    buf.remaining()
}

/// `Buf::get_u8` on `Bytes`: hands out the next byte and steps over it.
/// It panics when nothing is left, which `requires` rules out.
#[verifier::external_body]
pub(crate) fn bytes_get_u8(buf: &mut Bytes) -> (value: u8)
    requires
        unread(*old(buf)).len() >= 1,
    ensures
        value == unread(*old(buf))[0],
        unread(*final(buf)) == unread(*old(buf)).skip(1),
{
    buf.get_u8()
}

/// `Buf::get_u16` on `Bytes`: reads the next two bytes as a big-endian
/// number and steps over them. It panics on fewer than two bytes, which
/// `requires` rules out.
#[verifier::external_body]
pub(crate) fn bytes_get_u16(buf: &mut Bytes) -> (value: u16)
    requires
        unread(*old(buf)).len() >= 2,
    ensures
        value == be16(unread(*old(buf))[0], unread(*old(buf))[1]),
        unread(*final(buf)) == unread(*old(buf)).skip(2),
{
    buf.get_u16()
}

/// `Buf::get_u32` on `Bytes`: reads the next four bytes as a big-endian
/// number and steps over them. It panics on fewer than four bytes, which
/// `requires` rules out.
#[verifier::external_body]
pub(crate) fn bytes_get_u32(buf: &mut Bytes) -> (value: u32)
    requires
        unread(*old(buf)).len() >= 4,
    ensures
        value == be32(
            unread(*old(buf))[0],
            unread(*old(buf))[1],
            unread(*old(buf))[2],
            unread(*old(buf))[3],
        ),
        unread(*final(buf)) == unread(*old(buf)).skip(4),
{
    buf.get_u32()
}

/// `Vec::from(Bytes)`: the bytes that were left to read, as a vector.
#[verifier::external_body]
pub(crate) fn bytes_into_vec(buf: Bytes) -> (data: Vec<u8>)
    ensures
        data@ == unread(buf),
{
    Vec::from(buf)
}

/// `Message::Binary`: the binary message that carries `data`.
#[verifier::external_body]
pub(crate) fn binary_message(data: Vec<u8>) -> (message: Message)
    ensures
        binary_payload(message) == Some(data@),
{
    Message::Binary(data)
}

/// Takes a message apart by its variant: the bytes of `Message::Binary`,
/// and `None` for text, ping, pong, close and raw-frame messages.
#[verifier::external_body]
pub(crate) fn into_binary_payload(message: Message) -> (payload: Option<Vec<u8>>)
    ensures
        payload is Some == binary_payload(message) is Some,
        payload is Some ==> payload->0@ == binary_payload(message)->0,
{
    match message {
        Message::Binary(data) => Some(data),
        Message::Text(_) => None,
        Message::Ping(_) => None,
        Message::Pong(_) => None,
        Message::Close(_) => None,
        Message::Frame(_) => None,
    }
}

} // verus!
