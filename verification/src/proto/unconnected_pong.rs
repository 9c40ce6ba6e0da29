//! The server's answer to an unconnected ping: the leading byte `0x1c`, the
//! offline-message marker, the time of the ping, the server's id, and the server's
//! advertisement as a string with a 16-bit length.

use crate::binary_stream::{BinaryStream, BinaryStreamError};
use crate::endian::{
    decode_uint, encode_uint, lemma_radix_values, lemma_types_fit, lemma_uint_round_trip,
    Endianness,
};
use crate::packet::{
    check_id, check_magic, expect_id, expect_magic, lemma_magic_len, lift, magic_bytes, put_magic,
    Packet, PacketError, MAGIC,
};
use vstd::prelude::*;
use vstd::string::*;
use vstd::utf8::*;

verus! {

/// The server's answer to an unconnected ping.
#[derive(Debug, PartialEq, Eq)]
pub struct UnconnectedPong {
    pub timestamp: u64,
    pub guid: u64,
    pub message: String,
}

/// An unconnected pong as a mathematical value.
pub struct UnconnectedPongView {
    pub timestamp: u64,
    pub guid: u64,
    pub message: Seq<char>,
}

impl View for UnconnectedPong {
    type V = UnconnectedPongView;

    open spec fn view(&self) -> UnconnectedPongView {
        UnconnectedPongView { timestamp: self.timestamp, guid: self.guid, message: self.message@ }
    }
}

impl UnconnectedPongView {
    /// The packet has a wire form where the length of its message in bytes fits 16
    /// bits.
    pub open spec fn encodable(self) -> bool {
        encode_utf8(self.message).len() <= 0xFFFF
    }

    /// The wire form of an encodable packet.
    pub open spec fn encode(self) -> Seq<u8> {
        seq![UnconnectedPong::ID] + magic_bytes() + encode_uint(
            self.timestamp as nat,
            8,
            Endianness::Big,
        ) + encode_uint(self.guid as nat, 8, Endianness::Big) + encode_uint(
            encode_utf8(self.message).len(),
            2,
            Endianness::Big,
        ) + encode_utf8(self.message)
    }

    /// Reading a packet as an unconnected pong.
    pub open spec fn decode(bytes: Seq<u8>) -> Result<UnconnectedPongView, PacketError> {
        if check_id(bytes, UnconnectedPong::ID) is Err {
            Err(check_id(bytes, UnconnectedPong::ID)->Err_0)
        } else if check_magic(bytes, 1) is Err {
            Err(check_magic(bytes, 1)->Err_0)
        } else if bytes.len() < 35 {
            Err(PacketError::BinaryStreamError(BinaryStreamError::OutOfBounds))
        } else {
            let length = decode_uint(bytes.subrange(33, 35), Endianness::Big) as int;
            if bytes.len() < 35 + length {
                Err(PacketError::BinaryStreamError(BinaryStreamError::InvalidLength))
            } else if !valid_utf8(bytes.subrange(35, 35 + length)) {
                Err(PacketError::BinaryStreamError(BinaryStreamError::InvalidUtf8))
            } else {
                Ok(
                    UnconnectedPongView {
                        timestamp: decode_uint(bytes.subrange(17, 25), Endianness::Big) as u64,
                        guid: decode_uint(bytes.subrange(25, 33), Endianness::Big) as u64,
                        message: decode_utf8(bytes.subrange(35, 35 + length)),
                    },
                )
            }
        }
    }
}

impl UnconnectedPong {
    pub const ID: u8 = 0x1C;

    pub fn new(timestamp: u64, guid: u64, message: String) -> (pong: UnconnectedPong)
        ensures
            pong.timestamp == timestamp,
            pong.guid == guid,
            pong.message == message,
    {
        UnconnectedPong { timestamp, guid, message }
    }

    /// The wire form of the packet. A message longer than 65535 bytes is refused.
    pub fn serialize(&self) -> (result: Result<Vec<u8>, PacketError>)
        ensures
            self@.encodable() ==> (result matches Ok(bytes) && bytes@ == self@.encode()),
            !self@.encodable() ==> result == Err::<Vec<u8>, PacketError>(
                PacketError::SerializationError,
            ),
    {
        if self.message.as_str().as_bytes().len() > 0xFFFF {
            return Err(PacketError::SerializationError);
        }
        let mut stream = BinaryStream::new(None, None);
        stream.write_u8(UnconnectedPong::ID);
        put_magic(&mut stream);
        stream.write_u64(self.timestamp, Endianness::Big);
        stream.write_u64(self.guid, Endianness::Big);
        stream.write_string16(self.message.as_str(), Endianness::Big);
        Ok(stream.binary)
    }

    /// Reads a packet as an unconnected pong.
    pub fn deserialize(data: &[u8]) -> (result: Result<UnconnectedPong, PacketError>)
        ensures
            match UnconnectedPongView::decode(data@) {
                Ok(packet) => result matches Ok(read) && read@ == packet,
                Err(e) => result matches Err(found) && found == e,
            },
    {
        let mut stream = BinaryStream::new(Some(vstd::slice::slice_to_vec(data)), None);
        expect_id(&mut stream, UnconnectedPong::ID)?;
        expect_magic(&mut stream)?;
        let timestamp = lift(stream.read_u64(Endianness::Big))?;
        let guid = lift(stream.read_u64(Endianness::Big))?;
        let message = lift(stream.read_string16(Endianness::Big))?;
        Ok(UnconnectedPong { timestamp, guid, message })
    }
}

impl Packet for UnconnectedPong {
    const ID: u16 = 0x1C;

    const MAGIC: [u8; 16] = MAGIC;

    open spec fn wire_form(&self) -> Option<Seq<u8>> {
        if self@.encodable() {
            Some(self@.encode())
        } else {
            None
        }
    }

    open spec fn reads_as(buffer: Seq<u8>, result: Result<UnconnectedPong, PacketError>) -> bool {
        match UnconnectedPongView::decode(buffer) {
            Ok(packet) => result matches Ok(read) && read@ == packet,
            Err(e) => result matches Err(found) && found == e,
        }
    }

    fn serialize(&self) -> (result: Result<Vec<u8>, PacketError>) {
        UnconnectedPong::serialize(self)
    }

    fn deserialize(buffer: &[u8]) -> (result: Result<UnconnectedPong, PacketError>) {
        UnconnectedPong::deserialize(buffer)
    }
}

/// An unconnected pong that has a wire form reads back from it.
pub proof fn lemma_unconnected_pong_round_trip(pong: UnconnectedPongView)
    requires
        pong.encodable(),
    ensures
        UnconnectedPongView::decode(pong.encode()) == Ok::<UnconnectedPongView, PacketError>(pong),
{
    lemma_types_fit(0, 0, 0, pong.timestamp, 0, 0, 0, 0);
    lemma_types_fit(0, 0, 0, pong.guid, 0, 0, 0, 0);
    lemma_radix_values();
    lemma_magic_len();
    let text = encode_utf8(pong.message);
    let time = encode_uint(pong.timestamp as nat, 8, Endianness::Big);
    let guid = encode_uint(pong.guid as nat, 8, Endianness::Big);
    let length = encode_uint(text.len(), 2, Endianness::Big);
    lemma_uint_round_trip(pong.timestamp as nat, 8, Endianness::Big);
    lemma_uint_round_trip(pong.guid as nat, 8, Endianness::Big);
    lemma_uint_round_trip(text.len(), 2, Endianness::Big);
    encode_utf8_valid_utf8(pong.message);
    encode_utf8_decode_utf8(pong.message);
    let bytes = pong.encode();
    assert(bytes.subrange(1, 17) =~= magic_bytes());
    assert(bytes.subrange(17, 25) =~= time);
    assert(bytes.subrange(25, 33) =~= guid);
    assert(bytes.subrange(33, 35) =~= length);
    assert(bytes.subrange(35, (35 + text.len()) as int) =~= text);
}

} // verus!
