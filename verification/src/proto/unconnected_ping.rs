//! The question a client asks before any connection: the leading byte `0x01`, the
//! offline-message marker, the client's time, and the client's id.

use crate::binary_stream::{BinaryStream, BinaryStreamError};
use crate::endian::{decode_int, encode_int, lemma_int_round_trip, lemma_types_fit, Endianness};
use crate::packet::{
    check_id, check_magic, expect_id, expect_magic, lemma_magic_len, lift, magic_bytes, put_magic,
    Packet, PacketError, MAGIC,
};
use vstd::prelude::*;

verus! {

/// The question a client asks before any connection.
#[derive(Debug, Clone, Copy, PartialEq, Eq, Structural)]
pub struct UnconnectedPing {
    pub timestamp: i64,
    pub guid: i64,
}

impl UnconnectedPing {
    pub const ID: u8 = 0x01;

    /// The wire form of the packet.
    pub open spec fn encode(self) -> Seq<u8> {
        seq![UnconnectedPing::ID] + magic_bytes() + encode_int(
            self.timestamp as int,
            8,
            Endianness::Big,
        ) + encode_int(self.guid as int, 8, Endianness::Big)
    }

    /// Reading a packet as an unconnected ping.
    pub open spec fn decode(bytes: Seq<u8>) -> Result<UnconnectedPing, PacketError> {
        if check_id(bytes, UnconnectedPing::ID) is Err {
            Err(check_id(bytes, UnconnectedPing::ID)->Err_0)
        } else if check_magic(bytes, 1) is Err {
            Err(check_magic(bytes, 1)->Err_0)
        } else if bytes.len() < 33 {
            Err(PacketError::BinaryStreamError(BinaryStreamError::OutOfBounds))
        } else {
            Ok(
                UnconnectedPing {
                    timestamp: decode_int(bytes.subrange(17, 25), Endianness::Big) as i64,
                    guid: decode_int(bytes.subrange(25, 33), Endianness::Big) as i64,
                },
            )
        }
    }

    pub fn new(timestamp: i64, guid: i64) -> (ping: UnconnectedPing)
        ensures
            ping == (UnconnectedPing { timestamp, guid }),
    {
        UnconnectedPing { timestamp, guid }
    }

    pub fn serialize(&self) -> (bytes: Vec<u8>)
        ensures
            bytes@ == self.encode(),
    {
        let mut stream = BinaryStream::new(None, None);
        stream.write_u8(UnconnectedPing::ID);
        put_magic(&mut stream);
        stream.write_long(self.timestamp, Endianness::Big);
        stream.write_long(self.guid, Endianness::Big);
        stream.binary
    }

    pub fn deserialize(data: &[u8]) -> (result: Result<UnconnectedPing, PacketError>)
        ensures
            result == UnconnectedPing::decode(data@),
    {
        let mut stream = BinaryStream::new(Some(vstd::slice::slice_to_vec(data)), None);
        expect_id(&mut stream, UnconnectedPing::ID)?;
        expect_magic(&mut stream)?;
        let timestamp = lift(stream.read_long(Endianness::Big))?;
        let guid = lift(stream.read_long(Endianness::Big))?;
        Ok(UnconnectedPing { timestamp, guid })
    }
}

impl Packet for UnconnectedPing {
    const ID: u16 = 0x01;

    const MAGIC: [u8; 16] = MAGIC;

    open spec fn wire_form(&self) -> Option<Seq<u8>> {
        Some(self.encode())
    }

    open spec fn reads_as(buffer: Seq<u8>, result: Result<UnconnectedPing, PacketError>) -> bool {
        result == UnconnectedPing::decode(buffer)
    }

    fn serialize(&self) -> (result: Result<Vec<u8>, PacketError>) {
        Ok(UnconnectedPing::serialize(self))
    }

    fn deserialize(buffer: &[u8]) -> (result: Result<UnconnectedPing, PacketError>) {
        UnconnectedPing::deserialize(buffer)
    }
}

/// An unconnected ping reads back from its wire form.
pub proof fn lemma_unconnected_ping_round_trip(ping: UnconnectedPing)
    ensures
        UnconnectedPing::decode(ping.encode()) == Ok::<UnconnectedPing, PacketError>(ping),
{
    lemma_types_fit(0, 0, 0, 0, 0, 0, 0, ping.timestamp);
    lemma_types_fit(0, 0, 0, 0, 0, 0, 0, ping.guid);
    let first = encode_int(ping.timestamp as int, 8, Endianness::Big);
    let second = encode_int(ping.guid as int, 8, Endianness::Big);
    lemma_int_round_trip(ping.timestamp as int, 8, Endianness::Big);
    lemma_int_round_trip(ping.guid as int, 8, Endianness::Big);
    lemma_magic_len();
    let bytes = ping.encode();
    assert(bytes.subrange(1, 17) =~= magic_bytes());
    assert(bytes.subrange(17, 25) =~= first);
    assert(bytes.subrange(25, 33) =~= second);
}

} // verus!
