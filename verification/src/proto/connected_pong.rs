//! The keep-alive answer of an established connection: the leading byte `0x03`, the
//! time of the ping that is answered and the time of the answer, both big-endian
//! 64-bit integers.

use crate::binary_stream::{BinaryStream, BinaryStreamError};
use crate::endian::{decode_int, encode_int, lemma_int_round_trip, lemma_types_fit, Endianness};
use crate::packet::{check_id, expect_id, lift, Packet, PacketError, MAGIC};
use vstd::prelude::*;

verus! {

/// The keep-alive answer.
#[derive(Debug, Clone, Copy, PartialEq, Eq, Structural)]
pub struct ConnectedPong {
    pub ping_timestamp: i64,
    pub pong_timestamp: i64,
}

impl ConnectedPong {
    pub const ID: u8 = 0x03;

    /// The wire form of the packet.
    pub open spec fn encode(self) -> Seq<u8> {
        seq![ConnectedPong::ID] + encode_int(self.ping_timestamp as int, 8, Endianness::Big)
            + encode_int(self.pong_timestamp as int, 8, Endianness::Big)
    }

    /// Reading a packet as a pong.
    pub open spec fn decode(bytes: Seq<u8>) -> Result<ConnectedPong, PacketError> {
        if check_id(bytes, ConnectedPong::ID) is Err {
            Err(check_id(bytes, ConnectedPong::ID)->Err_0)
        } else if bytes.len() < 17 {
            Err(PacketError::BinaryStreamError(BinaryStreamError::OutOfBounds))
        } else {
            Ok(
                ConnectedPong {
                    ping_timestamp: decode_int(bytes.subrange(1, 9), Endianness::Big) as i64,
                    pong_timestamp: decode_int(bytes.subrange(9, 17), Endianness::Big) as i64,
                },
            )
        }
    }

    pub fn new(ping_timestamp: i64, pong_timestamp: i64) -> (pong: ConnectedPong)
        ensures
            pong == (ConnectedPong { ping_timestamp, pong_timestamp }),
    {
        ConnectedPong { ping_timestamp, pong_timestamp }
    }

    pub fn serialize(&self) -> (bytes: Vec<u8>)
        ensures
            bytes@ == self.encode(),
    {
        let mut stream = BinaryStream::new(None, None);
        stream.write_u8(ConnectedPong::ID);
        stream.write_long(self.ping_timestamp, Endianness::Big);
        stream.write_long(self.pong_timestamp, Endianness::Big);
        stream.binary
    }

    pub fn deserialize(binary: &[u8]) -> (result: Result<ConnectedPong, PacketError>)
        ensures
            result == ConnectedPong::decode(binary@),
    {
        let mut stream = BinaryStream::new(Some(vstd::slice::slice_to_vec(binary)), None);
        expect_id(&mut stream, ConnectedPong::ID)?;
        let ping_timestamp = lift(stream.read_long(Endianness::Big))?;
        let pong_timestamp = lift(stream.read_long(Endianness::Big))?;
        Ok(ConnectedPong { ping_timestamp, pong_timestamp })
    }
}

impl Packet for ConnectedPong {
    const ID: u16 = 0x03;

    const MAGIC: [u8; 16] = MAGIC;

    open spec fn wire_form(&self) -> Option<Seq<u8>> {
        Some(self.encode())
    }

    open spec fn reads_as(buffer: Seq<u8>, result: Result<ConnectedPong, PacketError>) -> bool {
        result == ConnectedPong::decode(buffer)
    }

    fn serialize(&self) -> (result: Result<Vec<u8>, PacketError>) {
        Ok(ConnectedPong::serialize(self))
    }

    fn deserialize(buffer: &[u8]) -> (result: Result<ConnectedPong, PacketError>) {
        ConnectedPong::deserialize(buffer)
    }
}

/// A pong reads back from its wire form.
pub proof fn lemma_connected_pong_round_trip(pong: ConnectedPong)
    ensures
        ConnectedPong::decode(pong.encode()) == Ok::<ConnectedPong, PacketError>(pong),
{
    lemma_types_fit(0, 0, 0, 0, 0, 0, 0, pong.ping_timestamp);
    lemma_types_fit(0, 0, 0, 0, 0, 0, 0, pong.pong_timestamp);
    let first = encode_int(pong.ping_timestamp as int, 8, Endianness::Big);
    let second = encode_int(pong.pong_timestamp as int, 8, Endianness::Big);
    lemma_int_round_trip(pong.ping_timestamp as int, 8, Endianness::Big);
    lemma_int_round_trip(pong.pong_timestamp as int, 8, Endianness::Big);
    let bytes = pong.encode();
    assert(bytes.subrange(1, 9) =~= first);
    assert(bytes.subrange(9, 17) =~= second);
}

} // verus!
