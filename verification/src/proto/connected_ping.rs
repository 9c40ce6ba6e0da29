//! The keep-alive question of an established connection: the leading byte `0x00` and
//! the sender's time as a big-endian 64-bit integer.

use crate::binary_stream::{BinaryStream, BinaryStreamError};
use crate::endian::{decode_int, encode_int, lemma_int_round_trip, lemma_types_fit, Endianness};
use crate::packet::{check_id, expect_id, lift, Packet, PacketError, MAGIC};
use vstd::prelude::*;

verus! {

/// The keep-alive question.
#[derive(Debug, Clone, Copy, PartialEq, Eq, Structural)]
pub struct ConnectedPing {
    pub timestamp: i64,
}

impl ConnectedPing {
    pub const ID: u8 = 0x00;

    /// The wire form of the packet.
    pub open spec fn encode(self) -> Seq<u8> {
        seq![ConnectedPing::ID] + encode_int(self.timestamp as int, 8, Endianness::Big)
    }

    /// Reading a packet as a ping.
    pub open spec fn decode(bytes: Seq<u8>) -> Result<ConnectedPing, PacketError> {
        if check_id(bytes, ConnectedPing::ID) is Err {
            Err(check_id(bytes, ConnectedPing::ID)->Err_0)
        } else if bytes.len() < 9 {
            Err(PacketError::BinaryStreamError(BinaryStreamError::OutOfBounds))
        } else {
            Ok(
                ConnectedPing {
                    timestamp: decode_int(bytes.subrange(1, 9), Endianness::Big) as i64,
                },
            )
        }
    }

    pub fn serialize(&self) -> (bytes: Vec<u8>)
        ensures
            bytes@ == self.encode(),
    {
        let mut stream = BinaryStream::new(None, None);
        stream.write_u8(ConnectedPing::ID);
        stream.write_long(self.timestamp, Endianness::Big);
        stream.binary
    }

    pub fn deserialize(binary: &[u8]) -> (result: Result<ConnectedPing, PacketError>)
        ensures
            result == ConnectedPing::decode(binary@),
    {
        let mut stream = BinaryStream::new(Some(vstd::slice::slice_to_vec(binary)), None);
        expect_id(&mut stream, ConnectedPing::ID)?;
        let timestamp = lift(stream.read_long(Endianness::Big))?;
        Ok(ConnectedPing { timestamp })
    }
}

impl Packet for ConnectedPing {
    const ID: u16 = 0x00;

    const MAGIC: [u8; 16] = MAGIC;

    open spec fn wire_form(&self) -> Option<Seq<u8>> {
        Some(self.encode())
    }

    open spec fn reads_as(buffer: Seq<u8>, result: Result<ConnectedPing, PacketError>) -> bool {
        result == ConnectedPing::decode(buffer)
    }

    fn serialize(&self) -> (result: Result<Vec<u8>, PacketError>) {
        Ok(ConnectedPing::serialize(self))
    }

    fn deserialize(buffer: &[u8]) -> (result: Result<ConnectedPing, PacketError>) {
        ConnectedPing::deserialize(buffer)
    }
}

/// A ping reads back from its wire form.
pub proof fn lemma_connected_ping_round_trip(ping: ConnectedPing)
    ensures
        ConnectedPing::decode(ping.encode()) == Ok::<ConnectedPing, PacketError>(ping),
{
    lemma_types_fit(0, 0, 0, 0, 0, 0, 0, ping.timestamp);
    let time = encode_int(ping.timestamp as int, 8, Endianness::Big);
    lemma_int_round_trip(ping.timestamp as int, 8, Endianness::Big);
    assert(ping.encode().subrange(1, 9) =~= time);
}

} // verus!
