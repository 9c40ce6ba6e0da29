//! The request that opens the connection proper, sent through the framer: the
//! leading byte `0x09`, the client's id, the client's time, and whether security is
//! asked for.

use crate::binary_stream::{BinaryStream, BinaryStreamError};
use crate::endian::{decode_int, encode_int, lemma_int_round_trip, lemma_types_fit, Endianness};
use crate::packet::{check_id, expect_id, lift, Packet, PacketError, MAGIC};
use vstd::prelude::*;

verus! {

/// The request that opens the connection proper.
#[derive(Debug, Clone, Copy, PartialEq, Eq, Structural)]
pub struct ConnectionRequest {
    pub guid: i64,
    pub timestamp: i64,
    pub security: bool,
}

impl ConnectionRequest {
    pub const ID: u8 = 0x09;

    /// The wire form of the packet.
    pub open spec fn encode(self) -> Seq<u8> {
        (seq![ConnectionRequest::ID] + encode_int(self.guid as int, 8, Endianness::Big)
            + encode_int(self.timestamp as int, 8, Endianness::Big)).push(
            if self.security {
                1u8
            } else {
                0u8
            },
        )
    }

    /// Reading a packet as a connection request.
    pub open spec fn decode(bytes: Seq<u8>) -> Result<ConnectionRequest, PacketError> {
        if check_id(bytes, ConnectionRequest::ID) is Err {
            Err(check_id(bytes, ConnectionRequest::ID)->Err_0)
        } else if bytes.len() < 18 {
            Err(PacketError::BinaryStreamError(BinaryStreamError::OutOfBounds))
        } else {
            Ok(
                ConnectionRequest {
                    guid: decode_int(bytes.subrange(1, 9), Endianness::Big) as i64,
                    timestamp: decode_int(bytes.subrange(9, 17), Endianness::Big) as i64,
                    security: bytes[17] != 0,
                },
            )
        }
    }

    pub fn new(guid: i64, timestamp: i64, security: bool) -> (request: ConnectionRequest)
        ensures
            request == (ConnectionRequest { guid, timestamp, security }),
    {
        ConnectionRequest { guid, timestamp, security }
    }

    pub fn serialize(&self) -> (bytes: Vec<u8>)
        ensures
            bytes@ == self.encode(),
    {
        let mut stream = BinaryStream::new(None, None);
        stream.write_u8(ConnectionRequest::ID);
        stream.write_long(self.guid, Endianness::Big);
        stream.write_long(self.timestamp, Endianness::Big);
        stream.write_bool(self.security);
        stream.binary
    }

    pub fn deserialize(binary: &[u8]) -> (result: Result<ConnectionRequest, PacketError>)
        ensures
            result == ConnectionRequest::decode(binary@),
    {
        let mut stream = BinaryStream::new(Some(vstd::slice::slice_to_vec(binary)), None);
        expect_id(&mut stream, ConnectionRequest::ID)?;
        let guid = lift(stream.read_long(Endianness::Big))?;
        let timestamp = lift(stream.read_long(Endianness::Big))?;
        let security = lift(stream.read_bool())?;
        Ok(ConnectionRequest { guid, timestamp, security })
    }
}

impl Packet for ConnectionRequest {
    const ID: u16 = 0x09;

    const MAGIC: [u8; 16] = MAGIC;

    open spec fn wire_form(&self) -> Option<Seq<u8>> {
        Some(self.encode())
    }

    open spec fn reads_as(buffer: Seq<u8>, result: Result<ConnectionRequest, PacketError>) -> bool {
        result == ConnectionRequest::decode(buffer)
    }

    fn serialize(&self) -> (result: Result<Vec<u8>, PacketError>) {
        Ok(ConnectionRequest::serialize(self))
    }

    fn deserialize(buffer: &[u8]) -> (result: Result<ConnectionRequest, PacketError>) {
        ConnectionRequest::deserialize(buffer)
    }
}

/// A connection request reads back from its wire form.
pub proof fn lemma_connection_request_round_trip(request: ConnectionRequest)
    ensures
        ConnectionRequest::decode(request.encode()) == Ok::<ConnectionRequest, PacketError>(
            request,
        ),
{
    lemma_types_fit(0, 0, 0, 0, 0, 0, 0, request.guid);
    lemma_types_fit(0, 0, 0, 0, 0, 0, 0, request.timestamp);
    let first = encode_int(request.guid as int, 8, Endianness::Big);
    let second = encode_int(request.timestamp as int, 8, Endianness::Big);
    lemma_int_round_trip(request.guid as int, 8, Endianness::Big);
    lemma_int_round_trip(request.timestamp as int, 8, Endianness::Big);
    let bytes = request.encode();
    assert(bytes.subrange(1, 9) =~= first);
    assert(bytes.subrange(9, 17) =~= second);
}

} // verus!
