//! The server's answer to the first request: the leading byte `0x06`, the
//! offline-message marker, the server's id, whether security is on, a cookie where
//! it is, and the MTU that the server offers.

use crate::binary_stream::{BinaryStream, BinaryStreamError};
use crate::endian::{
    decode_int, decode_uint, encode_int, encode_uint, lemma_int_round_trip, lemma_types_fit,
    lemma_uint_round_trip, Endianness,
};
use crate::packet::{
    check_id, check_magic, expect_id, expect_magic, lemma_magic_len, lift, magic_bytes, put_magic,
    Packet, PacketError, MAGIC,
};
use vstd::prelude::*;

verus! {

/// The server's answer to the first request.
#[derive(Debug, Clone, Copy, PartialEq, Eq, Structural)]
pub struct ConnectionReplyOne {
    pub guid: i64,
    pub security: bool,
    pub cookie: Option<u32>,
    pub mtu_size: u16,
}

impl ConnectionReplyOne {
    pub const ID: u8 = 0x06;

    /// The packet has a wire form where it carries a cookie exactly if security is on.
    pub open spec fn encodable(self) -> bool {
        self.security == self.cookie is Some
    }

    /// The wire form of an encodable packet.
    pub open spec fn encode(self) -> Seq<u8> {
        (seq![ConnectionReplyOne::ID] + magic_bytes() + encode_int(
            self.guid as int,
            8,
            Endianness::Big,
        )).push(
            if self.security {
                1u8
            } else {
                0u8
            },
        ) + (match self.cookie {
            Some(cookie) => encode_uint(cookie as nat, 4, Endianness::Big),
            None => Seq::empty(),
        }) + encode_uint(self.mtu_size as nat, 2, Endianness::Big)
    }

    /// Reading a packet as a first reply.
    pub open spec fn decode(bytes: Seq<u8>) -> Result<ConnectionReplyOne, PacketError> {
        if check_id(bytes, ConnectionReplyOne::ID) is Err {
            Err(check_id(bytes, ConnectionReplyOne::ID)->Err_0)
        } else if check_magic(bytes, 1) is Err {
            Err(check_magic(bytes, 1)->Err_0)
        } else if bytes.len() < 26 {
            Err(PacketError::BinaryStreamError(BinaryStreamError::OutOfBounds))
        } else {
            let security = bytes[25] != 0;
            let mtu_at = if security {
                30int
            } else {
                26int
            };
            if bytes.len() < mtu_at + 2 {
                Err(PacketError::BinaryStreamError(BinaryStreamError::OutOfBounds))
            } else {
                Ok(
                    ConnectionReplyOne {
                        guid: decode_int(bytes.subrange(17, 25), Endianness::Big) as i64,
                        security,
                        cookie: if security {
                            Some(decode_uint(bytes.subrange(26, 30), Endianness::Big) as u32)
                        } else {
                            None
                        },
                        mtu_size: decode_uint(bytes.subrange(mtu_at, mtu_at + 2), Endianness::Big)
                            as u16,
                    },
                )
            }
        }
    }

    /// The wire form of the packet. A packet with a cookie but no security, or with
    /// security but no cookie, is refused.
    pub fn serialize(&self) -> (result: Result<Vec<u8>, PacketError>)
        ensures
            self.encodable() ==> (result matches Ok(bytes) && bytes@ == self.encode()),
            !self.encodable() ==> result == Err::<Vec<u8>, PacketError>(
                PacketError::SerializationError,
            ),
    {
        if self.security != self.cookie.is_some() {
            return Err(PacketError::SerializationError);
        }
        let mut stream = BinaryStream::new(None, None);
        stream.write_u8(ConnectionReplyOne::ID);
        put_magic(&mut stream);
        stream.write_long(self.guid, Endianness::Big);
        stream.write_bool(self.security);
        let ghost head = stream.binary@;
        match self.cookie {
            Some(cookie) => {
                stream.write_u32(cookie, Endianness::Big);
            },
            None => {
                assert(stream.binary@ =~= head + Seq::<u8>::empty());
            },
        }
        stream.write_u16(self.mtu_size, Endianness::Big);
        Ok(stream.binary)
    }

    /// Reads a packet as a first reply.
    pub fn deserialize(data: &[u8]) -> (result: Result<ConnectionReplyOne, PacketError>)
        ensures
            result == ConnectionReplyOne::decode(data@),
    {
        let mut stream = BinaryStream::new(Some(vstd::slice::slice_to_vec(data)), None);
        expect_id(&mut stream, ConnectionReplyOne::ID)?;
        expect_magic(&mut stream)?;
        let guid = lift(stream.read_long(Endianness::Big))?;
        let security = lift(stream.read_bool())?;
        let cookie = if security {
            Some(lift(stream.read_u32(Endianness::Big))?)
        } else {
            None
        };
        let mtu_size = lift(stream.read_u16(Endianness::Big))?;
        Ok(ConnectionReplyOne { guid, security, cookie, mtu_size })
    }
}

impl Packet for ConnectionReplyOne {
    const ID: u16 = 0x06;

    const MAGIC: [u8; 16] = MAGIC;

    open spec fn wire_form(&self) -> Option<Seq<u8>> {
        if self.encodable() {
            Some(self.encode())
        } else {
            None
        }
    }

    open spec fn reads_as(buffer: Seq<u8>, result: Result<ConnectionReplyOne, PacketError>) -> bool {
        result == ConnectionReplyOne::decode(buffer)
    }

    fn serialize(&self) -> (result: Result<Vec<u8>, PacketError>) {
        ConnectionReplyOne::serialize(self)
    }

    fn deserialize(buffer: &[u8]) -> (result: Result<ConnectionReplyOne, PacketError>) {
        ConnectionReplyOne::deserialize(buffer)
    }
}

/// A first reply that has a wire form reads back from it.
pub proof fn lemma_connection_reply_one_round_trip(reply: ConnectionReplyOne)
    requires
        reply.encodable(),
    ensures
        ConnectionReplyOne::decode(reply.encode()) == Ok::<ConnectionReplyOne, PacketError>(reply),
{
    lemma_types_fit(0, reply.mtu_size, reply.cookie->Some_0, 0, 0, 0, 0, reply.guid);
    lemma_magic_len();
    let guid = encode_int(reply.guid as int, 8, Endianness::Big);
    let mtu = encode_uint(reply.mtu_size as nat, 2, Endianness::Big);
    lemma_int_round_trip(reply.guid as int, 8, Endianness::Big);
    lemma_uint_round_trip(reply.mtu_size as nat, 2, Endianness::Big);
    let bytes = reply.encode();
    assert(bytes.subrange(1, 17) =~= magic_bytes());
    assert(bytes.subrange(17, 25) =~= guid);
    match reply.cookie {
        Some(cookie) => {
            let carried = encode_uint(cookie as nat, 4, Endianness::Big);
            lemma_uint_round_trip(cookie as nat, 4, Endianness::Big);
            assert(bytes.subrange(26, 30) =~= carried);
            assert(bytes.subrange(30, 32) =~= mtu);
        },
        None => {
            assert(bytes.subrange(26, 28) =~= mtu);
        },
    }
}

} // verus!
