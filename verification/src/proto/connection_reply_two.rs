//! The server's answer to the second request: the leading byte `0x08`, the
//! offline-message marker, the server's id, the client's address as the server sees
//! it, the MTU agreed on, and whether encryption is on.

use crate::address::{Address, AddressView};
use crate::address::laws::lemma_address_round_trip;
use crate::binary_stream::{BinaryStream, BinaryStreamError};
use crate::endian::{
    decode_int, decode_uint, encode_int, encode_uint, lemma_int_round_trip, lemma_types_fit,
    lemma_uint_round_trip, Endianness,
};
use crate::packet::{
    check_id, check_magic, expect_id, expect_magic, lemma_magic_len, lift, magic_bytes, put_magic,
    Packet, PacketError, MAGIC,
};
use vstd::prelude::*;

verus! {

/// The server's answer to the second request.
#[derive(Debug, PartialEq, Eq)]
pub struct ConnectionReplyTwo {
    pub guid: i64,
    pub address: Address,
    pub mtu_size: u16,
    pub encryption_enabled: bool,
}

/// A second reply as a mathematical value.
pub struct ConnectionReplyTwoView {
    pub guid: i64,
    pub address: AddressView,
    pub mtu_size: u16,
    pub encryption_enabled: bool,
}

impl View for ConnectionReplyTwo {
    type V = ConnectionReplyTwoView;

    open spec fn view(&self) -> ConnectionReplyTwoView {
        ConnectionReplyTwoView {
            guid: self.guid,
            address: self.address@,
            mtu_size: self.mtu_size,
            encryption_enabled: self.encryption_enabled,
        }
    }
}

impl ConnectionReplyTwoView {
    /// The packet has a wire form where its address has one.
    pub open spec fn encodable(self) -> bool {
        self.address.encodable()
    }

    /// The wire form of an encodable packet.
    pub open spec fn encode(self) -> Seq<u8> {
        (seq![ConnectionReplyTwo::ID] + magic_bytes() + encode_int(
            self.guid as int,
            8,
            Endianness::Big,
        ) + self.address.encode() + encode_uint(self.mtu_size as nat, 2, Endianness::Big)).push(
            if self.encryption_enabled {
                1u8
            } else {
                0u8
            },
        )
    }

    /// Reading a packet as a second reply.
    pub open spec fn decode(bytes: Seq<u8>) -> Result<ConnectionReplyTwoView, PacketError> {
        if check_id(bytes, ConnectionReplyTwo::ID) is Err {
            Err(check_id(bytes, ConnectionReplyTwo::ID)->Err_0)
        } else if check_magic(bytes, 1) is Err {
            Err(check_magic(bytes, 1)->Err_0)
        } else if bytes.len() < 25 {
            Err(PacketError::BinaryStreamError(BinaryStreamError::OutOfBounds))
        } else {
            match AddressView::decode(bytes, 25) {
                Err(e) => Err(PacketError::BinaryStreamError(e)),
                Ok((address, next)) => if bytes.len() < next + 3 {
                    Err(PacketError::BinaryStreamError(BinaryStreamError::OutOfBounds))
                } else {
                    Ok(
                        ConnectionReplyTwoView {
                            guid: decode_int(bytes.subrange(17, 25), Endianness::Big) as i64,
                            address,
                            mtu_size: decode_uint(bytes.subrange(next, next + 2), Endianness::Big)
                                as u16,
                            encryption_enabled: bytes[next + 2] != 0,
                        },
                    )
                },
            }
        }
    }
}

impl ConnectionReplyTwo {
    pub const ID: u8 = 0x08;

    pub fn new(guid: i64, address: Address, mtu_size: u16, encryption_enabled: bool) -> (reply:
        ConnectionReplyTwo)
        ensures
            reply.guid == guid,
            reply.address == address,
            reply.mtu_size == mtu_size,
            reply.encryption_enabled == encryption_enabled,
    {
        ConnectionReplyTwo { guid, address, mtu_size, encryption_enabled }
    }

    /// The wire form of the packet. A packet whose address has none is refused.
    pub fn serialize(&self) -> (result: Result<Vec<u8>, PacketError>)
        ensures
            self@.encodable() ==> (result matches Ok(bytes) && bytes@ == self@.encode()),
            !self@.encodable() ==> result == Err::<Vec<u8>, PacketError>(
                PacketError::SerializationError,
            ),
    {
        let mut stream = BinaryStream::new(None, None);
        stream.write_u8(ConnectionReplyTwo::ID);
        put_magic(&mut stream);
        stream.write_long(self.guid, Endianness::Big);
        self.address.write(&mut stream)?;
        stream.write_u16(self.mtu_size, Endianness::Big);
        stream.write_bool(self.encryption_enabled);
        Ok(stream.binary)
    }

    /// Reads a packet as a second reply.
    pub fn deserialize(data: &[u8]) -> (result: Result<ConnectionReplyTwo, PacketError>)
        ensures
            match ConnectionReplyTwoView::decode(data@) {
                Ok(packet) => result matches Ok(read) && read@ == packet,
                Err(e) => result matches Err(found) && found == e,
            },
    {
        let mut stream = BinaryStream::new(Some(vstd::slice::slice_to_vec(data)), None);
        expect_id(&mut stream, ConnectionReplyTwo::ID)?;
        expect_magic(&mut stream)?;
        let guid = lift(stream.read_long(Endianness::Big))?;
        let address = lift(Address::read(&mut stream))?;
        let mtu_size = lift(stream.read_u16(Endianness::Big))?;
        let encryption_enabled = lift(stream.read_bool())?;
        Ok(ConnectionReplyTwo { guid, address, mtu_size, encryption_enabled })
    }
}

impl Packet for ConnectionReplyTwo {
    const ID: u16 = 0x08;

    const MAGIC: [u8; 16] = MAGIC;

    open spec fn wire_form(&self) -> Option<Seq<u8>> {
        if self@.encodable() {
            Some(self@.encode())
        } else {
            None
        }
    }

    open spec fn reads_as(buffer: Seq<u8>, result: Result<ConnectionReplyTwo, PacketError>) -> bool {
        match ConnectionReplyTwoView::decode(buffer) {
            Ok(packet) => result matches Ok(read) && read@ == packet,
            Err(e) => result matches Err(found) && found == e,
        }
    }

    fn serialize(&self) -> (result: Result<Vec<u8>, PacketError>) {
        ConnectionReplyTwo::serialize(self)
    }

    fn deserialize(buffer: &[u8]) -> (result: Result<ConnectionReplyTwo, PacketError>) {
        ConnectionReplyTwo::deserialize(buffer)
    }
}

impl Clone for ConnectionReplyTwo {
    fn clone(&self) -> (copy: ConnectionReplyTwo)
        ensures
            copy@ == self@,
    {
        ConnectionReplyTwo {
            guid: self.guid,
            address: self.address.clone(),
            mtu_size: self.mtu_size,
            encryption_enabled: self.encryption_enabled,
        }
    }
}

impl ConnectionReplyTwoView {
    /// The packet as it reads back from its wire form: with its address in normal
    /// form.
    pub open spec fn normal(self) -> ConnectionReplyTwoView {
        ConnectionReplyTwoView { address: self.address.normal(), ..self }
    }
}

/// A second reply that has a wire form reads back from it in its normal form.
pub proof fn lemma_connection_reply_two_round_trip(reply: ConnectionReplyTwoView)
    requires
        reply.encodable(),
    ensures
        ConnectionReplyTwoView::decode(reply.encode()) == Ok::<ConnectionReplyTwoView, PacketError>(
            reply.normal(),
        ),
{
    lemma_types_fit(0, reply.mtu_size, 0, 0, 0, 0, 0, reply.guid);
    lemma_magic_len();
    let guid = encode_int(reply.guid as int, 8, Endianness::Big);
    let head = seq![ConnectionReplyTwo::ID] + magic_bytes() + guid;
    let mtu = encode_uint(reply.mtu_size as nat, 2, Endianness::Big);
    let flag = if reply.encryption_enabled {
        1u8
    } else {
        0u8
    };
    lemma_uint_round_trip(reply.mtu_size as nat, 2, Endianness::Big);
    lemma_int_round_trip(reply.guid as int, 8, Endianness::Big);
    lemma_address_round_trip(reply.address, head, mtu.push(flag));
    let bytes = reply.encode();
    assert(bytes =~= head + reply.address.encode() + mtu.push(flag));
    assert(bytes.subrange(1, 17) =~= magic_bytes());
    assert(bytes.subrange(17, 25) =~= guid);
    let next = (25 + reply.address.encode().len()) as int;
    assert(bytes.subrange(next, next + 2) =~= mtu);
    assert(bytes[next + 2] == flag);
}

} // verus!
