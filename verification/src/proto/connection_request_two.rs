//! The second request of the handshake: the leading byte `0x07`, the offline-message
//! marker, the server's address, the MTU agreed on, and the client's id.

use crate::address::{Address, AddressView};
use crate::address::laws::lemma_address_round_trip;
use crate::binary_stream::{BinaryStream, BinaryStreamError};
use crate::endian::{
    decode_int, decode_uint, encode_int, encode_uint, lemma_int_round_trip, lemma_types_fit,
    lemma_uint_round_trip, Endianness,
};
use crate::packet::{
    check_id, check_magic, expect_id, expect_magic, lemma_magic_len, lift, magic_bytes, put_magic,
    Packet, PacketError, MAGIC,
};
use vstd::prelude::*;

verus! {

/// The second request of the handshake.
#[derive(Debug, PartialEq, Eq)]
pub struct ConnectionRequestTwo {
    pub address: Address,
    pub mtu_size: u16,
    pub guid: i64,
}

/// A second request as a mathematical value.
pub struct ConnectionRequestTwoView {
    pub address: AddressView,
    pub mtu_size: u16,
    pub guid: i64,
}

impl View for ConnectionRequestTwo {
    type V = ConnectionRequestTwoView;

    open spec fn view(&self) -> ConnectionRequestTwoView {
        ConnectionRequestTwoView {
            address: self.address@,
            mtu_size: self.mtu_size,
            guid: self.guid,
        }
    }
}

impl ConnectionRequestTwoView {
    /// The packet has a wire form where its address has one.
    pub open spec fn encodable(self) -> bool {
        self.address.encodable()
    }

    /// The wire form of an encodable packet.
    pub open spec fn encode(self) -> Seq<u8> {
        seq![ConnectionRequestTwo::ID] + magic_bytes() + self.address.encode() + encode_uint(
            self.mtu_size as nat,
            2,
            Endianness::Big,
        ) + encode_int(self.guid as int, 8, Endianness::Big)
    }

    /// Reading a packet as a second request.
    pub open spec fn decode(bytes: Seq<u8>) -> Result<ConnectionRequestTwoView, PacketError> {
        if check_id(bytes, ConnectionRequestTwo::ID) is Err {
            Err(check_id(bytes, ConnectionRequestTwo::ID)->Err_0)
        } else if check_magic(bytes, 1) is Err {
            Err(check_magic(bytes, 1)->Err_0)
        } else {
            match AddressView::decode(bytes, 17) {
                Err(e) => Err(PacketError::BinaryStreamError(e)),
                Ok((address, next)) => if bytes.len() < next + 10 {
                    Err(PacketError::BinaryStreamError(BinaryStreamError::OutOfBounds))
                } else {
                    Ok(
                        ConnectionRequestTwoView {
                            address,
                            mtu_size: decode_uint(bytes.subrange(next, next + 2), Endianness::Big)
                                as u16,
                            guid: decode_int(bytes.subrange(next + 2, next + 10), Endianness::Big)
                                as i64,
                        },
                    )
                },
            }
        }
    }
}

impl ConnectionRequestTwo {
    pub const ID: u8 = 0x07;

    pub fn new(address: Address, mtu_size: u16, guid: i64) -> (request: ConnectionRequestTwo)
        ensures
            request.address == address,
            request.mtu_size == mtu_size,
            request.guid == guid,
    {
        ConnectionRequestTwo { address, mtu_size, guid }
    }

    /// The wire form of the packet. A packet whose address has none is refused.
    pub fn serialize(&self) -> (result: Result<Vec<u8>, PacketError>)
        ensures
            self@.encodable() ==> (result matches Ok(bytes) && bytes@ == self@.encode()),
            !self@.encodable() ==> result == Err::<Vec<u8>, PacketError>(
                PacketError::SerializationError,
            ),
    {
        let mut stream = BinaryStream::new(None, None);
        stream.write_u8(ConnectionRequestTwo::ID);
        put_magic(&mut stream);
        self.address.write(&mut stream)?;
        stream.write_u16(self.mtu_size, Endianness::Big);
        stream.write_long(self.guid, Endianness::Big);
        Ok(stream.binary)
    }

    /// Reads a packet as a second request.
    pub fn deserialize(data: &[u8]) -> (result: Result<ConnectionRequestTwo, PacketError>)
        ensures
            match ConnectionRequestTwoView::decode(data@) {
                Ok(packet) => result matches Ok(read) && read@ == packet,
                Err(e) => result matches Err(found) && found == e,
            },
    {
        let mut stream = BinaryStream::new(Some(vstd::slice::slice_to_vec(data)), None);
        expect_id(&mut stream, ConnectionRequestTwo::ID)?;
        expect_magic(&mut stream)?;
        let address = lift(Address::read(&mut stream))?;
        let mtu_size = lift(stream.read_u16(Endianness::Big))?;
        let guid = lift(stream.read_long(Endianness::Big))?;
        Ok(ConnectionRequestTwo { address, mtu_size, guid })
    }
}

impl Packet for ConnectionRequestTwo {
    const ID: u16 = 0x07;

    const MAGIC: [u8; 16] = MAGIC;

    open spec fn wire_form(&self) -> Option<Seq<u8>> {
        if self@.encodable() {
            Some(self@.encode())
        } else {
            None
        }
    }

    open spec fn reads_as(buffer: Seq<u8>, result: Result<ConnectionRequestTwo, PacketError>) -> bool {
        match ConnectionRequestTwoView::decode(buffer) {
            Ok(packet) => result matches Ok(read) && read@ == packet,
            Err(e) => result matches Err(found) && found == e,
        }
    }

    fn serialize(&self) -> (result: Result<Vec<u8>, PacketError>) {
        ConnectionRequestTwo::serialize(self)
    }

    fn deserialize(buffer: &[u8]) -> (result: Result<ConnectionRequestTwo, PacketError>) {
        ConnectionRequestTwo::deserialize(buffer)
    }
}

impl ConnectionRequestTwoView {
    /// The packet as it reads back from its wire form: with its address in normal
    /// form.
    pub open spec fn normal(self) -> ConnectionRequestTwoView {
        ConnectionRequestTwoView { address: self.address.normal(), ..self }
    }
}

/// A second request that has a wire form reads back from it in its normal form.
pub proof fn lemma_connection_request_two_round_trip(request: ConnectionRequestTwoView)
    requires
        request.encodable(),
    ensures
        ConnectionRequestTwoView::decode(request.encode()) == Ok::<
            ConnectionRequestTwoView,
            PacketError,
        >(request.normal()),
{
    lemma_types_fit(0, request.mtu_size, 0, 0, 0, 0, 0, request.guid);
    lemma_magic_len();
    let head = seq![ConnectionRequestTwo::ID] + magic_bytes();
    let mtu = encode_uint(request.mtu_size as nat, 2, Endianness::Big);
    let guid = encode_int(request.guid as int, 8, Endianness::Big);
    lemma_uint_round_trip(request.mtu_size as nat, 2, Endianness::Big);
    lemma_int_round_trip(request.guid as int, 8, Endianness::Big);
    lemma_address_round_trip(request.address, head, mtu + guid);
    let bytes = request.encode();
    assert(bytes =~= head + request.address.encode() + (mtu + guid));
    assert(bytes.subrange(1, 17) =~= magic_bytes());
    let next = (17 + request.address.encode().len()) as int;
    assert(bytes.subrange(next, next + 2) =~= mtu);
    assert(bytes.subrange(next + 2, next + 10) =~= guid);
}

} // verus!
