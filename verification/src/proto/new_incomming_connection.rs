//! The client's answer to an acceptance, which completes the connection: the leading
//! byte `0x13`, the server's address, twenty addresses of the client, the time the
//! server sent with its acceptance, and the client's time.

use crate::address::{
    addresses_encodable, addresses_view, all_encodable, clone_addresses, decode_addresses,
    encode_addresses, normal_addresses, read_addresses, write_addresses, Address, AddressView,
};
use crate::address::laws::{lemma_address_round_trip, lemma_addresses_round_trip};
use crate::binary_stream::{BinaryStream, BinaryStreamError};
use crate::endian::{decode_int, encode_int, lemma_int_round_trip, lemma_types_fit, Endianness};
use crate::packet::{check_id, expect_id, lift, Packet, PacketError, MAGIC};
use crate::proto::connection_request_accepted::SYSTEM_ADDRESSES;
use vstd::prelude::*;

verus! {

/// The client's answer to an acceptance.
#[derive(Debug, PartialEq, Eq)]
pub struct NewIncommingConnection {
    pub server_address: Address,
    pub internal_addresses: Vec<Address>,
    pub incoming_timestamp: i64,
    pub server_timestamp: i64,
}

/// The packet as a mathematical value.
pub struct NewIncommingConnectionView {
    pub server_address: AddressView,
    pub internal_addresses: Seq<AddressView>,
    pub incoming_timestamp: i64,
    pub server_timestamp: i64,
}

impl View for NewIncommingConnection {
    type V = NewIncommingConnectionView;

    open spec fn view(&self) -> NewIncommingConnectionView {
        NewIncommingConnectionView {
            server_address: self.server_address@,
            internal_addresses: addresses_view(self.internal_addresses@),
            incoming_timestamp: self.incoming_timestamp,
            server_timestamp: self.server_timestamp,
        }
    }
}

impl NewIncommingConnectionView {
    /// The packet has a wire form where it lists twenty client addresses and every
    /// address has one.
    pub open spec fn encodable(self) -> bool {
        &&& self.server_address.encodable()
        &&& self.internal_addresses.len() == SYSTEM_ADDRESSES
        &&& addresses_encodable(self.internal_addresses)
    }

    /// The wire form of an encodable packet.
    pub open spec fn encode(self) -> Seq<u8> {
        seq![NewIncommingConnection::ID] + self.server_address.encode() + encode_addresses(
            self.internal_addresses,
        ) + encode_int(self.incoming_timestamp as int, 8, Endianness::Big) + encode_int(
            self.server_timestamp as int,
            8,
            Endianness::Big,
        )
    }

    /// Reading a packet as the client's answer to an acceptance.
    pub open spec fn decode(bytes: Seq<u8>) -> Result<NewIncommingConnectionView, PacketError> {
        if check_id(bytes, NewIncommingConnection::ID) is Err {
            Err(check_id(bytes, NewIncommingConnection::ID)->Err_0)
        } else {
            match AddressView::decode(bytes, 1) {
                Err(e) => Err(PacketError::BinaryStreamError(e)),
                Ok((server_address, list_at)) => match decode_addresses(
                    bytes,
                    list_at,
                    SYSTEM_ADDRESSES as nat,
                ) {
                    Err(e) => Err(PacketError::BinaryStreamError(e)),
                    Ok((internal_addresses, times_at)) => if bytes.len() < times_at + 16 {
                        Err(PacketError::BinaryStreamError(BinaryStreamError::OutOfBounds))
                    } else {
                        Ok(
                            NewIncommingConnectionView {
                                server_address,
                                internal_addresses,
                                incoming_timestamp: decode_int(
                                    bytes.subrange(times_at, times_at + 8),
                                    Endianness::Big,
                                ) as i64,
                                server_timestamp: decode_int(
                                    bytes.subrange(times_at + 8, times_at + 16),
                                    Endianness::Big,
                                ) as i64,
                            },
                        )
                    },
                },
            }
        }
    }
}

impl NewIncommingConnection {
    pub const ID: u8 = 0x13;

    pub fn new(
        server_address: Address,
        internal_addresses: Vec<Address>,
        incoming_timestamp: i64,
        server_timestamp: i64,
    ) -> (packet: NewIncommingConnection)
        ensures
            packet.server_address == server_address,
            packet.internal_addresses == internal_addresses,
            packet.incoming_timestamp == incoming_timestamp,
            packet.server_timestamp == server_timestamp,
    {
        NewIncommingConnection {
            server_address,
            internal_addresses,
            incoming_timestamp,
            server_timestamp,
        }
    }

    /// The wire form of the packet. A packet that does not list twenty client
    /// addresses, or with an address that has no wire form, is refused.
    pub fn serialize(&self) -> (result: Result<Vec<u8>, PacketError>)
        ensures
            self@.encodable() ==> (result matches Ok(bytes) && bytes@ == self@.encode()),
            !self@.encodable() ==> result == Err::<Vec<u8>, PacketError>(
                PacketError::SerializationError,
            ),
    {
        if self.internal_addresses.len() != SYSTEM_ADDRESSES || !all_encodable(
            &self.internal_addresses,
        ) {
            return Err(PacketError::SerializationError);
        }
        let mut stream = BinaryStream::new(None, None);
        stream.write_u8(NewIncommingConnection::ID);
        self.server_address.write(&mut stream)?;
        write_addresses(&mut stream, &self.internal_addresses);
        stream.write_long(self.incoming_timestamp, Endianness::Big);
        stream.write_long(self.server_timestamp, Endianness::Big);
        Ok(stream.binary)
    }

    /// Reads a packet as the client's answer to an acceptance.
    pub fn deserialize(data: &[u8]) -> (result: Result<NewIncommingConnection, PacketError>)
        ensures
            match NewIncommingConnectionView::decode(data@) {
                Ok(packet) => result matches Ok(read) && read@ == packet,
                Err(e) => result matches Err(found) && found == e,
            },
    {
        let mut stream = BinaryStream::new(Some(vstd::slice::slice_to_vec(data)), None);
        expect_id(&mut stream, NewIncommingConnection::ID)?;
        let server_address = lift(Address::read(&mut stream))?;
        let internal_addresses = lift(read_addresses(&mut stream, SYSTEM_ADDRESSES))?;
        let incoming_timestamp = lift(stream.read_long(Endianness::Big))?;
        let server_timestamp = lift(stream.read_long(Endianness::Big))?;
        Ok(
            NewIncommingConnection {
                server_address,
                internal_addresses,
                incoming_timestamp,
                server_timestamp,
            },
        )
    }
}

impl Packet for NewIncommingConnection {
    const ID: u16 = 0x13;

    const MAGIC: [u8; 16] = MAGIC;

    open spec fn wire_form(&self) -> Option<Seq<u8>> {
        if self@.encodable() {
            Some(self@.encode())
        } else {
            None
        }
    }

    open spec fn reads_as(buffer: Seq<u8>, result: Result<NewIncommingConnection, PacketError>) -> bool {
        match NewIncommingConnectionView::decode(buffer) {
            Ok(packet) => result matches Ok(read) && read@ == packet,
            Err(e) => result matches Err(found) && found == e,
        }
    }

    fn serialize(&self) -> (result: Result<Vec<u8>, PacketError>) {
        NewIncommingConnection::serialize(self)
    }

    fn deserialize(buffer: &[u8]) -> (result: Result<NewIncommingConnection, PacketError>) {
        NewIncommingConnection::deserialize(buffer)
    }
}

impl Clone for NewIncommingConnection {
    fn clone(&self) -> (copy: NewIncommingConnection)
        ensures
            copy@ == self@,
    {
        NewIncommingConnection {
            server_address: self.server_address.clone(),
            internal_addresses: clone_addresses(&self.internal_addresses),
            incoming_timestamp: self.incoming_timestamp,
            server_timestamp: self.server_timestamp,
        }
    }
}

impl NewIncommingConnectionView {
    /// The packet as it reads back from its wire form: with its addresses in normal
    /// form.
    pub open spec fn normal(self) -> NewIncommingConnectionView {
        NewIncommingConnectionView {
            server_address: self.server_address.normal(),
            internal_addresses: normal_addresses(self.internal_addresses),
            ..self
        }
    }
}

/// The packet, where it has a wire form, reads back from it in its normal form.
pub proof fn lemma_new_incomming_connection_round_trip(packet: NewIncommingConnectionView)
    requires
        packet.encodable(),
    ensures
        NewIncommingConnectionView::decode(packet.encode()) == Ok::<
            NewIncommingConnectionView,
            PacketError,
        >(packet.normal()),
{
    lemma_types_fit(0, 0, 0, 0, 0, 0, 0, packet.incoming_timestamp);
    lemma_types_fit(0, 0, 0, 0, 0, 0, 0, packet.server_timestamp);
    let head = seq![NewIncommingConnection::ID];
    let server = packet.server_address.encode();
    let locals = encode_addresses(packet.internal_addresses);
    let incoming = encode_int(packet.incoming_timestamp as int, 8, Endianness::Big);
    let echoed = encode_int(packet.server_timestamp as int, 8, Endianness::Big);
    lemma_int_round_trip(packet.incoming_timestamp as int, 8, Endianness::Big);
    lemma_int_round_trip(packet.server_timestamp as int, 8, Endianness::Big);
    let bytes = packet.encode();
    lemma_address_round_trip(packet.server_address, head, locals + incoming + echoed);
    assert(bytes =~= head + server + (locals + incoming + echoed));
    lemma_addresses_round_trip(packet.internal_addresses, head + server, incoming + echoed);
    assert(bytes =~= (head + server) + locals + (incoming + echoed));
    let times_at = (1 + server.len() + locals.len()) as int;
    assert(bytes.subrange(times_at, times_at + 8) =~= incoming);
    assert(bytes.subrange(times_at + 8, times_at + 16) =~= echoed);
}

} // verus!
