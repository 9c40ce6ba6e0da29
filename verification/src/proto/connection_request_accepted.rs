//! The server's acceptance of a connection request: the leading byte `0x10`, the
//! client's address, the client's index, twenty addresses of the server, the time
//! the client sent with its request, and the server's time.

use crate::address::{
    addresses_encodable, addresses_view, all_encodable, clone_addresses, decode_addresses,
    encode_addresses, normal_addresses, read_addresses, write_addresses, Address, AddressView,
};
use crate::address::laws::{lemma_address_round_trip, lemma_addresses_round_trip};
use crate::binary_stream::{BinaryStream, BinaryStreamError};
use crate::endian::{
    decode_int, decode_uint, encode_int, encode_uint, lemma_int_round_trip, lemma_types_fit,
    lemma_uint_round_trip, Endianness,
};
use crate::packet::{check_id, expect_id, lift, Packet, PacketError, MAGIC};
use vstd::prelude::*;

verus! {

/// How many addresses a peer lists of itself.
pub const SYSTEM_ADDRESSES: usize = 20;

/// The server's acceptance of a connection request.
#[derive(Debug, PartialEq, Eq)]
pub struct ConnectionRequestAccepted {
    pub client_address: Address,
    pub client_id: u16,
    pub server_addresses: Vec<Address>,
    pub client_send_time: i64,
    pub server_send_time: i64,
}

/// An acceptance as a mathematical value.
pub struct ConnectionRequestAcceptedView {
    pub client_address: AddressView,
    pub client_id: u16,
    pub server_addresses: Seq<AddressView>,
    pub client_send_time: i64,
    pub server_send_time: i64,
}

impl View for ConnectionRequestAccepted {
    type V = ConnectionRequestAcceptedView;

    open spec fn view(&self) -> ConnectionRequestAcceptedView {
        ConnectionRequestAcceptedView {
            client_address: self.client_address@,
            client_id: self.client_id,
            server_addresses: addresses_view(self.server_addresses@),
            client_send_time: self.client_send_time,
            server_send_time: self.server_send_time,
        }
    }
}

impl ConnectionRequestAcceptedView {
    /// The packet has a wire form where it lists twenty server addresses and every
    /// address has one.
    pub open spec fn encodable(self) -> bool {
        &&& self.client_address.encodable()
        &&& self.server_addresses.len() == SYSTEM_ADDRESSES
        &&& addresses_encodable(self.server_addresses)
    }

    /// The wire form of an encodable packet.
    pub open spec fn encode(self) -> Seq<u8> {
        seq![ConnectionRequestAccepted::ID] + self.client_address.encode() + encode_uint(
            self.client_id as nat,
            2,
            Endianness::Big,
        ) + encode_addresses(self.server_addresses) + encode_int(
            self.client_send_time as int,
            8,
            Endianness::Big,
        ) + encode_int(self.server_send_time as int, 8, Endianness::Big)
    }

    /// Reading a packet as an acceptance.
    pub open spec fn decode(bytes: Seq<u8>) -> Result<ConnectionRequestAcceptedView, PacketError> {
        if check_id(bytes, ConnectionRequestAccepted::ID) is Err {
            Err(check_id(bytes, ConnectionRequestAccepted::ID)->Err_0)
        } else {
            match AddressView::decode(bytes, 1) {
                Err(e) => Err(PacketError::BinaryStreamError(e)),
                Ok((client_address, id_at)) => if bytes.len() < id_at + 2 {
                    Err(PacketError::BinaryStreamError(BinaryStreamError::OutOfBounds))
                } else {
                    match decode_addresses(bytes, id_at + 2, SYSTEM_ADDRESSES as nat) {
                        Err(e) => Err(PacketError::BinaryStreamError(e)),
                        Ok((server_addresses, times_at)) => if bytes.len() < times_at + 16 {
                            Err(PacketError::BinaryStreamError(BinaryStreamError::OutOfBounds))
                        } else {
                            Ok(
                                ConnectionRequestAcceptedView {
                                    client_address,
                                    client_id: decode_uint(
                                        bytes.subrange(id_at, id_at + 2),
                                        Endianness::Big,
                                    ) as u16,
                                    server_addresses,
                                    client_send_time: decode_int(
                                        bytes.subrange(times_at, times_at + 8),
                                        Endianness::Big,
                                    ) as i64,
                                    server_send_time: decode_int(
                                        bytes.subrange(times_at + 8, times_at + 16),
                                        Endianness::Big,
                                    ) as i64,
                                },
                            )
                        },
                    }
                },
            }
        }
    }
}

impl ConnectionRequestAccepted {
    pub const ID: u8 = 0x10;

    pub fn new(
        client_address: Address,
        client_id: u16,
        server_addresses: Vec<Address>,
        client_send_time: i64,
        server_send_time: i64,
    ) -> (packet: ConnectionRequestAccepted)
        ensures
            packet.client_address == client_address,
            packet.client_id == client_id,
            packet.server_addresses == server_addresses,
            packet.client_send_time == client_send_time,
            packet.server_send_time == server_send_time,
    {
        ConnectionRequestAccepted {
            client_address,
            client_id,
            server_addresses,
            client_send_time,
            server_send_time,
        }
    }

    /// The wire form of the packet. A packet that does not list twenty server
    /// addresses, or with an address that has no wire form, is refused.
    pub fn serialize(&self) -> (result: Result<Vec<u8>, PacketError>)
        ensures
            self@.encodable() ==> (result matches Ok(bytes) && bytes@ == self@.encode()),
            !self@.encodable() ==> result == Err::<Vec<u8>, PacketError>(
                PacketError::SerializationError,
            ),
    {
        if self.server_addresses.len() != SYSTEM_ADDRESSES || !all_encodable(
            &self.server_addresses,
        ) {
            return Err(PacketError::SerializationError);
        }
        let mut stream = BinaryStream::new(None, None);
        stream.write_u8(ConnectionRequestAccepted::ID);
        self.client_address.write(&mut stream)?;
        stream.write_short(self.client_id, Endianness::Big);
        write_addresses(&mut stream, &self.server_addresses);
        stream.write_long(self.client_send_time, Endianness::Big);
        stream.write_long(self.server_send_time, Endianness::Big);
        Ok(stream.binary)
    }

    /// Reads a packet as an acceptance.
    pub fn deserialize(buffer: &[u8]) -> (result: Result<ConnectionRequestAccepted, PacketError>)
        ensures
            match ConnectionRequestAcceptedView::decode(buffer@) {
                Ok(packet) => result matches Ok(read) && read@ == packet,
                Err(e) => result matches Err(found) && found == e,
            },
    {
        let mut stream = BinaryStream::new(Some(vstd::slice::slice_to_vec(buffer)), None);
        expect_id(&mut stream, ConnectionRequestAccepted::ID)?;
        let client_address = lift(Address::read(&mut stream))?;
        let client_id = lift(stream.read_u16(Endianness::Big))?;
        let server_addresses = lift(read_addresses(&mut stream, SYSTEM_ADDRESSES))?;
        let client_send_time = lift(stream.read_long(Endianness::Big))?;
        let server_send_time = lift(stream.read_long(Endianness::Big))?;
        Ok(
            ConnectionRequestAccepted {
                client_address,
                client_id,
                server_addresses,
                client_send_time,
                server_send_time,
            },
        )
    }
}

impl Packet for ConnectionRequestAccepted {
    const ID: u16 = 0x10;

    const MAGIC: [u8; 16] = MAGIC;

    open spec fn wire_form(&self) -> Option<Seq<u8>> {
        if self@.encodable() {
            Some(self@.encode())
        } else {
            None
        }
    }

    open spec fn reads_as(buffer: Seq<u8>, result: Result<ConnectionRequestAccepted, PacketError>) -> bool {
        match ConnectionRequestAcceptedView::decode(buffer) {
            Ok(packet) => result matches Ok(read) && read@ == packet,
            Err(e) => result matches Err(found) && found == e,
        }
    }

    fn serialize(&self) -> (result: Result<Vec<u8>, PacketError>) {
        ConnectionRequestAccepted::serialize(self)
    }

    fn deserialize(buffer: &[u8]) -> (result: Result<ConnectionRequestAccepted, PacketError>) {
        ConnectionRequestAccepted::deserialize(buffer)
    }
}

impl Clone for ConnectionRequestAccepted {
    fn clone(&self) -> (copy: ConnectionRequestAccepted)
        ensures
            copy@ == self@,
    {
        ConnectionRequestAccepted {
            client_address: self.client_address.clone(),
            client_id: self.client_id,
            server_addresses: clone_addresses(&self.server_addresses),
            client_send_time: self.client_send_time,
            server_send_time: self.server_send_time,
        }
    }
}

impl ConnectionRequestAcceptedView {
    /// The packet as it reads back from its wire form: with its addresses in normal
    /// form.
    pub open spec fn normal(self) -> ConnectionRequestAcceptedView {
        ConnectionRequestAcceptedView {
            client_address: self.client_address.normal(),
            server_addresses: normal_addresses(self.server_addresses),
            ..self
        }
    }
}

/// An acceptance that has a wire form reads back from it in its normal form.
pub proof fn lemma_connection_request_accepted_round_trip(packet: ConnectionRequestAcceptedView)
    requires
        packet.encodable(),
    ensures
        ConnectionRequestAcceptedView::decode(packet.encode()) == Ok::<
            ConnectionRequestAcceptedView,
            PacketError,
        >(packet.normal()),
{
    lemma_types_fit(0, packet.client_id, 0, 0, 0, 0, 0, packet.client_send_time);
    lemma_types_fit(0, 0, 0, 0, 0, 0, 0, packet.server_send_time);
    let head = seq![ConnectionRequestAccepted::ID];
    let client = packet.client_address.encode();
    let id = encode_uint(packet.client_id as nat, 2, Endianness::Big);
    let servers = encode_addresses(packet.server_addresses);
    let sent = encode_int(packet.client_send_time as int, 8, Endianness::Big);
    let answered = encode_int(packet.server_send_time as int, 8, Endianness::Big);
    lemma_uint_round_trip(packet.client_id as nat, 2, Endianness::Big);
    lemma_int_round_trip(packet.client_send_time as int, 8, Endianness::Big);
    lemma_int_round_trip(packet.server_send_time as int, 8, Endianness::Big);
    let bytes = packet.encode();
    lemma_address_round_trip(packet.client_address, head, id + servers + sent + answered);
    assert(bytes =~= head + client + (id + servers + sent + answered));
    let id_at = (1 + client.len()) as int;
    assert(bytes.subrange(id_at, id_at + 2) =~= id);
    lemma_addresses_round_trip(packet.server_addresses, head + client + id, sent + answered);
    assert(bytes =~= (head + client + id) + servers + (sent + answered));
    let times_at = (id_at + 2 + servers.len()) as int;
    assert(bytes.subrange(times_at, times_at + 8) =~= sent);
    assert(bytes.subrange(times_at + 8, times_at + 16) =~= answered);
}

} // verus!
