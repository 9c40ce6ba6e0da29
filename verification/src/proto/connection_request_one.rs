//! The first request of the handshake, which doubles as the probe of the path's MTU:
//! the leading byte `0x05`, the offline-message marker, the protocol version, and
//! zeros up to the length that makes the whole UDP datagram as large as the MTU
//! under test.

use crate::binary_stream::BinaryStream;
use crate::packet::{
    expect_id, expect_magic, lemma_magic_len, lift, magic_bytes, put_magic, Packet, PacketError,
    MAGIC,
};
use vstd::prelude::*;

verus! {

/// What IP and UDP add to a datagram.
pub const UDP_OVERHEAD: u16 = 28;

/// The length of the packet before its padding.
pub const REQUEST_ONE_HEAD: u16 = 18;

/// The first request of the handshake.
#[derive(Debug, Clone, Copy, PartialEq, Eq, Structural)]
pub struct ConnectionRequestOne {
    pub protocol: u8,
    pub mtu_size: u16,
}

impl ConnectionRequestOne {
    pub const ID: u8 = 0x05;

    /// The packet has a wire form where the MTU leaves room for its head.
    pub open spec fn encodable(self) -> bool {
        self.mtu_size >= UDP_OVERHEAD + REQUEST_ONE_HEAD
    }

    /// The wire form of the packet: its length is the MTU less the UDP overhead.
    pub open spec fn encode(self) -> Seq<u8> {
        (seq![ConnectionRequestOne::ID] + magic_bytes()).push(self.protocol) + Seq::new(
            (self.mtu_size - UDP_OVERHEAD - REQUEST_ONE_HEAD) as nat,
            |i: int| 0u8,
        )
    }

    /// Reading a packet as a first request: it must be long enough for its head and
    /// short enough for its MTU to fit 16 bits, and open with the leading byte and the
    /// marker. The MTU is the length of the packet and the UDP overhead.
    pub open spec fn decode(bytes: Seq<u8>) -> Result<ConnectionRequestOne, PacketError> {
        if bytes.len() < 19 || bytes.len() + UDP_OVERHEAD > 0xFFFF {
            Err(PacketError::InvalidPacket)
        } else if bytes[0] != ConnectionRequestOne::ID {
            Err(PacketError::InvalidPacket)
        } else if bytes.subrange(1, 17) != magic_bytes() {
            Err(PacketError::InvalidPacket)
        } else {
            Ok(
                ConnectionRequestOne {
                    protocol: bytes[17],
                    mtu_size: (bytes.len() + UDP_OVERHEAD) as u16,
                },
            )
        }
    }

    pub fn new(protocol: u8, mtu_size: u16) -> (request: ConnectionRequestOne)
        ensures
            request == (ConnectionRequestOne { protocol, mtu_size }),
    {
        ConnectionRequestOne { protocol, mtu_size }
    }

    /// The wire form of the packet. An MTU too small for the head is refused.
    pub fn serialize(&self) -> (result: Result<Vec<u8>, PacketError>)
        ensures
            self.encodable() ==> (result matches Ok(bytes) && bytes@ == self.encode()
                && bytes@.len() == self.mtu_size - UDP_OVERHEAD),
            !self.encodable() ==> result == Err::<Vec<u8>, PacketError>(
                PacketError::SerializationError,
            ),
    {
        if self.mtu_size < UDP_OVERHEAD + REQUEST_ONE_HEAD {
            return Err(PacketError::SerializationError);
        }
        let mut stream = BinaryStream::new(None, None);
        stream.write_u8(ConnectionRequestOne::ID);
        put_magic(&mut stream);
        stream.write_u8(self.protocol);
        let padding: u16 = self.mtu_size - UDP_OVERHEAD - REQUEST_ONE_HEAD;
        let ghost head = stream.binary@;
        let mut i: u16 = 0;
        while i < padding
            invariant
                i <= padding,
                stream.binary@ == head + Seq::new(i as nat, |k: int| 0u8),
            decreases padding - i,
        {
            stream.write_u8(0);
            proof {
                assert(stream.binary@ =~= head + Seq::new((i + 1) as nat, |k: int| 0u8));
            }
            i += 1;
        }
        proof {
            assert(head =~= (seq![ConnectionRequestOne::ID] + magic_bytes()).push(self.protocol));
        }
        Ok(stream.binary)
    }

    /// Reads a packet as a first request.
    pub fn deserialize(buffer: &[u8]) -> (result: Result<ConnectionRequestOne, PacketError>)
        ensures
            result == ConnectionRequestOne::decode(buffer@),
    {
        if buffer.len() < 19 || buffer.len() > 0xFFFF - 28 {
            return Err(PacketError::InvalidPacket);
        }
        let mtu_size: u16 = (buffer.len() + 28) as u16;
        let mut stream = BinaryStream::new(Some(vstd::slice::slice_to_vec(buffer)), None);
        match expect_id(&mut stream, ConnectionRequestOne::ID) {
            Ok(()) => {},
            Err(_) => {
                return Err(PacketError::InvalidPacket);
            },
        }
        match expect_magic(&mut stream) {
            Ok(()) => {},
            Err(_) => {
                return Err(PacketError::InvalidPacket);
            },
        }
        let protocol = lift(stream.read_u8())?;
        Ok(ConnectionRequestOne { protocol, mtu_size })
    }
}

impl Packet for ConnectionRequestOne {
    const ID: u16 = 0x05;

    const MAGIC: [u8; 16] = MAGIC;

    open spec fn wire_form(&self) -> Option<Seq<u8>> {
        if self.encodable() {
            Some(self.encode())
        } else {
            None
        }
    }

    open spec fn reads_as(buffer: Seq<u8>, result: Result<ConnectionRequestOne, PacketError>) -> bool {
        result == ConnectionRequestOne::decode(buffer)
    }

    fn serialize(&self) -> (result: Result<Vec<u8>, PacketError>) {
        ConnectionRequestOne::serialize(self)
    }

    fn deserialize(buffer: &[u8]) -> (result: Result<ConnectionRequestOne, PacketError>) {
        ConnectionRequestOne::deserialize(buffer)
    }
}

/// A first request with an MTU that leaves room for the protocol version and one
/// byte of padding reads back from its wire form.
pub proof fn lemma_connection_request_one_round_trip(request: ConnectionRequestOne)
    requires
        request.mtu_size >= UDP_OVERHEAD + REQUEST_ONE_HEAD + 1,
    ensures
        ConnectionRequestOne::decode(request.encode()) == Ok::<ConnectionRequestOne, PacketError>(
            request,
        ),
        request.encode().len() == request.mtu_size - UDP_OVERHEAD,
{
    lemma_magic_len();
    let bytes = request.encode();
    assert(bytes.subrange(1, 17) =~= magic_bytes());
}

} // verus!
