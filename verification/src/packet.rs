//! What every packet shares: the error type, the offline-message marker and the
//! table of leading bytes.

use crate::binary_stream::{BinaryStream, BinaryStreamError};
use vstd::prelude::*;
use vstd::std_specs::convert::FromSpecImpl;

verus! {

/// Why a packet could not be read or written.
#[derive(Debug, Clone, Copy, PartialEq, Eq, Hash, Structural)]
pub enum PacketError {
    /// The bytes are not the packet that was expected, or break an invariant of it.
    InvalidPacket,
    /// The codec ran out of bytes.
    BinaryStreamError(BinaryStreamError),
    /// The value has no wire form.
    SerializationError,
}

impl From<BinaryStreamError> for PacketError {
    fn from(error: BinaryStreamError) -> (result: PacketError) {
        PacketError::BinaryStreamError(error)
    }
}

impl FromSpecImpl<BinaryStreamError> for PacketError {
    open spec fn obeys_from_spec() -> bool {
        true
    }

    open spec fn from_spec(error: BinaryStreamError) -> PacketError {
        PacketError::BinaryStreamError(error)
    }
}

/// The sixteen bytes that mark an offline message.
pub const MAGIC: [u8; 16] = [
    0x00, 0xFF, 0xFF, 0x00, 0xFE, 0xFE, 0xFE, 0xFE, 0xFD, 0xFD, 0xFD, 0xFD, 0x12, 0x34, 0x56, 0x78,
];

/// The offline-message marker as a sequence.
pub open spec fn magic_bytes() -> Seq<u8> {
    seq![
        0x00u8, 0xFFu8, 0xFFu8, 0x00u8, 0xFEu8, 0xFEu8, 0xFEu8, 0xFEu8, 0xFDu8, 0xFDu8, 0xFDu8,
        0xFDu8, 0x12u8, 0x34u8, 0x56u8, 0x78u8,
    ]
}

/// The offline-message marker as a fresh vector.
pub fn magic_vec() -> (bytes: Vec<u8>)
    ensures
        bytes@ == magic_bytes(),
{
    let bytes: Vec<u8> = vec![
        0x00u8, 0xFFu8, 0xFFu8, 0x00u8, 0xFEu8, 0xFEu8, 0xFEu8, 0xFEu8, 0xFDu8, 0xFDu8, 0xFDu8,
        0xFDu8, 0x12u8, 0x34u8, 0x56u8, 0x78u8,
    ];
    assert(bytes@ =~= magic_bytes());
    bytes
}

/// The kind of packet that a leading byte announces.
#[derive(Debug, Clone, Copy, PartialEq, Eq, Hash, Structural)]
pub enum PacketType {
    ConnectedPing,
    UnconnectedPing,
    ConnectedPong,
    OpenConnectionRequestOne,
    OpenConnectionReplyOne,
    OpenConnectionRequestTwo,
    OpenConnectionReplyTwo,
    FrameSet,
    ConnectionRequest,
    ConnectionRequestAccepted,
    UnconnectedPong,
    Ack,
    Nack,
    NewIncomingConnection,
    Unknown(u8),
}

impl PacketType {
    /// The leading byte of each known kind; an unknown kind keeps the byte it came with.
    pub open spec fn spec_to_u8(&self) -> u8 {
        match self {
            PacketType::ConnectedPing => 0x00,
            PacketType::UnconnectedPing => 0x01,
            PacketType::ConnectedPong => 0x03,
            PacketType::OpenConnectionRequestOne => 0x05,
            PacketType::OpenConnectionReplyOne => 0x06,
            PacketType::OpenConnectionRequestTwo => 0x07,
            PacketType::OpenConnectionReplyTwo => 0x08,
            PacketType::FrameSet => 0x80,
            PacketType::ConnectionRequest => 0x09,
            PacketType::ConnectionRequestAccepted => 0x10,
            PacketType::UnconnectedPong => 0x1c,
            PacketType::Ack => 0xc0,
            PacketType::Nack => 0xa0,
            PacketType::NewIncomingConnection => 0x13,
            PacketType::Unknown(id) => *id,
        }
    }

    /// The kind that a leading byte announces. Every byte whose upper half is 8 opens
    /// a frame set.
    pub open spec fn spec_from_u8(id: u8) -> PacketType {
        if id == 0x00 {
            PacketType::ConnectedPing
        } else if id == 0x01 {
            PacketType::UnconnectedPing
        } else if id == 0x03 {
            PacketType::ConnectedPong
        } else if id == 0x05 {
            PacketType::OpenConnectionRequestOne
        } else if id == 0x06 {
            PacketType::OpenConnectionReplyOne
        } else if id == 0x07 {
            PacketType::OpenConnectionRequestTwo
        } else if id == 0x08 {
            PacketType::OpenConnectionReplyTwo
        } else if 0x80 <= id <= 0x8f {
            PacketType::FrameSet
        } else if id == 0x09 {
            PacketType::ConnectionRequest
        } else if id == 0x10 {
            PacketType::ConnectionRequestAccepted
        } else if id == 0x1c {
            PacketType::UnconnectedPong
        } else if id == 0xc0 {
            PacketType::Ack
        } else if id == 0xa0 {
            PacketType::Nack
        } else if id == 0x13 {
            PacketType::NewIncomingConnection
        } else {
            PacketType::Unknown(id)
        }
    }

    pub fn to_u8(&self) -> (id: u8)
        ensures
            id == self.spec_to_u8(),
    {
        match self {
            PacketType::ConnectedPing => 0x00,
            PacketType::UnconnectedPing => 0x01,
            PacketType::ConnectedPong => 0x03,
            PacketType::OpenConnectionRequestOne => 0x05,
            PacketType::OpenConnectionReplyOne => 0x06,
            PacketType::OpenConnectionRequestTwo => 0x07,
            PacketType::OpenConnectionReplyTwo => 0x08,
            PacketType::FrameSet => 0x80,
            PacketType::ConnectionRequest => 0x09,
            PacketType::ConnectionRequestAccepted => 0x10,
            PacketType::UnconnectedPong => 0x1c,
            PacketType::Ack => 0xc0,
            PacketType::Nack => 0xa0,
            PacketType::NewIncomingConnection => 0x13,
            PacketType::Unknown(id) => *id,
        }
    }

    /// The kind that the leading byte `id` announces.
    pub fn from_u8(id: u8) -> (kind: PacketType)
        ensures
            kind == PacketType::spec_from_u8(id),
    {
        if id == 0x00 {
            PacketType::ConnectedPing
        } else if id == 0x01 {
            PacketType::UnconnectedPing
        } else if id == 0x03 {
            PacketType::ConnectedPong
        } else if id == 0x05 {
            PacketType::OpenConnectionRequestOne
        } else if id == 0x06 {
            PacketType::OpenConnectionReplyOne
        } else if id == 0x07 {
            PacketType::OpenConnectionRequestTwo
        } else if id == 0x08 {
            PacketType::OpenConnectionReplyTwo
        } else if 0x80 <= id && id <= 0x8f {
            PacketType::FrameSet
        } else if id == 0x09 {
            PacketType::ConnectionRequest
        } else if id == 0x10 {
            PacketType::ConnectionRequestAccepted
        } else if id == 0x1c {
            PacketType::UnconnectedPong
        } else if id == 0xc0 {
            PacketType::Ack
        } else if id == 0xa0 {
            PacketType::Nack
        } else if id == 0x13 {
            PacketType::NewIncomingConnection
        } else {
            PacketType::Unknown(id)
        }
    }

    /// A byte that names a known kind comes back from the kind it names, except that
    /// every frame-set byte comes back as `0x80`.
    pub proof fn lemma_from_to(id: u8)
        ensures
            PacketType::spec_from_u8(id).spec_to_u8() == if 0x80 <= id <= 0x8f {
                0x80u8
            } else {
                id
            },
    {
    }
}

impl From<u8> for PacketType {
    fn from(id: u8) -> (kind: PacketType) {
        PacketType::from_u8(id)
    }
}

impl FromSpecImpl<u8> for PacketType {
    open spec fn obeys_from_spec() -> bool {
        true
    }

    open spec fn from_spec(id: u8) -> PacketType {
        PacketType::spec_from_u8(id)
    }
}

/// A codec failure as a packet failure.
pub fn lift<T>(result: Result<T, BinaryStreamError>) -> (lifted: Result<T, PacketError>)
    ensures
        match result {
            Ok(value) => lifted == Ok::<T, PacketError>(value),
            Err(e) => lifted == Err::<T, PacketError>(PacketError::BinaryStreamError(e)),
        },
{
    match result {
        Ok(value) => Ok(value),
        Err(e) => Err(PacketError::BinaryStreamError(e)),
    }
}

/// What a check of the leading byte at the start of `bytes` finds.
pub open spec fn check_id(bytes: Seq<u8>, id: u8) -> Result<(), PacketError> {
    if bytes.len() < 1 {
        Err(PacketError::BinaryStreamError(BinaryStreamError::OutOfBounds))
    } else if bytes[0] != id {
        Err(PacketError::InvalidPacket)
    } else {
        Ok(())
    }
}

/// What a check of the offline-message marker at `offset` finds.
pub open spec fn check_magic(bytes: Seq<u8>, offset: int) -> Result<(), PacketError> {
    if offset + 16 > bytes.len() {
        Err(PacketError::BinaryStreamError(BinaryStreamError::OutOfBounds))
    } else if bytes.subrange(offset, offset + 16) != magic_bytes() {
        Err(PacketError::InvalidPacket)
    } else {
        Ok(())
    }
}

/// Takes the leading byte of a packet and holds it to `id`.
pub(crate) fn expect_id(stream: &mut BinaryStream, id: u8) -> (result: Result<(), PacketError>)
    requires
        old(stream).offset == 0,
    ensures
        final(stream).binary@ == old(stream).binary@,
        result == check_id(old(stream).binary@, id),
        result is Ok ==> final(stream).offset == 1,
{
    let found = lift(stream.read_u8())?;
    if found != id {
        return Err(PacketError::InvalidPacket);
    }
    Ok(())
}

/// Takes sixteen bytes and holds them to the offline-message marker.
pub(crate) fn expect_magic(stream: &mut BinaryStream) -> (result: Result<(), PacketError>)
    ensures
        final(stream).binary@ == old(stream).binary@,
        result == check_magic(old(stream).binary@, old(stream).offset as int),
        result is Ok ==> final(stream).offset == old(stream).offset + 16,
{
    let found = lift(stream.read_magic())?;
    let expected = magic_vec();
    let mut i: usize = 0;
    while i < 16
        invariant
            i <= 16,
            found@.len() == 16,
            expected@ == magic_bytes(),
            stream.binary@ == old(stream).binary@,
            old(stream).offset + 16 <= old(stream).binary@.len(),
            found@ == old(stream).binary@.subrange(
                old(stream).offset as int,
                old(stream).offset + 16,
            ),
            forall|k: int| 0 <= k < i ==> found@[k] == expected@[k],
        decreases 16 - i,
    {
        if found[i] != expected[i] {
            return Err(PacketError::InvalidPacket);
        }
        i += 1;
    }
    assert(found@ =~= magic_bytes());
    Ok(())
}

/// Appends the offline-message marker.
pub(crate) fn put_magic(stream: &mut BinaryStream)
    ensures
        final(stream).offset == old(stream).offset,
        final(stream).binary@ == old(stream).binary@ + magic_bytes(),
{
    stream.write_magic(magic_vec());
}

/// A packet: a datagram, or a payload, with a leading byte of its own.
pub trait Packet: Sized {
    /// The leading byte.
    const ID: u16;

    /// The offline-message marker.
    const MAGIC: [u8; 16];

    /// The wire form of the packet, where it has one.
    spec fn wire_form(&self) -> Option<Seq<u8>>;

    /// Whether `result` is what reading `buffer` as this packet gives.
    spec fn reads_as(buffer: Seq<u8>, result: Result<Self, PacketError>) -> bool;

    /// The wire form of the packet; a packet without one is refused.
    fn serialize(&self) -> (result: Result<Vec<u8>, PacketError>)
        ensures
            match self.wire_form() {
                Some(bytes) => result matches Ok(written) && written@ == bytes,
                None => result == Err::<Vec<u8>, PacketError>(PacketError::SerializationError),
            },
    ;

    /// Reads a buffer as this packet.
    fn deserialize(buffer: &[u8]) -> (result: Result<Self, PacketError>)
        ensures
            Self::reads_as(buffer@, result),
    ;
}

/// A value that stands inside packets and is read from and written to a stream.
pub trait DataType: Sized {
    /// The wire form of the value, where it has one.
    spec fn wire_form(&self) -> Option<Seq<u8>>;

    /// Whether `result`, with the cursor left at `next`, is what reading this kind of
    /// value at `offset` gives.
    spec fn reads_as(
        bytes: Seq<u8>,
        offset: int,
        result: Result<Self, PacketError>,
        next: int,
    ) -> bool;

    /// Takes one value from the stream.
    fn read(stream: &mut BinaryStream) -> (result: Result<Self, PacketError>)
        ensures
            final(stream).binary@ == old(stream).binary@,
            Self::reads_as(
                old(stream).binary@,
                old(stream).offset as int,
                result,
                final(stream).offset as int,
            ),
    ;

    /// Appends the wire form of the value to the stream; a value without one is
    /// refused and leaves the stream as it was.
    fn write(&self, stream: &mut BinaryStream) -> (result: Result<(), PacketError>)
        ensures
            final(stream).offset == old(stream).offset,
            match self.wire_form() {
                Some(bytes) => result is Ok && final(stream).binary@ == old(stream).binary@
                    + bytes,
                None => result == Err::<(), PacketError>(PacketError::SerializationError)
                    && final(stream).binary@ == old(stream).binary@,
            },
    ;
}

/// The offline-message marker has sixteen bytes.
pub proof fn lemma_magic_len()
    ensures
        magic_bytes().len() == 16,
{
}

} // verus!
