//! One frame: a user message, or a fragment of one, with its delivery metadata.
//!
//! On the wire a frame is a header byte (the reliability in the three high bits, the
//! split flag `0x10`), the payload length in bits as a big-endian 16-bit integer, the
//! indices that the reliability calls for (24 bits each, little endian; the ordered
//! index is followed by its channel), the split fields where the flag is set (size,
//! id and index, big endian), and the payload.

use crate::binary_stream::{BinaryStream, BinaryStreamError};
use crate::endian::{
    decode_uint, encode_uint, lemma_encode_uint_len, lemma_radix_values, lemma_uint_round_trip,
    Endianness,
};
use crate::packet::{DataType, PacketError};
use crate::reliability::Reliability;
use vstd::prelude::*;

verus! {

/// The bit of the header byte that marks a fragment.
pub const SPLIT_FLAG: u8 = 0x10;

/// The longest payload whose length in bits fits the 16-bit length field.
pub const MAX_PAYLOAD: usize = 8191;

/// The number of order channels.
pub const CHANNELS: u8 = 64;

/// One past the largest 24-bit index.
pub const INDEX_LIMIT: u32 = 0x100_0000;

/// One frame: a user message, or a fragment of one, with its delivery metadata.
#[derive(Debug, PartialEq, Eq, Hash)]
pub struct Frame {
    pub reliable_frame_index: Option<u32>,
    pub sequence_frame_index: Option<u32>,
    pub ordered_frame_index: Option<u32>,
    pub order_channel: Option<u8>,
    pub reliability: Reliability,
    pub payload: Vec<u8>,
    pub split_frame_index: Option<u32>,
    pub split_id: Option<u16>,
    pub split_size: Option<u32>,
}

/// A frame as a mathematical value.
pub struct FrameView {
    pub reliable_frame_index: Option<u32>,
    pub sequence_frame_index: Option<u32>,
    pub ordered_frame_index: Option<u32>,
    pub order_channel: Option<u8>,
    pub reliability: Reliability,
    pub payload: Seq<u8>,
    pub split_frame_index: Option<u32>,
    pub split_id: Option<u16>,
    pub split_size: Option<u32>,
}

impl View for Frame {
    type V = FrameView;

    open spec fn view(&self) -> FrameView {
        FrameView {
            reliable_frame_index: self.reliable_frame_index,
            sequence_frame_index: self.sequence_frame_index,
            ordered_frame_index: self.ordered_frame_index,
            order_channel: self.order_channel,
            reliability: self.reliability,
            payload: self.payload@,
            split_frame_index: self.split_frame_index,
            split_id: self.split_id,
            split_size: self.split_size,
        }
    }
}

/// The views of a run of frames, in order.
pub open spec fn frames_view(frames: Seq<Frame>) -> Seq<FrameView> {
    Seq::new(frames.len(), |i: int| frames[i]@)
}

impl FrameView {
    /// A frame is a fragment where it carries a split size above zero.
    pub open spec fn is_split(self) -> bool {
        self.split_size matches Some(n) && n > 0
    }

    /// The bytes the frame takes on the wire: three of header, the payload, three for
    /// each of the reliable and the sequence index, four for the ordered index with
    /// its channel, ten for the split fields.
    pub open spec fn size(self) -> nat {
        3 + self.payload.len() + (if self.reliability.spec_is_reliable() {
            3nat
        } else {
            0nat
        }) + (if self.reliability.spec_is_sequenced() {
            3nat
        } else {
            0nat
        }) + (if self.reliability.spec_is_ordered() {
            4nat
        } else {
            0nat
        }) + (if self.is_split() {
            10nat
        } else {
            0nat
        })
    }

    /// The channel on which the frame is ordered or sequenced: channel 0 where it
    /// names none.
    pub open spec fn channel(self) -> u8 {
        match self.order_channel {
            Some(c) => c,
            None => 0,
        }
    }

    /// Every field that the reliability and the split size call for is there.
    pub open spec fn complete(self) -> bool {
        &&& self.reliability.spec_is_reliable() ==> self.reliable_frame_index is Some
        &&& self.reliability.spec_is_sequenced() ==> self.sequence_frame_index is Some
        &&& self.reliability.spec_is_ordered() ==> self.ordered_frame_index is Some
            && self.order_channel is Some
        &&& self.is_split() ==> self.split_id is Some && self.split_frame_index is Some
    }

    /// The frame has a wire form: it is complete, and the payload length fits the
    /// length field.
    pub open spec fn encodable(self) -> bool {
        &&& self.payload.len() <= MAX_PAYLOAD
        &&& self.complete()
    }

    /// The invariants of a frame: it is complete, its indices fit 24 bits, its
    /// channel is one of the 64, and a fragment's index lies below its split size.
    pub open spec fn wf(self) -> bool {
        &&& self.complete()
        &&& self.reliable_frame_index matches Some(i) ==> i < INDEX_LIMIT
        &&& self.sequence_frame_index matches Some(i) ==> i < INDEX_LIMIT
        &&& self.ordered_frame_index matches Some(i) ==> i < INDEX_LIMIT
        &&& self.order_channel matches Some(c) ==> c < CHANNELS
        &&& self.is_split() ==> self.split_frame_index->Some_0 < self.split_size->Some_0
    }

    /// The frame holds exactly what its wire form carries: a field is there if and only
    /// if the header calls for it.
    pub open spec fn canonical(self) -> bool {
        &&& self.wf()
        &&& self.encodable()
        &&& self.reliable_frame_index is Some <==> self.reliability.spec_is_reliable()
        &&& self.sequence_frame_index is Some <==> self.reliability.spec_is_sequenced()
        &&& self.ordered_frame_index is Some <==> self.reliability.spec_is_ordered()
        &&& self.order_channel is Some <==> self.reliability.spec_is_ordered()
        &&& self.split_size is Some <==> self.is_split()
        &&& self.split_id is Some <==> self.is_split()
        &&& self.split_frame_index is Some <==> self.is_split()
    }

    /// The header byte: the reliability in the three high bits, then the split flag.
    pub open spec fn header_byte(self) -> u8 {
        (self.reliability.spec_to_u8() * 32 + if self.is_split() {
            16int
        } else {
            0int
        }) as u8
    }

    /// The index fields of the wire form, in order.
    pub open spec fn encode_indices(self) -> Seq<u8> {
        (if self.reliability.spec_is_reliable() {
            encode_uint(self.reliable_frame_index->Some_0 as nat, 3, Endianness::Little)
        } else {
            Seq::empty()
        }) + (if self.reliability.spec_is_sequenced() {
            encode_uint(self.sequence_frame_index->Some_0 as nat, 3, Endianness::Little)
        } else {
            Seq::empty()
        }) + (if self.reliability.spec_is_ordered() {
            encode_uint(self.ordered_frame_index->Some_0 as nat, 3, Endianness::Little).push(
                self.order_channel->Some_0,
            )
        } else {
            Seq::empty()
        })
    }

    /// The split fields of the wire form: size, id and index.
    pub open spec fn encode_split(self) -> Seq<u8> {
        if self.is_split() {
            encode_uint(self.split_size->Some_0 as nat, 4, Endianness::Big) + encode_uint(
                self.split_id->Some_0 as nat,
                2,
                Endianness::Big,
            ) + encode_uint(self.split_frame_index->Some_0 as nat, 4, Endianness::Big)
        } else {
            Seq::empty()
        }
    }

    /// The wire form of an encodable frame.
    pub open spec fn encode(self) -> Seq<u8> {
        seq![self.header_byte()] + encode_uint(self.payload.len() * 8, 2, Endianness::Big)
            + self.encode_indices() + self.encode_split() + self.payload
    }
}

/// What the header at `offset` says of the frame that starts there.
pub struct FrameLayout {
    pub reliability: Reliability,
    pub split: bool,
    /// The payload length in bytes.
    pub length: nat,
    /// Where the reliable index would start.
    pub reliable_at: int,
    /// Where the sequence index would start.
    pub sequence_at: int,
    /// Where the ordered index would start.
    pub ordered_at: int,
    /// Where the split fields would start.
    pub split_at: int,
    /// Where the payload starts.
    pub payload_at: int,
}

/// The layout that the three header bytes at `offset` announce. The payload length is
/// the bit length rounded up to whole bytes.
pub open spec fn frame_layout(bytes: Seq<u8>, offset: int) -> FrameLayout {
    let flags = bytes[offset];
    let reliability = Reliability::spec_from_u8(flags / 32);
    let split = (flags / 16) % 2 == 1;
    let bits = decode_uint(bytes.subrange(offset + 1, offset + 3), Endianness::Big);
    let reliable_at = offset + 3;
    let sequence_at = reliable_at + if reliability.spec_is_reliable() {
        3int
    } else {
        0int
    };
    let ordered_at = sequence_at + if reliability.spec_is_sequenced() {
        3int
    } else {
        0int
    };
    let split_at = ordered_at + if reliability.spec_is_ordered() {
        4int
    } else {
        0int
    };
    let payload_at = split_at + if split {
        10int
    } else {
        0int
    };
    FrameLayout {
        reliability,
        split,
        length: (bits + 7) / 8,
        reliable_at,
        sequence_at,
        ordered_at,
        split_at,
        payload_at,
    }
}

/// The frame that a complete header and payload at `offset` spell.
pub open spec fn frame_at(bytes: Seq<u8>, offset: int) -> FrameView {
    let layout = frame_layout(bytes, offset);
    FrameView {
        reliable_frame_index: if layout.reliability.spec_is_reliable() {
            Some(
                decode_uint(
                    bytes.subrange(layout.reliable_at, layout.reliable_at + 3),
                    Endianness::Little,
                ) as u32,
            )
        } else {
            None
        },
        sequence_frame_index: if layout.reliability.spec_is_sequenced() {
            Some(
                decode_uint(
                    bytes.subrange(layout.sequence_at, layout.sequence_at + 3),
                    Endianness::Little,
                ) as u32,
            )
        } else {
            None
        },
        ordered_frame_index: if layout.reliability.spec_is_ordered() {
            Some(
                decode_uint(
                    bytes.subrange(layout.ordered_at, layout.ordered_at + 3),
                    Endianness::Little,
                ) as u32,
            )
        } else {
            None
        },
        order_channel: if layout.reliability.spec_is_ordered() {
            Some(bytes[layout.ordered_at + 3])
        } else {
            None
        },
        reliability: layout.reliability,
        payload: bytes.subrange(layout.payload_at, layout.payload_at + layout.length),
        split_frame_index: if layout.split {
            Some(
                decode_uint(
                    bytes.subrange(layout.split_at + 6, layout.split_at + 10),
                    Endianness::Big,
                ) as u32,
            )
        } else {
            None
        },
        split_id: if layout.split {
            Some(
                decode_uint(
                    bytes.subrange(layout.split_at + 4, layout.split_at + 6),
                    Endianness::Big,
                ) as u16,
            )
        } else {
            None
        },
        split_size: if layout.split {
            Some(
                decode_uint(bytes.subrange(layout.split_at, layout.split_at + 4), Endianness::Big)
                    as u32,
            )
        } else {
            None
        },
    }
}

/// Reading one frame at `offset`: the frame and the offset after it, or why there is
/// none. The header must be complete, then the payload, and the frame must keep the
/// invariants of a canonical frame.
pub open spec fn decode_frame(bytes: Seq<u8>, offset: int) -> Result<(FrameView, int), PacketError> {
    if offset + 3 > bytes.len() {
        Err(PacketError::BinaryStreamError(BinaryStreamError::OutOfBounds))
    } else {
        let layout = frame_layout(bytes, offset);
        if layout.payload_at > bytes.len() {
            Err(PacketError::BinaryStreamError(BinaryStreamError::OutOfBounds))
        } else if layout.payload_at + layout.length > bytes.len() {
            Err(PacketError::BinaryStreamError(BinaryStreamError::InvalidLength))
        } else if !frame_at(bytes, offset).canonical() {
            Err(PacketError::InvalidPacket)
        } else {
            Ok((frame_at(bytes, offset), layout.payload_at + layout.length))
        }
    }
}

impl Clone for Frame {
    fn clone(&self) -> (copy: Frame)
        ensures
            copy@ == self@,
    {
        Frame {
            reliable_frame_index: self.reliable_frame_index,
            sequence_frame_index: self.sequence_frame_index,
            ordered_frame_index: self.ordered_frame_index,
            order_channel: self.order_channel,
            reliability: self.reliability,
            payload: self.payload.clone(),
            split_frame_index: self.split_frame_index,
            split_id: self.split_id,
            split_size: self.split_size,
        }
    }
}

fn same_u32(a: Option<u32>, b: Option<u32>) -> (same: bool)
    ensures
        same == (a == b),
{
    match (a, b) {
        (Some(x), Some(y)) => x == y,
        (None, None) => true,
        _ => false,
    }
}

fn same_bytes(a: &Vec<u8>, b: &Vec<u8>) -> (same: bool)
    ensures
        same == (a@ == b@),
{
    if a.len() != b.len() {
        return false;
    }
    let mut i: usize = 0;
    while i < a.len()
        invariant
            a@.len() == b@.len(),
            i <= a@.len(),
            forall|k: int| 0 <= k < i ==> a@[k] == b@[k],
        decreases a@.len() - i,
    {
        if a[i] != b[i] {
            return false;
        }
        i += 1;
    }
    assert(a@ =~= b@);
    true
}

impl Frame {
    /// An empty reliable ordered frame on channel 0, with no index assigned yet.
    pub fn new() -> (frame: Frame)
        ensures
            frame@ == (FrameView {
                reliable_frame_index: None,
                sequence_frame_index: None,
                ordered_frame_index: None,
                order_channel: Some(0u8),
                reliability: Reliability::ReliableOrdered,
                payload: Seq::empty(),
                split_frame_index: None,
                split_id: None,
                split_size: None,
            }),
    {
        Frame {
            reliable_frame_index: None,
            sequence_frame_index: None,
            ordered_frame_index: None,
            order_channel: Some(0),
            reliability: Reliability::ReliableOrdered,
            payload: Vec::new(),
            split_frame_index: None,
            split_id: None,
            split_size: None,
        }
    }

    /// Whether the frame is a fragment.
    pub fn is_split(&self) -> (split: bool)
        ensures
            split == self@.is_split(),
    {
        match self.split_size {
            Some(n) => n > 0,
            None => false,
        }
    }

    /// The bytes the frame takes on the wire.
    pub fn get_size(&self) -> (size: usize)
        requires
            self@.size() <= usize::MAX,
        ensures
            size == self@.size(),
    {
        let mut size: usize = self.payload.len();
        size += 3;
        if self.reliability.is_reliable() {
            size += 3;
        }
        if self.reliability.is_sequenced() {
            size += 3;
        }
        if self.reliability.is_ordered() {
            size += 4;
        }
        if self.is_split() {
            size += 10;
        }
        size
    }

    /// Whether two frames hold the same values.
    pub fn same_as(&self, other: &Frame) -> (same: bool)
        ensures
            same == (self@ == other@),
    {
        let same_channel = match (self.order_channel, other.order_channel) {
            (Some(x), Some(y)) => x == y,
            (None, None) => true,
            _ => false,
        };
        let same_id = match (self.split_id, other.split_id) {
            (Some(x), Some(y)) => x == y,
            (None, None) => true,
            _ => false,
        };
        same_u32(self.reliable_frame_index, other.reliable_frame_index) && same_u32(
            self.sequence_frame_index,
            other.sequence_frame_index,
        ) && same_u32(self.ordered_frame_index, other.ordered_frame_index) && same_channel
            && self.reliability.to_u8() == other.reliability.to_u8() && same_bytes(
            &self.payload,
            &other.payload,
        ) && same_u32(self.split_frame_index, other.split_frame_index) && same_id && same_u32(
            self.split_size,
            other.split_size,
        )
    }

    /// Whether every field that the reliability and the split size call for is there.
    pub fn is_complete(&self) -> (complete: bool)
        ensures
            complete == self@.complete(),
    {
        (!self.reliability.is_reliable() || self.reliable_frame_index.is_some()) && (
        !self.reliability.is_sequenced() || self.sequence_frame_index.is_some()) && (
        !self.reliability.is_ordered() || (self.ordered_frame_index.is_some()
            && self.order_channel.is_some())) && (!self.is_split() || (self.split_id.is_some()
            && self.split_frame_index.is_some()))
    }

    /// Whether the frame has a wire form.
    pub fn is_encodable(&self) -> (encodable: bool)
        ensures
            encodable == self@.encodable(),
    {
        self.payload.len() <= MAX_PAYLOAD && self.is_complete()
    }

    /// Whether the frame keeps the invariants of a frame.
    pub fn is_well_formed(&self) -> (well_formed: bool)
        ensures
            well_formed == self@.wf(),
    {
        let reliable_fits = match self.reliable_frame_index {
            Some(i) => i < INDEX_LIMIT,
            None => true,
        };
        let sequence_fits = match self.sequence_frame_index {
            Some(i) => i < INDEX_LIMIT,
            None => true,
        };
        let ordered_fits = match self.ordered_frame_index {
            Some(i) => i < INDEX_LIMIT,
            None => true,
        };
        let channel_fits = match self.order_channel {
            Some(c) => c < CHANNELS,
            None => true,
        };
        let split_fits = match (self.split_size, self.split_frame_index) {
            (Some(size), Some(index)) => size == 0 || index < size,
            (Some(size), None) => size == 0,
            _ => true,
        };
        self.is_complete() && reliable_fits && sequence_fits && ordered_fits && channel_fits
            && split_fits
    }

    /// Whether the frame holds exactly what its wire form carries.
    pub fn is_canonical(&self) -> (canonical: bool)
        ensures
            canonical == self@.canonical(),
    {
        let split = self.is_split();
        self.is_well_formed() && self.is_encodable() && self.reliable_frame_index.is_some()
            == self.reliability.is_reliable() && self.sequence_frame_index.is_some()
            == self.reliability.is_sequenced() && self.ordered_frame_index.is_some()
            == self.reliability.is_ordered() && self.order_channel.is_some()
            == self.reliability.is_ordered() && self.split_size.is_some() == split
            && self.split_id.is_some() == split && self.split_frame_index.is_some() == split
    }

    /// Appends the wire form of the frame to `stream`. A frame without a wire form is
    /// refused and leaves the stream as it was.
    pub fn write(&self, stream: &mut BinaryStream) -> (result: Result<(), PacketError>)
        ensures
            final(stream).offset == old(stream).offset,
            self@.encodable() ==> result is Ok && final(stream).binary@ == old(stream).binary@
                + self@.encode(),
            !self@.encodable() ==> result == Err::<(), PacketError>(
                PacketError::SerializationError,
            ) && final(stream).binary@ == old(stream).binary@,
    {
        if !self.is_encodable() {
            return Err(PacketError::SerializationError);
        }
        let ghost before = stream.binary@;
        let flags: u8 = self.reliability.to_u8() * 32 + if self.is_split() {
            SPLIT_FLAG
        } else {
            0
        };
        stream.write_u8(flags);
        stream.write_u16((self.payload.len() * 8) as u16, Endianness::Big);
        let ghost after_header = stream.binary@;
        self.write_indices(stream);
        let ghost after_indices = stream.binary@;
        self.write_split(stream);
        let ghost after_split = stream.binary@;
        stream.write(self.payload.clone());
        proof {
            let header = seq![self@.header_byte()] + encode_uint(
                self@.payload.len() * 8,
                2,
                Endianness::Big,
            );
            assert(after_header =~= before + header);
            assert(stream.binary@ =~= before + (header + self@.encode_indices()
                + self@.encode_split() + self@.payload));
        }
        Ok(())
    }

    /// Appends the index fields that the reliability calls for.
    fn write_indices(&self, stream: &mut BinaryStream)
        requires
            self@.encodable(),
        ensures
            final(stream).offset == old(stream).offset,
            final(stream).binary@ == old(stream).binary@ + self@.encode_indices(),
    {
        let ghost before = stream.binary@;
        if self.reliability.is_reliable() {
            stream.write_u24(self.reliable_frame_index.unwrap(), Endianness::Little);
        }
        let ghost first = stream.binary@;
        if self.reliability.is_sequenced() {
            stream.write_u24(self.sequence_frame_index.unwrap(), Endianness::Little);
        }
        let ghost second = stream.binary@;
        if self.reliability.is_ordered() {
            stream.write_u24(self.ordered_frame_index.unwrap(), Endianness::Little);
            stream.write_u8(self.order_channel.unwrap());
        }
        proof {
            let a = first.subrange(before.len() as int, first.len() as int);
            let b = second.subrange(first.len() as int, second.len() as int);
            let c = stream.binary@.subrange(second.len() as int, stream.binary@.len() as int);
            assert(first =~= before + a);
            assert(second =~= first + b);
            assert(stream.binary@ =~= second + c);
            assert(a =~= if self.reliability.spec_is_reliable() {
                encode_uint(self.reliable_frame_index->Some_0 as nat, 3, Endianness::Little)
            } else {
                Seq::empty()
            });
            assert(b =~= if self.reliability.spec_is_sequenced() {
                encode_uint(self.sequence_frame_index->Some_0 as nat, 3, Endianness::Little)
            } else {
                Seq::empty()
            });
            assert(c =~= if self.reliability.spec_is_ordered() {
                encode_uint(self.ordered_frame_index->Some_0 as nat, 3, Endianness::Little).push(
                    self.order_channel->Some_0,
                )
            } else {
                Seq::empty()
            });
            assert(stream.binary@ =~= before + (a + b + c));
        }
    }

    /// Appends the split fields of a fragment.
    fn write_split(&self, stream: &mut BinaryStream)
        requires
            self@.encodable(),
        ensures
            final(stream).offset == old(stream).offset,
            final(stream).binary@ == old(stream).binary@ + self@.encode_split(),
    {
        let ghost before = stream.binary@;
        if self.is_split() {
            stream.write_u32(self.split_size.unwrap(), Endianness::Big);
            stream.write_u16(self.split_id.unwrap(), Endianness::Big);
            stream.write_u32(self.split_frame_index.unwrap(), Endianness::Big);
        }
        proof {
            assert(stream.binary@ =~= before + self@.encode_split());
        }
    }

    /// Takes one frame from `stream`. On any failure the stream stays as it was.
    pub fn read(stream: &mut BinaryStream) -> (result: Result<Frame, PacketError>)
        ensures
            final(stream).binary@ == old(stream).binary@,
            match decode_frame(old(stream).binary@, old(stream).offset as int) {
                Ok((frame, next)) => {
                    &&& result matches Ok(read) && read@ == frame
                    &&& final(stream).offset == next
                },
                Err(e) => {
                    &&& result == Err::<Frame, PacketError>(e)
                    &&& final(stream).offset == old(stream).offset
                },
            },
    {
        let start: usize = stream.offset;
        let result = Frame::read_fields(stream);
        match result {
            Ok(frame) => {
                if frame.is_canonical() {
                    Ok(frame)
                } else {
                    stream.offset = start;
                    Err(PacketError::InvalidPacket)
                }
            },
            Err(e) => {
                stream.offset = start;
                Err(PacketError::BinaryStreamError(e))
            },
        }
    }

    /// Takes the fields of one frame from `stream`, without holding them to the
    /// invariants. On failure the cursor is left wherever the reading stopped.
    fn read_fields(stream: &mut BinaryStream) -> (result: Result<Frame, BinaryStreamError>)
        ensures
            final(stream).binary@ == old(stream).binary@,
            ({
                let bytes = old(stream).binary@;
                let offset = old(stream).offset as int;
                let layout = frame_layout(bytes, offset);
                if offset + 3 > bytes.len() || layout.payload_at > bytes.len() {
                    result == Err::<Frame, BinaryStreamError>(BinaryStreamError::OutOfBounds)
                } else if layout.payload_at + layout.length > bytes.len() {
                    result == Err::<Frame, BinaryStreamError>(BinaryStreamError::InvalidLength)
                } else {
                    &&& result matches Ok(frame) && frame@ == frame_at(bytes, offset)
                    &&& final(stream).offset == layout.payload_at + layout.length
                }
            }),
    {
        let ghost bytes = stream.binary@;
        let ghost offset = stream.offset as int;
        let ghost layout = frame_layout(bytes, offset);
        proof {
            lemma_radix_values();
        }
        let flags: u8 = match stream.read_u8() {
            Ok(v) => v,
            Err(e) => {
                return Err(e);
            },
        };
        let reliability = Reliability::from_u8(flags / 32);
        let split: bool = (flags / 16) % 2 == 1;
        let bits: u16 = match stream.read_u16(Endianness::Big) {
            Ok(v) => v,
            Err(e) => {
                return Err(e);
            },
        };
        let length: usize = ((bits as usize) + 7) / 8;
        assert(stream.offset == offset + 3);
        let reliable_frame_index = if reliability.is_reliable() {
            match stream.read_u24(Endianness::Little) {
                Ok(v) => Some(v),
                Err(e) => {
                    return Err(e);
                },
            }
        } else {
            None
        };
        assert(stream.offset == layout.sequence_at);
        let sequence_frame_index = if reliability.is_sequenced() {
            match stream.read_u24(Endianness::Little) {
                Ok(v) => Some(v),
                Err(e) => {
                    return Err(e);
                },
            }
        } else {
            None
        };
        assert(stream.offset == layout.ordered_at);
        let mut ordered_frame_index: Option<u32> = None;
        let mut order_channel: Option<u8> = None;
        if reliability.is_ordered() {
            match stream.read_u24(Endianness::Little) {
                Ok(v) => {
                    ordered_frame_index = Some(v);
                },
                Err(e) => {
                    return Err(e);
                },
            }
            match stream.read_u8() {
                Ok(v) => {
                    order_channel = Some(v);
                },
                Err(e) => {
                    return Err(e);
                },
            }
        }
        assert(stream.offset == layout.split_at);
        let mut split_size: Option<u32> = None;
        let mut split_id: Option<u16> = None;
        let mut split_frame_index: Option<u32> = None;
        if split {
            match stream.read_u32(Endianness::Big) {
                Ok(v) => {
                    split_size = Some(v);
                },
                Err(e) => {
                    return Err(e);
                },
            }
            match stream.read_u16(Endianness::Big) {
                Ok(v) => {
                    split_id = Some(v);
                },
                Err(e) => {
                    return Err(e);
                },
            }
            match stream.read_u32(Endianness::Big) {
                Ok(v) => {
                    split_frame_index = Some(v);
                },
                Err(e) => {
                    return Err(e);
                },
            }
        }
        assert(stream.offset == layout.payload_at);
        let payload = match stream.read(length) {
            Ok(v) => v,
            Err(_) => {
                return Err(BinaryStreamError::InvalidLength);
            },
        };
        Ok(
            Frame {
                reliable_frame_index,
                sequence_frame_index,
                ordered_frame_index,
                order_channel,
                reliability,
                payload,
                split_frame_index,
                split_id,
                split_size,
            },
        )
    }
}

/// The wire form of a frame is as long as the size of the frame says.
pub proof fn lemma_encode_len(frame: FrameView)
    requires
        frame.encodable(),
    ensures
        frame.encode().len() == frame.size(),
        frame.encode_indices().len() == (if frame.reliability.spec_is_reliable() {
            3int
        } else {
            0int
        }) + (if frame.reliability.spec_is_sequenced() {
            3int
        } else {
            0int
        }) + (if frame.reliability.spec_is_ordered() {
            4int
        } else {
            0int
        }),
        frame.encode_split().len() == (if frame.is_split() {
            10int
        } else {
            0int
        }),
{
    lemma_encode_uint_len(frame.payload.len() * 8, 2, Endianness::Big);
    lemma_encode_uint_len(frame.reliable_frame_index->Some_0 as nat, 3, Endianness::Little);
    lemma_encode_uint_len(frame.sequence_frame_index->Some_0 as nat, 3, Endianness::Little);
    lemma_encode_uint_len(frame.ordered_frame_index->Some_0 as nat, 3, Endianness::Little);
    lemma_encode_uint_len(frame.split_size->Some_0 as nat, 4, Endianness::Big);
    lemma_encode_uint_len(frame.split_id->Some_0 as nat, 2, Endianness::Big);
    lemma_encode_uint_len(frame.split_frame_index->Some_0 as nat, 4, Endianness::Big);
}

/// The header of a wire form tells the layout of the frame it was made from.
proof fn lemma_layout_of_encoded(frame: FrameView, prefix: Seq<u8>, suffix: Seq<u8>)
    requires
        frame.encodable(),
    ensures
        ({
            let bytes = prefix + frame.encode() + suffix;
            let offset = prefix.len() as int;
            let layout = frame_layout(bytes, offset);
            &&& offset + 3 <= bytes.len()
            &&& layout.reliability == frame.reliability
            &&& layout.split == frame.is_split()
            &&& layout.length == frame.payload.len()
            &&& layout.payload_at + layout.length == offset + frame.encode().len()
            &&& layout.payload_at + layout.length <= bytes.len()
        }),
{
    let bytes = prefix + frame.encode() + suffix;
    let offset = prefix.len() as int;
    lemma_encode_len(frame);
    lemma_radix_values();
    let bits = encode_uint(frame.payload.len() * 8, 2, Endianness::Big);
    lemma_uint_round_trip(frame.payload.len() * 8, 2, Endianness::Big);
    assert(bytes[offset] == frame.header_byte());
    assert(bytes.subrange(offset + 1, offset + 3) =~= bits);
    let value = frame.reliability.spec_to_u8();
    assert(Reliability::spec_from_u8(value) == frame.reliability);
    assert(frame.header_byte() / 32 == value);
    assert((frame.header_byte() / 16) % 2 == 1 <==> frame.is_split());
}

/// A canonical frame reads back from its wire form, wherever that stands.
pub proof fn lemma_frame_round_trip(frame: FrameView, prefix: Seq<u8>, suffix: Seq<u8>)
    requires
        frame.canonical(),
    ensures
        decode_frame(prefix + frame.encode() + suffix, prefix.len() as int) == Ok::<
            (FrameView, int),
            PacketError,
        >((frame, (prefix.len() + frame.encode().len()) as int)),
        frame.encode().len() == frame.size(),
{
    let encoded = frame.encode();
    let bytes = prefix + encoded + suffix;
    let offset = prefix.len() as int;
    lemma_encode_len(frame);
    lemma_layout_of_encoded(frame, prefix, suffix);
    lemma_radix_values();
    let layout = frame_layout(bytes, offset);
    let head = seq![frame.header_byte()] + encode_uint(frame.payload.len() * 8, 2, Endianness::Big);
    lemma_encode_uint_len(frame.payload.len() * 8, 2, Endianness::Big);
    let indices = frame.encode_indices();
    let split = frame.encode_split();
    assert(encoded =~= head + indices + split + frame.payload);
    assert(bytes.subrange(offset + 3, offset + 3 + indices.len()) =~= indices);
    assert(bytes.subrange(layout.split_at, layout.split_at + split.len()) =~= split);
    assert(bytes.subrange(layout.payload_at, layout.payload_at + layout.length)
        =~= frame.payload);
    let read = frame_at(bytes, offset);
    if frame.reliability.spec_is_reliable() {
        let piece = encode_uint(frame.reliable_frame_index->Some_0 as nat, 3, Endianness::Little);
        lemma_encode_uint_len(frame.reliable_frame_index->Some_0 as nat, 3, Endianness::Little);
        lemma_uint_round_trip(frame.reliable_frame_index->Some_0 as nat, 3, Endianness::Little);
        assert(bytes.subrange(layout.reliable_at, layout.reliable_at + 3) =~= piece);
    }
    if frame.reliability.spec_is_sequenced() {
        let piece = encode_uint(frame.sequence_frame_index->Some_0 as nat, 3, Endianness::Little);
        lemma_encode_uint_len(frame.sequence_frame_index->Some_0 as nat, 3, Endianness::Little);
        lemma_encode_uint_len(frame.reliable_frame_index->Some_0 as nat, 3, Endianness::Little);
        lemma_uint_round_trip(frame.sequence_frame_index->Some_0 as nat, 3, Endianness::Little);
        assert(bytes.subrange(layout.sequence_at, layout.sequence_at + 3) =~= piece);
    }
    if frame.reliability.spec_is_ordered() {
        let piece = encode_uint(frame.ordered_frame_index->Some_0 as nat, 3, Endianness::Little);
        lemma_encode_uint_len(frame.ordered_frame_index->Some_0 as nat, 3, Endianness::Little);
        lemma_encode_uint_len(frame.reliable_frame_index->Some_0 as nat, 3, Endianness::Little);
        lemma_uint_round_trip(frame.ordered_frame_index->Some_0 as nat, 3, Endianness::Little);
        assert(bytes.subrange(layout.ordered_at, layout.ordered_at + 3) =~= piece);
        assert(bytes[layout.ordered_at + 3] == frame.order_channel->Some_0);
    }
    if frame.is_split() {
        let size = encode_uint(frame.split_size->Some_0 as nat, 4, Endianness::Big);
        let id = encode_uint(frame.split_id->Some_0 as nat, 2, Endianness::Big);
        let index = encode_uint(frame.split_frame_index->Some_0 as nat, 4, Endianness::Big);
        lemma_encode_uint_len(frame.split_size->Some_0 as nat, 4, Endianness::Big);
        lemma_encode_uint_len(frame.split_id->Some_0 as nat, 2, Endianness::Big);
        lemma_encode_uint_len(frame.split_frame_index->Some_0 as nat, 4, Endianness::Big);
        lemma_uint_round_trip(frame.split_size->Some_0 as nat, 4, Endianness::Big);
        lemma_uint_round_trip(frame.split_id->Some_0 as nat, 2, Endianness::Big);
        lemma_uint_round_trip(frame.split_frame_index->Some_0 as nat, 4, Endianness::Big);
        assert(split =~= size + id + index);
        assert(bytes.subrange(layout.split_at, layout.split_at + 4) =~= size);
        assert(bytes.subrange(layout.split_at + 4, layout.split_at + 6) =~= id);
        assert(bytes.subrange(layout.split_at + 6, layout.split_at + 10) =~= index);
    }
    assert(read.payload == frame.payload);
    assert(read == frame);
}

impl DataType for Frame {
    open spec fn wire_form(&self) -> Option<Seq<u8>> {
        if self@.encodable() {
            Some(self@.encode())
        } else {
            None
        }
    }

    open spec fn reads_as(
        bytes: Seq<u8>,
        offset: int,
        result: Result<Frame, PacketError>,
        next: int,
    ) -> bool {
        match decode_frame(bytes, offset) {
            Ok((frame, end)) => result matches Ok(read) && read@ == frame && next == end,
            Err(e) => result == Err::<Frame, PacketError>(e) && next == offset,
        }
    }

    fn read(stream: &mut BinaryStream) -> (result: Result<Frame, PacketError>) {
        Frame::read(stream)
    }

    fn write(&self, stream: &mut BinaryStream) -> (result: Result<(), PacketError>) {
        Frame::write(self, stream)
    }
}

} // verus!
