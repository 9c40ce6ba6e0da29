//! The datagram that carries frames: a leading byte whose upper half is 8, a 24-bit
//! little-endian sequence number, and frames until the datagram ends.

use crate::binary_stream::{BinaryStream, BinaryStreamError};
use crate::endian::{
    decode_uint, encode_uint, lemma_encode_uint_len, lemma_radix_values, lemma_uint_round_trip,
    Endianness,
};
use crate::frame::{decode_frame, lemma_frame_round_trip, Frame, FrameView, INDEX_LIMIT};
use crate::packet::{Packet, PacketError, MAGIC};
use vstd::prelude::*;

verus! {

/// A datagram of frames under one sequence number.
#[derive(Debug, PartialEq, Eq)]
pub struct FrameSet {
    pub sequence: u32,
    pub frames: Vec<Frame>,
}

/// A frame set as a mathematical value.
pub struct FrameSetView {
    pub sequence: u32,
    pub frames: Seq<FrameView>,
}

impl View for FrameSet {
    type V = FrameSetView;

    open spec fn view(&self) -> FrameSetView {
        FrameSetView {
            sequence: self.sequence,
            frames: Seq::new(self.frames@.len(), |i: int| self.frames@[i]@),
        }
    }
}

/// The wire forms of `frames`, one after the other.
pub open spec fn encode_frames(frames: Seq<FrameView>) -> Seq<u8>
    decreases frames.len(),
{
    if frames.len() == 0 {
        Seq::empty()
    } else {
        encode_frames(frames.drop_last()) + frames.last().encode()
    }
}

/// The frames that fill `bytes` from `offset` to the end, or the first failure met on
/// the way.
pub open spec fn decode_frames(bytes: Seq<u8>, offset: int) -> Result<Seq<FrameView>, PacketError>
    decreases bytes.len() - offset,
{
    if offset >= bytes.len() {
        Ok(Seq::empty())
    } else {
        match decode_frame(bytes, offset) {
            Err(e) => Err(e),
            Ok((frame, next)) => match decode_frames(bytes, next) {
                Err(e) => Err(e),
                Ok(rest) => Ok(seq![frame] + rest),
            },
        }
    }
}

impl FrameSetView {
    /// Every frame has a wire form.
    pub open spec fn encodable(self) -> bool {
        forall|i: int| 0 <= i < self.frames.len() ==> (#[trigger] self.frames[i]).encodable()
    }

    /// The sequence number fits 24 bits and every frame keeps its invariants.
    pub open spec fn wf(self) -> bool {
        &&& self.sequence < INDEX_LIMIT
        &&& forall|i: int| 0 <= i < self.frames.len() ==> (#[trigger] self.frames[i]).wf()
    }

    /// The sequence number fits 24 bits and every frame is canonical.
    pub open spec fn canonical(self) -> bool {
        &&& self.sequence < INDEX_LIMIT
        &&& forall|i: int| 0 <= i < self.frames.len() ==> (#[trigger] self.frames[i]).canonical()
    }

    /// The wire form of an encodable frame set; of the sequence number it carries the
    /// three low-order bytes.
    pub open spec fn encode(self) -> Seq<u8> {
        seq![FrameSet::ID] + encode_uint(self.sequence as nat, 3, Endianness::Little)
            + encode_frames(self.frames)
    }

    /// Reading a datagram as a frame set: the leading byte must have 8 as its upper
    /// half, the sequence number must be complete, and frames must fill the rest.
    pub open spec fn decode(bytes: Seq<u8>) -> Result<FrameSetView, PacketError> {
        if bytes.len() < 1 {
            Err(PacketError::BinaryStreamError(BinaryStreamError::OutOfBounds))
        } else if bytes[0] / 16 != 8 {
            Err(PacketError::InvalidPacket)
        } else if bytes.len() < 4 {
            Err(PacketError::BinaryStreamError(BinaryStreamError::OutOfBounds))
        } else {
            match decode_frames(bytes, 4) {
                Err(e) => Err(e),
                Ok(frames) => Ok(
                    FrameSetView {
                        sequence: decode_uint(bytes.subrange(1, 4), Endianness::Little) as u32,
                        frames,
                    },
                ),
            }
        }
    }
}

impl FrameSet {
    /// The leading byte that a frame set is written with.
    pub const ID: u8 = 0x80;

    pub fn new(sequence: u32, frames: Vec<Frame>) -> (set: FrameSet)
        ensures
            set.sequence == sequence,
            set.frames == frames,
    {
        FrameSet { sequence, frames }
    }

    /// Whether the sequence number fits 24 bits and every frame keeps its invariants.
    pub fn is_well_formed(&self) -> (well_formed: bool)
        ensures
            well_formed == self@.wf(),
    {
        if self.sequence >= INDEX_LIMIT {
            return false;
        }
        let mut i: usize = 0;
        while i < self.frames.len()
            invariant
                i <= self.frames@.len(),
                forall|k: int| 0 <= k < i ==> (#[trigger] self@.frames[k]).wf(),
            decreases self.frames@.len() - i,
        {
            if !self.frames[i].is_well_formed() {
                assert(!self@.frames[i as int].wf());
                return false;
            }
            i += 1;
        }
        true
    }

    /// The wire form of the frame set. A set with a frame that has no wire form is
    /// refused.
    pub fn serialize(&self) -> (result: Result<Vec<u8>, PacketError>)
        ensures
            self@.encodable() ==> (result matches Ok(bytes) && bytes@ == self@.encode()),
            !self@.encodable() ==> result == Err::<Vec<u8>, PacketError>(
                PacketError::SerializationError,
            ),
    {
        let mut stream = BinaryStream::new(None, None);
        stream.write_u8(FrameSet::ID);
        stream.write_u24(self.sequence, Endianness::Little);
        let ghost head = stream.binary@;
        let mut i: usize = 0;
        while i < self.frames.len()
            invariant
                i <= self.frames@.len(),
                forall|k: int| 0 <= k < i ==> (#[trigger] self@.frames[k]).encodable(),
                stream.binary@ == head + encode_frames(self@.frames.take(i as int)),
            decreases self.frames@.len() - i,
        {
            let ghost before = stream.binary@;
            match self.frames[i].write(&mut stream) {
                Ok(()) => {},
                Err(_) => {
                    assert(!self@.frames[i as int].encodable());
                    return Err(PacketError::SerializationError);
                },
            }
            proof {
                let taken = self@.frames.take(i + 1);
                assert(taken.drop_last() =~= self@.frames.take(i as int));
                assert(taken.last() == self@.frames[i as int]);
                assert(stream.binary@ =~= head + encode_frames(taken));
            }
            i += 1;
        }
        proof {
            assert(self@.frames.take(i as int) =~= self@.frames);
            assert(head =~= seq![FrameSet::ID] + encode_uint(
                self.sequence as nat,
                3,
                Endianness::Little,
            ));
        }
        Ok(stream.binary)
    }

    /// Reads a datagram as a frame set.
    pub fn deserialize(buffer: &[u8]) -> (result: Result<FrameSet, PacketError>)
        ensures
            match FrameSetView::decode(buffer@) {
                Ok(set) => result matches Ok(read) && read@ == set,
                Err(e) => result == Err::<FrameSet, PacketError>(e),
            },
            result matches Ok(read) ==> read@.wf(),
    {
        let mut stream = BinaryStream::new(Some(vstd::slice::slice_to_vec(buffer)), None);
        let id: u8 = match stream.read_u8() {
            Ok(v) => v,
            Err(e) => {
                return Err(PacketError::BinaryStreamError(e));
            },
        };
        if id / 16 != 8 {
            return Err(PacketError::InvalidPacket);
        }
        let sequence: u32 = match stream.read_u24(Endianness::Little) {
            Ok(v) => v,
            Err(e) => {
                return Err(PacketError::BinaryStreamError(e));
            },
        };
        let mut frames: Vec<Frame> = Vec::new();
        let ghost bytes = buffer@;
        while !stream.cursor_at_end()
            invariant
                bytes == buffer@,
                bytes[0] / 16 == 8,
                sequence == decode_uint(bytes.subrange(1, 4), Endianness::Little),
                sequence < INDEX_LIMIT,
                stream.binary@ == bytes,
                4 <= stream.offset <= bytes.len(),
                forall|k: int| 0 <= k < frames@.len() ==> (#[trigger] frames@[k]@).wf(),
                decode_frames(bytes, 4) == (match decode_frames(bytes, stream.offset as int) {
                    Ok(rest) => Ok::<Seq<FrameView>, PacketError>(
                        Seq::new(frames@.len(), |i: int| frames@[i]@) + rest,
                    ),
                    Err(e) => Err(e),
                }),
            decreases bytes.len() - stream.offset,
        {
            let ghost before = Seq::new(frames@.len(), |i: int| frames@[i]@);
            let ghost offset = stream.offset as int;
            match Frame::read(&mut stream) {
                Ok(frame) => {
                    proof {
                        let next = stream.offset as int;
                        let after = before.push(frame@);
                        match decode_frames(bytes, next) {
                            Ok(rest) => {
                                assert(before + (seq![frame@] + rest) =~= after + rest);
                            },
                            Err(e) => {},
                        }
                    }
                    frames.push(frame);
                    proof {
                        assert(Seq::new(frames@.len(), |i: int| frames@[i]@) =~= before.push(
                            frames@.last()@,
                        ));
                    }
                },
                Err(e) => {
                    proof {
                        assert(offset < bytes.len());
                        assert(decode_frame(bytes, offset) == Err::<(FrameView, int), PacketError>(
                            e,
                        ));
                        assert(decode_frames(bytes, offset) == Err::<Seq<FrameView>, PacketError>(
                            e,
                        ));
                    }
                    return Err(e);
                },
            }
        }
        proof {
            let all = Seq::new(frames@.len(), |i: int| frames@[i]@);
            assert(all + Seq::<FrameView>::empty() =~= all);
        }
        Ok(FrameSet { sequence, frames })
    }
}

/// The wire forms of frames start with the wire form of the first.
pub proof fn lemma_encode_frames_front(frames: Seq<FrameView>)
    requires
        frames.len() > 0,
    ensures
        encode_frames(frames) == frames[0].encode() + encode_frames(frames.drop_first()),
    decreases frames.len(),
{
    if frames.len() == 1 {
        assert(frames.drop_last() =~= Seq::<FrameView>::empty());
        assert(frames.drop_first() =~= Seq::<FrameView>::empty());
        assert(encode_frames(frames) =~= frames[0].encode() + encode_frames(frames.drop_first()));
    } else {
        let shorter = frames.drop_last();
        lemma_encode_frames_front(shorter);
        assert(shorter.drop_first() =~= frames.drop_first().drop_last());
        assert(frames.drop_first().last() == frames.last());
        assert(shorter[0] == frames[0]);
        assert(encode_frames(frames) =~= frames[0].encode() + encode_frames(frames.drop_first()));
    }
}

/// Canonical frames read back from their wire forms, one after the other.
pub proof fn lemma_frames_round_trip(prefix: Seq<u8>, frames: Seq<FrameView>)
    requires
        forall|i: int| 0 <= i < frames.len() ==> (#[trigger] frames[i]).canonical(),
    ensures
        decode_frames(prefix + encode_frames(frames), prefix.len() as int) == Ok::<
            Seq<FrameView>,
            PacketError,
        >(frames),
    decreases frames.len(),
{
    let bytes = prefix + encode_frames(frames);
    if frames.len() == 0 {
        assert(frames =~= Seq::<FrameView>::empty());
    } else {
        let first = frames[0];
        let rest = frames.drop_first();
        lemma_encode_frames_front(frames);
        assert(first.canonical());
        lemma_frame_round_trip(first, prefix, encode_frames(rest));
        assert(bytes =~= prefix + first.encode() + encode_frames(rest));
        assert forall|i: int| 0 <= i < rest.len() implies (#[trigger] rest[i]).canonical() by {
            assert(rest[i] == frames[i + 1]);
        }
        lemma_frames_round_trip(prefix + first.encode(), rest);
        assert(bytes =~= (prefix + first.encode()) + encode_frames(rest));
        assert(seq![first] + rest =~= frames);
    }
}

/// A frame set of canonical frames reads back from its wire form, under every leading
/// byte whose upper half is 8.
pub proof fn lemma_frame_set_round_trip(set: FrameSetView, id: u8)
    requires
        set.canonical(),
        id / 16 == 8,
    ensures
        FrameSetView::decode(set.encode().update(0, id)) == Ok::<FrameSetView, PacketError>(set),
        FrameSetView::decode(set.encode()) == Ok::<FrameSetView, PacketError>(set),
{
    lemma_radix_values();
    let number = encode_uint(set.sequence as nat, 3, Endianness::Little);
    lemma_encode_uint_len(set.sequence as nat, 3, Endianness::Little);
    lemma_uint_round_trip(set.sequence as nat, 3, Endianness::Little);
    let with_id = seq![id] + number;
    let with_own = seq![FrameSet::ID] + number;
    lemma_frames_round_trip(with_id, set.frames);
    lemma_frames_round_trip(with_own, set.frames);
    let changed = set.encode().update(0, id);
    assert(changed =~= with_id + encode_frames(set.frames));
    assert(set.encode() =~= with_own + encode_frames(set.frames));
    assert(changed.subrange(1, 4) =~= number);
    assert(set.encode().subrange(1, 4) =~= number);
}

impl Packet for FrameSet {
    const ID: u16 = 0x80;

    const MAGIC: [u8; 16] = MAGIC;

    open spec fn wire_form(&self) -> Option<Seq<u8>> {
        if self@.encodable() {
            Some(self@.encode())
        } else {
            None
        }
    }

    open spec fn reads_as(buffer: Seq<u8>, result: Result<FrameSet, PacketError>) -> bool {
        match FrameSetView::decode(buffer) {
            Ok(packet) => result matches Ok(read) && read@ == packet,
            Err(e) => result matches Err(found) && found == e,
        }
    }

    fn serialize(&self) -> (result: Result<Vec<u8>, PacketError>) {
        FrameSet::serialize(self)
    }

    fn deserialize(buffer: &[u8]) -> (result: Result<FrameSet, PacketError>) {
        FrameSet::deserialize(buffer)
    }
}

} // verus!
