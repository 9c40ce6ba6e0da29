use raknet::binary_stream::{BinaryStream, BinaryStreamError};
use raknet::frame::Frame;
use raknet::frameset::FrameSet;
use raknet::packet::PacketError;
use raknet::reliability::Reliability;

fn frame_with(reliability: Reliability, split: bool, payload: Vec<u8>) -> Frame {
    let mut frame = Frame::new();
    frame.reliability = reliability;
    frame.order_channel = None;
    frame.payload = payload;
    if reliability.is_reliable() {
        frame.reliable_frame_index = Some(0x010203);
    }
    if reliability.is_sequenced() {
        frame.sequence_frame_index = Some(0x0A0B0C);
    }
    if reliability.is_ordered() {
        frame.ordered_frame_index = Some(0xFF_FFFF);
        frame.order_channel = Some(63);
    }
    if split {
        frame.split_size = Some(4);
        frame.split_id = Some(0xBEEF);
        frame.split_frame_index = Some(3);
    }
    frame
}

#[test]
fn new_frame_is_reliable_ordered_on_channel_zero() {
    let frame = Frame::new();
    assert_eq!(frame.reliability, Reliability::ReliableOrdered);
    assert_eq!(frame.order_channel, Some(0));
    assert_eq!(frame.reliable_frame_index, None);
    assert_eq!(frame.sequence_frame_index, None);
    assert_eq!(frame.ordered_frame_index, None);
    assert_eq!(frame.split_size, None);
    assert!(frame.payload.is_empty());
    assert!(!frame.is_split());
}

#[test]
fn frame_wire_form_of_a_reliable_ordered_frame() {
    let mut frame = Frame::new();
    frame.payload = vec![0xFE, 1, 2];
    frame.reliable_frame_index = Some(5);
    frame.ordered_frame_index = Some(7);
    let mut stream = BinaryStream::new(None, None);
    assert_eq!(frame.write(&mut stream), Ok(()));
    assert_eq!(stream.binary, vec![0x60, 0x00, 0x18, 5, 0, 0, 7, 0, 0, 0, 0xFE, 1, 2]);
    assert_eq!(frame.get_size(), 13);
}

#[test]
fn frame_wire_form_of_a_split_frame() {
    let frame = frame_with(Reliability::Unreliable, true, vec![9]);
    let mut stream = BinaryStream::new(None, None);
    assert_eq!(frame.write(&mut stream), Ok(()));
    assert_eq!(stream.binary, vec![0x10, 0, 8, 0, 0, 0, 4, 0xBE, 0xEF, 0, 0, 0, 3, 9]);
    assert_eq!(frame.get_size(), 14);
}

#[test]
fn frame_size_counts_every_field() {
    assert_eq!(frame_with(Reliability::Unreliable, false, vec![0; 10]).get_size(), 13);
    assert_eq!(frame_with(Reliability::UnreliableSequenced, false, vec![0; 10]).get_size(), 16);
    assert_eq!(frame_with(Reliability::Reliable, false, vec![0; 10]).get_size(), 16);
    assert_eq!(frame_with(Reliability::ReliableOrdered, false, vec![0; 10]).get_size(), 20);
    assert_eq!(frame_with(Reliability::ReliableSequenced, false, vec![0; 10]).get_size(), 19);
    assert_eq!(frame_with(Reliability::ReliableOrdered, true, vec![0; 10]).get_size(), 30);
    assert_eq!(frame_with(Reliability::ReliableOrderedWithAckReceipt, true, vec![]).get_size(), 20);
}

#[test]
fn frame_round_trip_over_reliability_split_and_length() {
    let max_body = 1500 - 36;
    for value in 0u8..8 {
        for split in [false, true] {
            for length in [0usize, 1, max_body - 1, max_body] {
                let payload: Vec<u8> = (0..length).map(|i| (i % 251) as u8).collect();
                let frame = frame_with(Reliability::from_u8(value), split, payload);
                assert!(frame.is_canonical());
                let mut stream = BinaryStream::new(Some(vec![0xAA]), Some(1));
                assert_eq!(frame.write(&mut stream), Ok(()));
                assert_eq!(stream.binary.len(), 1 + frame.get_size());
                let bits = ((stream.binary[2] as usize) << 8) | stream.binary[3] as usize;
                assert_eq!(bits, length << 3);
                assert_eq!(stream.binary[1] >> 5, value);
                assert_eq!(stream.binary[1] & 0x10 != 0, split);
                let read = Frame::read(&mut stream);
                assert_eq!(read, Ok(frame));
                assert!(stream.cursor_at_end());
            }
        }
    }
}

#[test]
fn frame_without_a_needed_index_is_refused() {
    let mut frame = Frame::new();
    frame.payload = vec![1];
    let mut stream = BinaryStream::new(Some(vec![7]), None);
    assert_eq!(frame.write(&mut stream), Err(PacketError::SerializationError));
    assert_eq!(stream.binary, vec![7]);
    assert!(!frame.is_encodable());
    let long = frame_with(Reliability::Unreliable, false, vec![0; 8192]);
    assert_eq!(long.write(&mut stream), Err(PacketError::SerializationError));
    let longest = frame_with(Reliability::Unreliable, false, vec![0; 8191]);
    assert_eq!(longest.write(&mut stream), Ok(()));
    assert_eq!(&stream.binary[..4], &[7, 0, 0xFF, 0xF8]);
}

#[test]
fn frame_read_failures_keep_the_cursor() {
    let mut short = BinaryStream::new(Some(vec![0x60, 0, 8, 1, 0]), None);
    assert_eq!(
        Frame::read(&mut short),
        Err(PacketError::BinaryStreamError(BinaryStreamError::OutOfBounds))
    );
    assert_eq!(short.get_offset(), 0);
    let mut cut = BinaryStream::new(Some(vec![0x00, 0, 16, 1]), None);
    assert_eq!(
        Frame::read(&mut cut),
        Err(PacketError::BinaryStreamError(BinaryStreamError::InvalidLength))
    );
    assert_eq!(cut.get_offset(), 0);
    let mut channel = BinaryStream::new(Some(vec![0x60, 0, 0, 1, 0, 0, 2, 0, 0, 64]), None);
    assert_eq!(Frame::read(&mut channel), Err(PacketError::InvalidPacket));
    assert_eq!(channel.get_offset(), 0);
    let mut split = BinaryStream::new(Some(vec![0x10, 0, 0, 0, 0, 0, 2, 0, 1, 0, 0, 0, 2]), None);
    assert_eq!(Frame::read(&mut split), Err(PacketError::InvalidPacket));
    let mut empty = BinaryStream::new(Some(vec![]), None);
    assert_eq!(
        Frame::read(&mut empty),
        Err(PacketError::BinaryStreamError(BinaryStreamError::OutOfBounds))
    );
}

#[test]
fn frame_length_is_the_bit_length_rounded_up() {
    let mut stream = BinaryStream::new(Some(vec![0x00, 0, 9, 0xAB, 0xCD]), None);
    let frame = Frame::read(&mut stream).unwrap();
    assert_eq!(frame.payload, vec![0xAB, 0xCD]);
    assert_eq!(frame.reliability, Reliability::Unreliable);
}

#[test]
fn frame_copies_compare_equal() {
    let frame = frame_with(Reliability::ReliableSequenced, true, vec![1, 2, 3]);
    let copy = frame.clone();
    assert!(frame.same_as(&copy));
    assert_eq!(frame, copy);
    let mut other = frame.clone();
    other.payload[2] = 4;
    assert!(!frame.same_as(&other));
    let mut shifted = frame.clone();
    shifted.split_id = Some(1);
    assert!(!frame.same_as(&shifted));
}

#[test]
fn frame_set_wire_form() {
    let mut frame = Frame::new();
    frame.payload = vec![0xFE];
    frame.reliable_frame_index = Some(1);
    frame.ordered_frame_index = Some(2);
    let set = FrameSet::new(0x030201, vec![frame]);
    assert_eq!(
        set.serialize(),
        Ok(vec![0x80, 1, 2, 3, 0x60, 0, 8, 1, 0, 0, 2, 0, 0, 0, 0xFE])
    );
}

#[test]
fn frame_set_round_trip_under_every_leading_byte() {
    let frames = vec![
        frame_with(Reliability::Unreliable, false, vec![]),
        frame_with(Reliability::ReliableOrdered, true, vec![1, 2, 3]),
        frame_with(Reliability::UnreliableSequenced, false, vec![4]),
    ];
    let set = FrameSet::new(0xFF_FFFF, frames);
    let bytes = set.serialize().unwrap();
    assert_eq!(&bytes[..4], &[0x80, 0xFF, 0xFF, 0xFF]);
    for low in 0u8..16 {
        let mut datagram = bytes.clone();
        datagram[0] = 0x80 | low;
        let read = FrameSet::deserialize(&datagram).unwrap();
        assert_eq!(read.sequence, 0xFF_FFFF);
        assert_eq!(read.frames, set.frames);
        assert!(read.is_well_formed());
    }
}

#[test]
fn frame_set_keeps_frames_after_an_empty_payload() {
    let frames = vec![
        frame_with(Reliability::Unreliable, false, vec![]),
        frame_with(Reliability::Unreliable, false, vec![5]),
    ];
    let bytes = FrameSet::new(1, frames).serialize().unwrap();
    let read = FrameSet::deserialize(&bytes).unwrap();
    assert_eq!(read.frames.len(), 2);
    assert_eq!(read.frames[1].payload, vec![5]);
}

#[test]
fn frame_set_failures() {
    assert_eq!(
        FrameSet::deserialize(&[]).unwrap_err(),
        PacketError::BinaryStreamError(BinaryStreamError::OutOfBounds)
    );
    assert_eq!(FrameSet::deserialize(&[0x90, 0, 0, 0]).unwrap_err(), PacketError::InvalidPacket);
    assert_eq!(FrameSet::deserialize(&[0x7F, 0, 0, 0]).unwrap_err(), PacketError::InvalidPacket);
    assert_eq!(
        FrameSet::deserialize(&[0x84, 0, 0]).unwrap_err(),
        PacketError::BinaryStreamError(BinaryStreamError::OutOfBounds)
    );
    assert_eq!(
        FrameSet::deserialize(&[0x84, 0, 0, 0, 0x00, 0, 8]).unwrap_err(),
        PacketError::BinaryStreamError(BinaryStreamError::InvalidLength)
    );
    let empty = FrameSet::deserialize(&[0x84, 9, 0, 0]).unwrap();
    assert_eq!(empty.sequence, 9);
    assert!(empty.frames.is_empty());
    let unsendable = FrameSet::new(0, vec![Frame::new()]);
    assert_eq!(unsendable.serialize(), Err(PacketError::SerializationError));
    assert!(!FrameSet::new(0x100_0000, vec![]).is_well_formed());
}
