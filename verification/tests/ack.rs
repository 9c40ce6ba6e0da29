use raknet::ack::{sorted_distinct, Ack, Nack};
use raknet::binary_stream::BinaryStreamError;
use raknet::packet::PacketError;

#[test]
fn ack_encodes_runs_and_singles_in_order() {
    let ack = Ack::new(vec![1, 2, 3, 5, 8, 9]);
    assert_eq!(
        ack.serialize(),
        Ok(vec![0xC0, 0, 3, 0, 1, 0, 0, 3, 0, 0, 1, 5, 0, 0, 0, 8, 0, 0, 9, 0, 0])
    );
}

#[test]
fn nack_has_its_own_leading_byte() {
    let nack = Nack::new(vec![2]);
    assert_eq!(nack.serialize(), Ok(vec![0xA0, 0, 1, 1, 2, 0, 0]));
    assert_eq!(Nack::deserialize(&[0xA0, 0, 1, 1, 2, 0, 0]).unwrap().sequences, vec![2]);
    assert_eq!(Nack::deserialize(&[0xC0, 0, 1, 1, 2, 0, 0]).unwrap_err(), PacketError::InvalidPacket);
    assert_eq!(Ack::deserialize(&[0xA0, 0, 0]).unwrap_err(), PacketError::InvalidPacket);
}

#[test]
fn empty_ack_is_just_the_zero_count() {
    assert_eq!(Ack::new(vec![]).serialize(), Ok(vec![0xC0, 0, 0]));
    assert_eq!(Ack::deserialize(&[0xC0, 0, 0]).unwrap().sequences, Vec::<u32>::new());
}

#[test]
fn ack_round_trip_gives_the_sorted_list() {
    let lists: Vec<Vec<u32>> = vec![
        vec![9, 1, 5, 3, 2, 8],
        vec![0],
        vec![0xFF_FFFF, 0, 0xFF_FFFE],
        vec![10, 11, 12, 13, 14],
        vec![7, 5, 3, 1],
        vec![4, 4, 5, 5, 6],
    ];
    for list in lists {
        let mut sorted = list.clone();
        sorted.sort();
        sorted.dedup();
        let bytes = Ack::new(list.clone()).serialize().unwrap();
        assert_eq!(Ack::deserialize(&bytes).unwrap().sequences, sorted);
        assert_eq!(sorted_distinct(&list), sorted);
        let bytes = Nack::new(list).serialize().unwrap();
        assert_eq!(Nack::deserialize(&bytes).unwrap().sequences, sorted);
    }
}

#[test]
fn ack_with_a_number_over_24_bits_is_refused() {
    assert_eq!(Ack::new(vec![1, 0x100_0000]).serialize(), Err(PacketError::SerializationError));
    assert_eq!(Nack::new(vec![u32::MAX]).serialize(), Err(PacketError::SerializationError));
}

#[test]
fn ack_with_too_many_records_is_refused() {
    let spread: Vec<u32> = (0..0x1_0000u32).map(|i| i * 2).collect();
    assert_eq!(Ack::new(spread).serialize(), Err(PacketError::SerializationError));
    let most: Vec<u32> = (0..0xFFFFu32).map(|i| i * 2).collect();
    let bytes = Ack::new(most.clone()).serialize().unwrap();
    assert_eq!(&bytes[..3], &[0xC0, 0xFF, 0xFF]);
    assert_eq!(Ack::deserialize(&bytes).unwrap().sequences, most);
}

#[test]
fn ack_read_failures() {
    assert_eq!(
        Ack::deserialize(&[]).unwrap_err(),
        PacketError::BinaryStreamError(BinaryStreamError::OutOfBounds)
    );
    assert_eq!(
        Ack::deserialize(&[0xC0, 0]).unwrap_err(),
        PacketError::BinaryStreamError(BinaryStreamError::OutOfBounds)
    );
    assert_eq!(
        Ack::deserialize(&[0xC0, 0, 2, 1, 5, 0, 0]).unwrap_err(),
        PacketError::BinaryStreamError(BinaryStreamError::OutOfBounds)
    );
    assert_eq!(
        Ack::deserialize(&[0xC0, 0, 1, 0, 5, 0, 0, 6, 0]).unwrap_err(),
        PacketError::BinaryStreamError(BinaryStreamError::OutOfBounds)
    );
}

#[test]
fn ack_reads_records_as_they_come() {
    let ack = Ack::deserialize(&[0xC0, 0, 3, 1, 9, 0, 0, 0, 2, 0, 0, 4, 0, 0, 0, 7, 0, 0, 6, 0, 0])
        .unwrap();
    assert_eq!(ack.sequences, vec![9, 2, 3, 4]);
}
