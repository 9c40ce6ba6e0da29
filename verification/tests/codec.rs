use raknet::binary_stream::{BinaryStream, BinaryStreamError};
use raknet::endian::Endianness;
use raknet::reliability::Reliability;

const ORDERS: [Endianness; 2] = [Endianness::Big, Endianness::Little];

#[test]
fn reliability_flags_follow_the_wire_value() {
    let reliable = [2u8, 3, 4, 6, 7];
    let ordered = [3u8, 7];
    let sequenced = [1u8, 4];
    for value in 0u8..8 {
        let mode = Reliability::from_u8(value);
        assert_eq!(mode.to_u8(), value);
        assert_eq!(mode.is_reliable(), reliable.contains(&value));
        assert_eq!(mode.is_ordered(), ordered.contains(&value));
        assert_eq!(mode.is_sequenced(), sequenced.contains(&value));
    }
    assert_eq!(Reliability::from_u8(9), Reliability::Unreliable);
}

#[test]
fn new_stream_takes_buffer_and_offset() {
    let stream = BinaryStream::new(Some(vec![1, 2, 3]), Some(2));
    assert_eq!(stream.binary, vec![1, 2, 3]);
    assert_eq!(stream.get_offset(), 2);
    let empty = BinaryStream::new(None, None);
    assert!(empty.binary.is_empty());
    assert!(empty.cursor_at_start());
    assert!(empty.cursor_at_end());
    let from = BinaryStream::from(vec![9], None);
    assert_eq!(from.get_binary(), vec![9]);
    assert_eq!(from.get_offset(), 0);
}

#[test]
fn u16_bytes_in_both_orders() {
    let mut stream = BinaryStream::new(None, None);
    stream.write_u16(0x1234, Endianness::Big);
    stream.write_u16(0x1234, Endianness::Little);
    assert_eq!(stream.binary, vec![0x12, 0x34, 0x34, 0x12]);
    assert_eq!(stream.read_u16(Endianness::Big), Ok(0x1234));
    assert_eq!(stream.read_u16(Endianness::Little), Ok(0x1234));
    assert!(stream.cursor_at_end());
}

#[test]
fn u24_takes_three_bytes_and_reads_zero_extended() {
    let mut stream = BinaryStream::new(None, None);
    stream.write_u24(0x010203, Endianness::Little);
    stream.write_u24(0x010203, Endianness::Big);
    stream.write_u24(0xAB010203, Endianness::Big);
    assert_eq!(stream.binary, vec![3, 2, 1, 1, 2, 3, 1, 2, 3]);
    assert_eq!(stream.read_u24(Endianness::Little), Ok(0x010203));
    assert_eq!(stream.read_u24(Endianness::Big), Ok(0x010203));
    assert_eq!(stream.read_u24(Endianness::Big), Ok(0x010203));
}

#[test]
fn u32_and_u64_bytes_in_both_orders() {
    let mut stream = BinaryStream::new(None, None);
    stream.write_u32(0x01020304, Endianness::Big);
    stream.write_u32(0x01020304, Endianness::Little);
    stream.write_u64(0x0102030405060708, Endianness::Big);
    stream.write_u64(0x0102030405060708, Endianness::Little);
    assert_eq!(
        stream.binary,
        vec![1, 2, 3, 4, 4, 3, 2, 1, 1, 2, 3, 4, 5, 6, 7, 8, 8, 7, 6, 5, 4, 3, 2, 1]
    );
}

#[test]
fn unsigned_round_trip_at_the_bounds() {
    for order in ORDERS {
        for value in [0u8, 1, u8::MAX - 1, u8::MAX] {
            let mut stream = BinaryStream::new(None, None);
            stream.write_u8(value);
            stream.write_byte(value);
            assert_eq!(stream.read_u8(), Ok(value));
            assert_eq!(stream.read_byte(), Ok(value));
        }
        for value in [0u16, 1, u16::MAX - 1, u16::MAX] {
            let mut stream = BinaryStream::new(None, None);
            stream.write_u16(value, order);
            stream.write_short(value, order);
            assert_eq!(stream.binary.len(), 4);
            assert_eq!(stream.read_u16(order), Ok(value));
            assert_eq!(stream.read_short(order), Ok(value));
        }
        for value in [0u32, 1, 0xFF_FFFE, 0xFF_FFFF] {
            let mut stream = BinaryStream::new(None, None);
            stream.write_u24(value, order);
            assert_eq!(stream.binary.len(), 3);
            assert_eq!(stream.read_u24(order), Ok(value));
        }
        for value in [0u32, 1, u32::MAX - 1, u32::MAX] {
            let mut stream = BinaryStream::new(None, None);
            stream.write_u32(value, order);
            assert_eq!(stream.binary.len(), 4);
            assert_eq!(stream.read_u32(order), Ok(value));
        }
        for value in [0u64, 1, u64::MAX - 1, u64::MAX] {
            let mut stream = BinaryStream::new(None, None);
            stream.write_u64(value, order);
            assert_eq!(stream.binary.len(), 8);
            assert_eq!(stream.read_u64(order), Ok(value));
        }
    }
}

#[test]
fn signed_round_trip_at_the_bounds() {
    for order in ORDERS {
        for value in [i8::MIN, -1, 0, 1, i8::MAX - 1, i8::MAX] {
            let mut stream = BinaryStream::new(None, None);
            stream.write_i8(value);
            assert_eq!(stream.binary, vec![value as u8]);
            assert_eq!(stream.read_i8(), Ok(value));
        }
        for value in [i16::MIN, -1, 0, 1, i16::MAX - 1, i16::MAX] {
            let mut stream = BinaryStream::new(None, None);
            stream.write_i16(value, order);
            assert_eq!(stream.read_i16(order), Ok(value));
        }
        for value in [i32::MIN, -1, 0, 1, i32::MAX - 1, i32::MAX] {
            let mut stream = BinaryStream::new(None, None);
            stream.write_i32(value, order);
            assert_eq!(stream.read_i32(order), Ok(value));
        }
        for value in [i64::MIN, -1, 0, 1, i64::MAX - 1, i64::MAX] {
            let mut stream = BinaryStream::new(None, None);
            stream.write_i64(value, order);
            stream.write_long(value, order);
            assert_eq!(stream.read_i64(order), Ok(value));
            assert_eq!(stream.read_long(order), Ok(value));
        }
        for value in [0i32, 1, 0xFF_FFFE, 0xFF_FFFF] {
            let mut stream = BinaryStream::new(None, None);
            stream.write_i24(value, order);
            assert_eq!(stream.read_i24(order), Ok(value));
        }
    }
}

#[test]
fn signed_bytes_are_twos_complement() {
    let mut stream = BinaryStream::new(None, None);
    stream.write_i64(-1, Endianness::Big);
    stream.write_i16(-2, Endianness::Big);
    stream.write_i32(i32::MIN, Endianness::Little);
    assert_eq!(
        stream.binary,
        vec![0xFF, 0xFF, 0xFF, 0xFF, 0xFF, 0xFF, 0xFF, 0xFF, 0xFF, 0xFE, 0, 0, 0, 0x80]
    );
}

#[test]
fn negative_i24_reads_back_zero_extended() {
    let mut stream = BinaryStream::new(None, None);
    stream.write_i24(-1, Endianness::Big);
    assert_eq!(stream.binary, vec![0xFF, 0xFF, 0xFF]);
    assert_eq!(stream.read_i24(Endianness::Big), Ok(0xFF_FFFF));
}

#[test]
fn bool_is_one_byte_and_nonzero_is_true() {
    let mut stream = BinaryStream::new(Some(vec![0, 1, 7]), None);
    assert_eq!(stream.read_bool(), Ok(false));
    assert_eq!(stream.read_bool(), Ok(true));
    assert_eq!(stream.read_bool(), Ok(true));
    stream.write_bool(true);
    stream.write_bool(false);
    assert_eq!(stream.binary, vec![0, 1, 7, 1, 0]);
}

#[test]
fn read_over_the_end_fails_and_keeps_the_cursor() {
    let mut stream = BinaryStream::new(Some(vec![1, 2, 3]), Some(1));
    assert_eq!(stream.read_u32(Endianness::Big), Err(BinaryStreamError::OutOfBounds));
    assert_eq!(stream.get_offset(), 1);
    assert_eq!(stream.read_u24(Endianness::Big), Err(BinaryStreamError::OutOfBounds));
    assert_eq!(stream.read(3), Err(BinaryStreamError::OutOfBounds));
    assert_eq!(stream.read_bytes(2), Ok(vec![2, 3]));
    assert_eq!(stream.get_offset(), 3);
    assert_eq!(stream.read_u8(), Err(BinaryStreamError::OutOfBounds));
    assert_eq!(stream.read_bool(), Err(BinaryStreamError::OutOfBounds));
    assert_eq!(stream.read_u64(Endianness::Little), Err(BinaryStreamError::OutOfBounds));
}

#[test]
fn cursor_past_the_end_reads_nothing() {
    let mut stream = BinaryStream::new(Some(vec![1, 2]), Some(5));
    assert_eq!(stream.read(0), Err(BinaryStreamError::OutOfBounds));
    assert_eq!(stream.read_remaining(), Vec::<u8>::new());
    assert_eq!(stream.get_offset(), 5);
}

#[test]
fn skip_and_set_offset_move_the_cursor() {
    let mut stream = BinaryStream::new(Some(vec![1, 2, 3, 4]), None);
    stream.skip(1);
    assert_eq!(stream.read_u8(), Ok(2));
    stream.set_offset(3);
    assert_eq!(stream.read_remaining(), vec![4]);
    assert!(stream.cursor_at_end());
    stream.set_binary(vec![7, 8, 9, 10, 11]);
    assert_eq!(stream.get_offset(), 4);
    stream.set_offset(3);
    assert_eq!(stream.read_u16(Endianness::Big), Ok(0x0A0B));
}

#[test]
fn writes_append_and_leave_the_cursor() {
    let mut stream = BinaryStream::new(Some(vec![1]), None);
    stream.write(vec![2, 3]);
    stream.write_bytes(vec![4]);
    stream.write_magic(vec![5, 6]);
    assert_eq!(stream.binary, vec![1, 2, 3, 4, 5, 6]);
    assert_eq!(stream.get_offset(), 0);
}

#[test]
fn magic_is_sixteen_bytes() {
    let mut stream = BinaryStream::new(Some((0u8..20).collect()), Some(2));
    assert_eq!(stream.read_magic(), Ok((2u8..18).collect::<Vec<u8>>()));
    assert_eq!(stream.read_magic(), Err(BinaryStreamError::OutOfBounds));
    assert_eq!(stream.get_offset(), 18);
}

#[test]
fn string16_round_trip() {
    for order in ORDERS {
        let mut stream = BinaryStream::new(None, None);
        stream.write_string16("MCPE;héllo", order);
        stream.write_string16("", order);
        assert_eq!(stream.binary.len(), 2 + 11 + 2);
        assert_eq!(stream.read_string16(order), Ok("MCPE;héllo".to_string()));
        assert_eq!(stream.read_string16(order), Ok(String::new()));
        assert!(stream.cursor_at_end());
    }
    let mut stream = BinaryStream::new(None, None);
    stream.write_string16("ab", Endianness::Big);
    assert_eq!(stream.binary, vec![0, 2, b'a', b'b']);
}

#[test]
fn string16_failures_keep_the_cursor() {
    let mut short = BinaryStream::new(Some(vec![0]), None);
    assert_eq!(short.read_string16(Endianness::Big), Err(BinaryStreamError::OutOfBounds));
    assert_eq!(short.get_offset(), 0);
    let mut cut = BinaryStream::new(Some(vec![0, 3, b'a', b'b']), None);
    assert_eq!(cut.read_string16(Endianness::Big), Err(BinaryStreamError::InvalidLength));
    assert_eq!(cut.get_offset(), 0);
    let mut bad = BinaryStream::new(Some(vec![0, 2, 0xFF, 0xFE]), None);
    assert_eq!(bad.read_string16(Endianness::Big), Err(BinaryStreamError::InvalidUtf8));
    assert_eq!(bad.get_offset(), 0);
}
