use raknet::address::Address;
use raknet::binary_stream::{BinaryStream, BinaryStreamError};
use raknet::packet::PacketError;

fn written(address: &Address) -> Vec<u8> {
    let mut stream = BinaryStream::new(None, None);
    address.write(&mut stream).unwrap();
    stream.binary
}

#[test]
fn ipv4_address_round_trip() {
    let address = Address::new(4, "192.168.0.1".to_string(), 19132);
    let bytes = written(&address);
    assert_eq!(bytes, vec![4, 0x3F, 0x57, 0xFF, 0xFE, 0x4A, 0xBC]);
    let mut stream = BinaryStream::new(Some(bytes), None);
    assert_eq!(Address::read(&mut stream), Ok(address));
    assert!(stream.cursor_at_end());
}

#[test]
fn ipv4_addresses_at_the_bounds() {
    for (text, port) in [("0.0.0.0", 0u16), ("255.255.255.255", 65535), ("127.0.0.1", 1), ("10.20.30.40", 80)] {
        let address = Address::new(4, text.to_string(), port);
        assert!(address.is_encodable());
        let mut stream = BinaryStream::new(Some(written(&address)), None);
        let read = Address::read(&mut stream).unwrap();
        assert_eq!(read.address, text);
        assert_eq!(read.port, port);
        assert_eq!(read.version, 4);
    }
}

#[test]
fn ipv4_text_with_leading_zeros_reads_back_without() {
    let address = Address::new(4, "010.001.000.09".to_string(), 7);
    let mut stream = BinaryStream::new(Some(written(&address)), None);
    assert_eq!(Address::read(&mut stream).unwrap().address, "10.1.0.9");
}

#[test]
fn default_address_is_all_zeros() {
    let address = Address::default();
    assert_eq!(address, Address::new(4, "0.0.0.0".to_string(), 0));
    assert_eq!(written(&address), vec![4, 255, 255, 255, 255, 0, 0]);
}

#[test]
fn text_that_is_no_ipv4_address_is_refused() {
    for text in [
        "", "1.2.3", "1.2.3.4.5", "256.1.1.1", "1.2.3.", ".1.2.3", "1..2.3", "a.b.c.d", "1.2.3.4 ",
        "1234.1.1.1", "+1.2.3.4", "1.2.3.-4", "localhost", "1,2,3,4", "１.2.3.4",
    ] {
        let address = Address::new(4, text.to_string(), 1);
        assert!(!address.is_encodable(), "{}", text);
        let mut stream = BinaryStream::new(Some(vec![9]), None);
        assert_eq!(address.write(&mut stream), Err(PacketError::SerializationError));
        assert_eq!(stream.binary, vec![9]);
    }
}

#[test]
fn ipv6_address_round_trip() {
    let address = Address::new(6, "fe80:0:0:0:1:2:abcd:ffff".to_string(), 19133);
    let bytes = written(&address);
    assert_eq!(
        bytes,
        vec![
            6, 0, 23, 0x4A, 0xBD, 0, 0, 0, 0, 0x01, 0x7F, 0xFF, 0xFF, 0xFF, 0xFF, 0xFF, 0xFF, 0xFF,
            0xFE, 0xFF, 0xFD, 0x54, 0x32, 0x00, 0x00, 0, 0, 0, 0
        ]
    );
    let mut stream = BinaryStream::new(Some(bytes), None);
    assert_eq!(Address::read(&mut stream), Ok(address));
    assert!(stream.cursor_at_end());
}

#[test]
fn ipv6_text_reads_back_in_lower_case_without_leading_zeros() {
    let address = Address::new(6, "00FE:0A:0:0:0:0:0:0001".to_string(), 1);
    let mut stream = BinaryStream::new(Some(written(&address)), None);
    assert_eq!(Address::read(&mut stream).unwrap().address, "fe:a:0:0:0:0:0:1");
}

#[test]
fn text_that_is_no_ipv6_address_is_refused() {
    for text in ["", "::1", "1:2:3:4:5:6:7", "1:2:3:4:5:6:7:8:9", "1:2:3:4:5:6:7:10000", "g:0:0:0:0:0:0:0", "1.2.3.4"] {
        let address = Address::new(6, text.to_string(), 1);
        assert!(!address.is_encodable(), "{}", text);
        let mut stream = BinaryStream::new(None, None);
        assert_eq!(address.write(&mut stream), Err(PacketError::SerializationError));
        assert!(stream.binary.is_empty());
    }
}

#[test]
fn address_of_another_version_is_its_version_byte() {
    let address = Address::new(9, "whatever".to_string(), 5);
    assert_eq!(written(&address), vec![9]);
    let mut stream = BinaryStream::new(Some(vec![9, 1, 2]), None);
    assert_eq!(Address::read(&mut stream), Ok(Address::new(9, String::new(), 0)));
    assert_eq!(stream.get_offset(), 1);
}

#[test]
fn short_address_fails_and_keeps_the_cursor() {
    let mut empty = BinaryStream::new(Some(vec![1]), Some(1));
    assert_eq!(Address::read(&mut empty), Err(BinaryStreamError::OutOfBounds));
    let mut four = BinaryStream::new(Some(vec![0, 4, 1, 2, 3, 4, 5]), Some(1));
    assert_eq!(Address::read(&mut four), Err(BinaryStreamError::OutOfBounds));
    assert_eq!(four.get_offset(), 1);
    let mut six = BinaryStream::new(Some(vec![6; 28]), None);
    assert_eq!(Address::read(&mut six), Err(BinaryStreamError::OutOfBounds));
    assert_eq!(six.get_offset(), 0);
}

#[test]
fn address_copy_is_equal() {
    let address = Address::new(4, "1.2.3.4".to_string(), 5);
    assert_eq!(address.clone(), address);
}
