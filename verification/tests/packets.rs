use raknet::address::Address;
use raknet::binary_stream::BinaryStreamError;
use raknet::packet::{magic_vec, PacketError, PacketType, MAGIC};
use raknet::proto::connected_ping::ConnectedPing;
use raknet::proto::connected_pong::ConnectedPong;
use raknet::proto::connection_reply_one::ConnectionReplyOne;
use raknet::proto::connection_reply_two::ConnectionReplyTwo;
use raknet::proto::connection_request::ConnectionRequest;
use raknet::proto::connection_request_accepted::ConnectionRequestAccepted;
use raknet::proto::connection_request_one::ConnectionRequestOne;
use raknet::proto::connection_request_two::ConnectionRequestTwo;
use raknet::proto::new_incomming_connection::NewIncommingConnection;
use raknet::proto::unconnected_ping::UnconnectedPing;
use raknet::proto::unconnected_pong::UnconnectedPong;

const OUT_OF_BOUNDS: PacketError = PacketError::BinaryStreamError(BinaryStreamError::OutOfBounds);

fn addresses(count: usize) -> Vec<Address> {
    (0..count).map(|i| Address::new(4, format!("10.0.0.{}", i), 1000 + i as u16)).collect()
}

#[test]
fn magic_is_the_offline_marker() {
    assert_eq!(
        MAGIC,
        [0x00, 0xFF, 0xFF, 0x00, 0xFE, 0xFE, 0xFE, 0xFE, 0xFD, 0xFD, 0xFD, 0xFD, 0x12, 0x34, 0x56, 0x78]
    );
    assert_eq!(magic_vec(), MAGIC.to_vec());
}

#[test]
fn packet_type_table() {
    let table = [
        (0x00u8, PacketType::ConnectedPing),
        (0x01, PacketType::UnconnectedPing),
        (0x03, PacketType::ConnectedPong),
        (0x05, PacketType::OpenConnectionRequestOne),
        (0x06, PacketType::OpenConnectionReplyOne),
        (0x07, PacketType::OpenConnectionRequestTwo),
        (0x08, PacketType::OpenConnectionReplyTwo),
        (0x09, PacketType::ConnectionRequest),
        (0x10, PacketType::ConnectionRequestAccepted),
        (0x13, PacketType::NewIncomingConnection),
        (0x1C, PacketType::UnconnectedPong),
        (0x80, PacketType::FrameSet),
        (0xA0, PacketType::Nack),
        (0xC0, PacketType::Ack),
    ];
    for (id, kind) in table {
        assert_eq!(PacketType::from(id), kind);
        assert_eq!(PacketType::from_u8(id), kind);
        assert_eq!(kind.to_u8(), id);
    }
    for id in 0x80u8..=0x8F {
        assert_eq!(PacketType::from_u8(id), PacketType::FrameSet);
    }
    assert_eq!(PacketType::from_u8(0xFE), PacketType::Unknown(0xFE));
    assert_eq!(PacketType::Unknown(0x15).to_u8(), 0x15);
    assert_eq!(PacketType::from_u8(0x90), PacketType::Unknown(0x90));
}

#[test]
fn packet_error_wraps_codec_error() {
    assert_eq!(PacketError::from(BinaryStreamError::InvalidLength), PacketError::BinaryStreamError(BinaryStreamError::InvalidLength));
}

#[test]
fn connected_ping_round_trip() {
    let ping = ConnectedPing { timestamp: 0x0102030405060708 };
    let bytes = ping.serialize();
    assert_eq!(bytes, vec![0x00, 1, 2, 3, 4, 5, 6, 7, 8]);
    assert_eq!(ConnectedPing::deserialize(&bytes), Ok(ping));
    assert_eq!(ConnectedPing::deserialize(&bytes[..8]), Err(OUT_OF_BOUNDS));
    assert_eq!(ConnectedPing::deserialize(&[3, 0, 0, 0, 0, 0, 0, 0, 0]), Err(PacketError::InvalidPacket));
    assert_eq!(ConnectedPing::deserialize(&[]), Err(OUT_OF_BOUNDS));
}

#[test]
fn connected_pong_round_trip() {
    let pong = ConnectedPong::new(-1, i64::MIN);
    let bytes = pong.serialize();
    assert_eq!(bytes.len(), 17);
    assert_eq!(bytes[0], 0x03);
    assert_eq!(&bytes[1..9], &[0xFF; 8]);
    assert_eq!(&bytes[9..], &[0x80, 0, 0, 0, 0, 0, 0, 0]);
    assert_eq!(ConnectedPong::deserialize(&bytes), Ok(pong));
    assert_eq!(ConnectedPong::deserialize(&bytes[..16]), Err(OUT_OF_BOUNDS));
}

#[test]
fn connection_request_round_trip() {
    let request = ConnectionRequest::new(4124124124124, 1700000000, false);
    let bytes = request.serialize();
    assert_eq!(bytes.len(), 18);
    assert_eq!(bytes[0], 0x09);
    assert_eq!(bytes[17], 0);
    assert_eq!(ConnectionRequest::deserialize(&bytes), Ok(request));
    let secure = ConnectionRequest::new(1, 2, true);
    assert_eq!(ConnectionRequest::deserialize(&secure.serialize()), Ok(secure));
    assert_eq!(ConnectionRequest::deserialize(&bytes[..17]), Err(OUT_OF_BOUNDS));
}

#[test]
fn unconnected_ping_round_trip() {
    let ping = UnconnectedPing::new(5, -7);
    let bytes = ping.serialize();
    assert_eq!(bytes.len(), 33);
    assert_eq!(bytes[0], 0x01);
    assert_eq!(&bytes[1..17], &MAGIC);
    assert_eq!(&bytes[17..25], &[0, 0, 0, 0, 0, 0, 0, 5]);
    assert_eq!(&bytes[25..], &[0xFF, 0xFF, 0xFF, 0xFF, 0xFF, 0xFF, 0xFF, 0xF9]);
    assert_eq!(UnconnectedPing::deserialize(&bytes), Ok(ping));
    let mut wrong = bytes.clone();
    wrong[9] = 1;
    assert_eq!(UnconnectedPing::deserialize(&wrong), Err(PacketError::InvalidPacket));
    assert_eq!(UnconnectedPing::deserialize(&bytes[..32]), Err(OUT_OF_BOUNDS));
}

#[test]
fn unconnected_pong_round_trip() {
    let pong = UnconnectedPong::new(9, u64::MAX, "MCPE;Dedicated Server;".to_string());
    let bytes = pong.serialize().unwrap();
    assert_eq!(bytes[0], 0x1C);
    assert_eq!(&bytes[1..17], &MAGIC);
    assert_eq!(&bytes[17..25], &[0, 0, 0, 0, 0, 0, 0, 9]);
    assert_eq!(&bytes[25..33], &[0xFF; 8]);
    assert_eq!(&bytes[33..35], &[0, 22]);
    let read = UnconnectedPong::deserialize(&bytes).unwrap();
    assert_eq!(read.timestamp, 9);
    assert_eq!(read.guid, u64::MAX);
    assert_eq!(read.message, "MCPE;Dedicated Server;");
    assert_eq!(
        UnconnectedPong::deserialize(&bytes[..40]).unwrap_err(),
        PacketError::BinaryStreamError(BinaryStreamError::InvalidLength)
    );
    let mut bad = bytes.clone();
    bad[35] = 0xFF;
    assert_eq!(
        UnconnectedPong::deserialize(&bad).unwrap_err(),
        PacketError::BinaryStreamError(BinaryStreamError::InvalidUtf8)
    );
    let long = UnconnectedPong::new(0, 0, "x".repeat(65536));
    assert_eq!(long.serialize(), Err(PacketError::SerializationError));
}

#[test]
fn connection_request_one_is_padded_to_the_mtu() {
    for mtu in [1492u16, 1200, 576, 46] {
        let request = ConnectionRequestOne::new(11, mtu);
        let bytes = request.serialize().unwrap();
        assert_eq!(bytes.len(), mtu as usize - 28);
        assert_eq!(bytes[0], 0x05);
        assert_eq!(&bytes[1..17], &MAGIC);
        assert_eq!(bytes[17], 11);
        assert!(bytes[18..].iter().all(|b| *b == 0));
        if bytes.len() >= 19 {
            assert_eq!(ConnectionRequestOne::deserialize(&bytes), Ok(request));
        }
    }
    assert_eq!(ConnectionRequestOne::new(11, 45).serialize(), Err(PacketError::SerializationError));
}

#[test]
fn connection_request_one_is_held_to_its_head() {
    let bytes = ConnectionRequestOne::new(11, 100).serialize().unwrap();
    assert_eq!(ConnectionRequestOne::deserialize(&bytes[..18]), Err(PacketError::InvalidPacket));
    let mut id = bytes.clone();
    id[0] = 6;
    assert_eq!(ConnectionRequestOne::deserialize(&id), Err(PacketError::InvalidPacket));
    let mut magic = bytes.clone();
    magic[16] = 0;
    assert_eq!(ConnectionRequestOne::deserialize(&magic), Err(PacketError::InvalidPacket));
    assert_eq!(ConnectionRequestOne::deserialize(&vec![0; 70000]), Err(PacketError::InvalidPacket));
}

#[test]
fn connection_reply_one_round_trip() {
    let plain = ConnectionReplyOne { guid: 77, security: false, cookie: None, mtu_size: 1400 };
    let bytes = plain.serialize().unwrap();
    assert_eq!(bytes.len(), 28);
    assert_eq!(bytes[0], 0x06);
    assert_eq!(&bytes[26..], &[0x05, 0x78]);
    assert_eq!(ConnectionReplyOne::deserialize(&bytes), Ok(plain));
    let secure = ConnectionReplyOne { guid: -1, security: true, cookie: Some(0xDEADBEEF), mtu_size: 576 };
    let bytes = secure.serialize().unwrap();
    assert_eq!(bytes.len(), 32);
    assert_eq!(&bytes[26..30], &[0xDE, 0xAD, 0xBE, 0xEF]);
    assert_eq!(ConnectionReplyOne::deserialize(&bytes), Ok(secure));
    assert_eq!(ConnectionReplyOne::deserialize(&bytes[..31]), Err(OUT_OF_BOUNDS));
    let odd = ConnectionReplyOne { guid: 0, security: true, cookie: None, mtu_size: 1 };
    assert_eq!(odd.serialize(), Err(PacketError::SerializationError));
    let odd = ConnectionReplyOne { guid: 0, security: false, cookie: Some(1), mtu_size: 1 };
    assert_eq!(odd.serialize(), Err(PacketError::SerializationError));
}

#[test]
fn connection_request_two_round_trip() {
    let request = ConnectionRequestTwo::new(Address::new(4, "135.148.137.229".to_string(), 19132), 1400, 99);
    let bytes = request.serialize().unwrap();
    assert_eq!(bytes.len(), 1 + 16 + 7 + 2 + 8);
    assert_eq!(bytes[0], 0x07);
    let read = ConnectionRequestTwo::deserialize(&bytes).unwrap();
    assert_eq!(read.address, request.address);
    assert_eq!(read.mtu_size, 1400);
    assert_eq!(read.guid, 99);
    let unnamed = ConnectionRequestTwo::new(Address::new(4, "example.org".to_string(), 1), 1400, 99);
    assert_eq!(unnamed.serialize().unwrap_err(), PacketError::SerializationError);
    assert_eq!(ConnectionRequestTwo::deserialize(&bytes[..30]).unwrap_err(), OUT_OF_BOUNDS);
}

#[test]
fn connection_reply_two_round_trip() {
    let reply = ConnectionReplyTwo::new(-5, Address::new(6, "1:2:3:4:5:6:7:8".to_string(), 2), 1492, true);
    let bytes = reply.serialize().unwrap();
    assert_eq!(bytes.len(), 1 + 16 + 8 + 29 + 2 + 1);
    assert_eq!(bytes[0], 0x08);
    let read = ConnectionReplyTwo::deserialize(&bytes).unwrap();
    assert_eq!(read.guid, -5);
    assert_eq!(read.address, reply.address);
    assert_eq!(read.mtu_size, 1492);
    assert!(read.encryption_enabled);
    assert_eq!(ConnectionReplyTwo::deserialize(&bytes[..56]).unwrap_err(), OUT_OF_BOUNDS);
}

#[test]
fn connection_request_accepted_round_trip() {
    let packet = ConnectionRequestAccepted::new(
        Address::new(4, "203.0.113.9".to_string(), 50000),
        3,
        addresses(20),
        111,
        222,
    );
    let bytes = packet.serialize().unwrap();
    assert_eq!(bytes.len(), 1 + 7 + 2 + 20 * 7 + 16);
    assert_eq!(bytes[0], 0x10);
    let read = ConnectionRequestAccepted::deserialize(&bytes).unwrap();
    assert_eq!(read.client_address, packet.client_address);
    assert_eq!(read.client_id, 3);
    assert_eq!(read.server_addresses, packet.server_addresses);
    assert_eq!(read.client_send_time, 111);
    assert_eq!(read.server_send_time, 222);
    assert_eq!(ConnectionRequestAccepted::deserialize(&bytes[..bytes.len() - 1]).unwrap_err(), OUT_OF_BOUNDS);
    let few = ConnectionRequestAccepted::new(Address::default(), 0, addresses(19), 0, 0);
    assert_eq!(few.serialize().unwrap_err(), PacketError::SerializationError);
}

#[test]
fn new_incoming_connection_round_trip() {
    let packet = NewIncommingConnection::new(Address::new(4, "1.2.3.4".to_string(), 5), addresses(20), 6, 7);
    let bytes = packet.serialize().unwrap();
    assert_eq!(bytes.len(), 1 + 7 + 20 * 7 + 16);
    assert_eq!(bytes[0], 0x13);
    assert_eq!(&bytes[bytes.len() - 16..bytes.len() - 8], &[0, 0, 0, 0, 0, 0, 0, 6]);
    let read = NewIncommingConnection::deserialize(&bytes).unwrap();
    assert_eq!(read.server_address, packet.server_address);
    assert_eq!(read.internal_addresses, packet.internal_addresses);
    assert_eq!(read.incoming_timestamp, 6);
    assert_eq!(read.server_timestamp, 7);
    let many = NewIncommingConnection::new(Address::default(), addresses(21), 0, 0);
    assert_eq!(many.serialize().unwrap_err(), PacketError::SerializationError);
}
