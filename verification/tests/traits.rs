use raknet::ack::{Ack, Nack};
use raknet::address::Address;
use raknet::binary_stream::{BinaryStream, BinaryStreamError};
use raknet::client::framer::Framer;
use raknet::frame::Frame;
use raknet::frameset::FrameSet;
use raknet::packet::{DataType, Packet, PacketError, MAGIC};
use raknet::proto::connected_ping::ConnectedPing;
use raknet::proto::connected_pong::ConnectedPong;
use raknet::proto::connection_reply_one::ConnectionReplyOne;
use raknet::proto::connection_reply_two::ConnectionReplyTwo;
use raknet::proto::connection_request::ConnectionRequest;
use raknet::proto::connection_request_accepted::ConnectionRequestAccepted;
use raknet::proto::connection_request_one::ConnectionRequestOne;
use raknet::proto::connection_request_two::ConnectionRequestTwo;
use raknet::proto::new_incomming_connection::NewIncommingConnection;
use raknet::proto::unconnected_ping::UnconnectedPing;
use raknet::proto::unconnected_pong::UnconnectedPong;
use raknet::reliability::Reliability;

fn through<P: Packet + PartialEq + std::fmt::Debug>(packet: P, leading: u8) {
    assert_eq!(P::ID, leading as u16);
    assert_eq!(P::MAGIC, MAGIC);
    let bytes = Packet::serialize(&packet).unwrap();
    assert_eq!(bytes[0], leading);
    assert_eq!(<P as Packet>::deserialize(&bytes), Ok(packet));
    assert!(<P as Packet>::deserialize(&[]).is_err());
}

fn twenty() -> Vec<Address> {
    (0..20).map(|i| Address::new(4, format!("10.0.{}.1", i), i as u16)).collect()
}

#[test]
fn every_packet_goes_through_the_packet_trait() {
    through(ConnectedPing { timestamp: -3 }, 0x00);
    through(UnconnectedPing::new(1, 2), 0x01);
    through(ConnectedPong::new(1, 2), 0x03);
    through(ConnectionRequestOne::new(11, 576), 0x05);
    through(ConnectionReplyOne { guid: 1, security: true, cookie: Some(2), mtu_size: 3 }, 0x06);
    through(ConnectionRequestTwo::new(Address::default(), 1400, 5), 0x07);
    through(ConnectionReplyTwo::new(5, Address::default(), 1400, false), 0x08);
    through(ConnectionRequest::new(1, 2, true), 0x09);
    through(ConnectionRequestAccepted::new(Address::default(), 1, twenty(), 2, 3), 0x10);
    through(NewIncommingConnection::new(Address::default(), twenty(), 2, 3), 0x13);
    through(UnconnectedPong::new(1, 2, "motd".to_string()), 0x1C);
    through(FrameSet::new(9, vec![]), 0x80);
    through(Nack::new(vec![1, 2, 4]), 0xA0);
    through(Ack::new(vec![7]), 0xC0);
}

#[test]
fn packet_trait_refuses_what_has_no_wire_form() {
    assert_eq!(Packet::serialize(&Ack::new(vec![0x100_0000])), Err(PacketError::SerializationError));
    assert_eq!(
        Packet::serialize(&ConnectionRequestOne::new(11, 10)),
        Err(PacketError::SerializationError)
    );
    assert_eq!(
        Packet::serialize(&ConnectionRequestTwo::new(Address::new(4, "x".to_string(), 1), 1, 1)),
        Err(PacketError::SerializationError)
    );
    assert_eq!(
        <ConnectedPing as Packet>::deserialize(&[1, 0, 0, 0, 0, 0, 0, 0, 0]),
        Err(PacketError::InvalidPacket)
    );
}

#[test]
fn frames_and_addresses_go_through_the_data_type_trait() {
    let mut frame = Frame::new();
    frame.reliability = Reliability::Reliable;
    frame.order_channel = None;
    frame.reliable_frame_index = Some(3);
    frame.payload = vec![1, 2];
    let address = Address::new(4, "9.8.7.6".to_string(), 5);
    let mut stream = BinaryStream::new(None, None);
    assert_eq!(DataType::write(&frame, &mut stream), Ok(()));
    assert_eq!(DataType::write(&address, &mut stream), Ok(()));
    assert_eq!(<Frame as DataType>::read(&mut stream), Ok(frame));
    assert_eq!(<Address as DataType>::read(&mut stream), Ok(address));
    assert!(stream.cursor_at_end());
    assert_eq!(
        <Address as DataType>::read(&mut stream),
        Err(PacketError::BinaryStreamError(BinaryStreamError::OutOfBounds))
    );
    assert_eq!(DataType::write(&Frame::new(), &mut stream), Err(PacketError::SerializationError));
    assert_eq!(
        DataType::write(&Address::new(6, "nothing".to_string(), 1), &mut stream),
        Err(PacketError::SerializationError)
    );
}

#[test]
fn copies_of_packets_are_equal() {
    let reply = ConnectionReplyTwo::new(5, Address::new(4, "1.2.3.4".to_string(), 1), 1400, true);
    assert_eq!(reply.clone(), reply);
    let accepted = ConnectionRequestAccepted::new(Address::default(), 1, twenty(), 2, 3);
    assert_eq!(accepted.clone(), accepted);
    let incoming = NewIncommingConnection::new(Address::default(), twenty(), 2, 3);
    assert_eq!(incoming.clone(), incoming);
}

#[test]
fn frames_fit_for_sending_are_told_apart() {
    let mut frame = Frame::new();
    assert!(Framer::is_sendable(&frame));
    frame.order_channel = Some(64);
    assert!(!Framer::is_sendable(&frame));
    frame.order_channel = Some(63);
    frame.ordered_frame_index = Some(0x100_0000);
    assert!(!Framer::is_sendable(&frame));
    frame.ordered_frame_index = Some(0xFF_FFFF);
    frame.split_size = Some(2);
    assert!(!Framer::is_sendable(&frame));
    frame.split_id = Some(1);
    frame.split_frame_index = Some(2);
    assert!(!Framer::is_sendable(&frame));
    frame.split_frame_index = Some(1);
    assert!(Framer::is_sendable(&frame));
    frame.split_size = Some(0);
    frame.split_id = None;
    assert!(Framer::is_sendable(&frame));
    assert!(!frame.is_complete());
    assert!(!frame.is_well_formed());
    frame.reliable_frame_index = Some(0);
    assert!(frame.is_complete());
    assert!(frame.is_well_formed());
    assert!(!frame.is_canonical());
    frame.split_size = None;
    frame.split_frame_index = None;
    assert!(frame.is_canonical());
}

#[test]
fn crate_root_names_the_main_types() {
    let mut stream = raknet::BinaryStream::new(None, None);
    stream.write_u16(1, raknet::Endianness::Little);
    assert_eq!(stream.binary, vec![1, 0]);
    assert_eq!(raknet::Reliability::from_u8(3), raknet::Reliability::ReliableOrdered);
    assert_eq!(raknet::MAGIC.len(), 16);
    let client = raknet::Client::new("1.2.3.4".to_string(), 1, 2).unwrap();
    assert_eq!(client.state(), raknet::ConnectionState::Offline);
    assert_eq!(raknet::Priority::Immediate, raknet::Priority::Immediate);
}

#[test]
fn handshake_packets_answer_to_their_protocol_names() {
    let request = raknet::OpenConnectionRequestOne::new(11, 1200);
    assert_eq!(request, ConnectionRequestOne::new(11, 1200));
    let reply = raknet::OpenConnectionReplyOne { guid: 1, security: false, cookie: None, mtu_size: 2 };
    assert_eq!(raknet::OpenConnectionReplyOne::deserialize(&reply.serialize().unwrap()), Ok(reply));
    let second = raknet::OpenConnectionRequestTwo::new(Address::default(), 1, 2);
    assert_eq!(second.serialize().unwrap()[0], 0x07);
    let answer = raknet::OpenConnectionReplyTwo::new(1, Address::default(), 2, true);
    assert_eq!(raknet::OpenConnectionReplyTwo::deserialize(&answer.serialize().unwrap()), Ok(answer));
    let incoming = raknet::NewIncomingConnection::new(Address::default(), twenty(), 1, 2);
    assert_eq!(incoming.serialize().unwrap()[0], 0x13);
}
