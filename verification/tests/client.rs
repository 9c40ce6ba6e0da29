use raknet::ack::Nack;
use raknet::address::Address;
use raknet::client::client::{Client, ConnectionState};
use raknet::frame::Frame;
use raknet::frameset::FrameSet;
use raknet::packet::{PacketError, MAGIC};
use raknet::proto::connection_reply_one::ConnectionReplyOne;
use raknet::proto::connection_reply_two::ConnectionReplyTwo;
use raknet::proto::connection_request::ConnectionRequest;
use raknet::proto::connection_request_accepted::ConnectionRequestAccepted;
use raknet::proto::connection_request_one::ConnectionRequestOne;
use raknet::proto::connection_request_two::ConnectionRequestTwo;
use raknet::proto::new_incomming_connection::NewIncommingConnection;
use raknet::proto::unconnected_ping::UnconnectedPing;
use raknet::reliability::Reliability;

const NOW: i64 = 1_700_000_000;
const GUID: i64 = 4124124124124;

fn client() -> Client {
    Client::new("135.148.137.229".to_string(), 19132, 50505).unwrap()
}

fn reply_one(mtu_size: u16) -> Vec<u8> {
    ConnectionReplyOne { guid: 1, security: false, cookie: None, mtu_size }.serialize().unwrap()
}

fn reply_two(mtu_size: u16) -> Vec<u8> {
    ConnectionReplyTwo::new(1, Address::new(4, "198.51.100.7".to_string(), 50505), mtu_size, false)
        .serialize()
        .unwrap()
}

fn names(client: &mut Client) -> Vec<String> {
    client.take_events().into_iter().map(|event| event.name).collect()
}

#[test]
fn client_starts_offline() {
    let mut client = client();
    assert_eq!(client.state(), ConnectionState::Offline);
    assert!(!client.is_connected());
    assert_eq!(client.mtu_size(), 1492);
    assert_eq!(client.step(), 0);
    assert_eq!(client.framer().guid(), GUID);
    assert_eq!(client.framer().mtu_size(), 1492);
    assert!(client.take_outbox().is_empty());
    assert!(client.take_events().is_empty());
}

#[test]
fn host_that_is_no_ipv4_address_is_refused() {
    assert_eq!(Client::new("example.org".to_string(), 19132, 1).err(), Some(PacketError::SerializationError));
    assert_eq!(Client::new("1.2.3".to_string(), 19132, 1).err(), Some(PacketError::SerializationError));
    assert!(Client::new("0.0.0.0".to_string(), 0, 0).is_ok());
}

#[test]
fn connect_sends_a_ping_and_the_padded_first_request() {
    let mut client = client();
    client.connect_at(NOW);
    assert_eq!(client.state(), ConnectionState::AwaitingReplyOne);
    let outbox = client.take_outbox();
    assert_eq!(outbox.len(), 2);
    assert_eq!(UnconnectedPing::deserialize(&outbox[0]), Ok(UnconnectedPing::new(NOW, GUID)));
    assert_eq!(outbox[1].len(), 1492 - 28);
    assert_eq!(ConnectionRequestOne::deserialize(&outbox[1]), Ok(ConnectionRequestOne::new(11, 1492)));
    assert_eq!(&outbox[1][1..17], &MAGIC);
}

#[test]
fn happy_handshake_reaches_established() {
    let mut client = client();
    client.connect_at(NOW);
    client.take_outbox();

    let first = reply_one(1400);
    client.handle_packet_at(&first, NOW + 1);
    assert_eq!(client.state(), ConnectionState::AwaitingReplyTwo);
    let outbox = client.take_outbox();
    assert_eq!(outbox.len(), 1);
    let second_request = ConnectionRequestTwo::deserialize(&outbox[0]).unwrap();
    assert_eq!(second_request.mtu_size, 1400);
    assert_eq!(second_request.guid, GUID);
    assert_eq!(second_request.address, Address::new(4, "135.148.137.229".to_string(), 19132));

    let second = reply_two(1400);
    client.handle_packet_at(&second, NOW + 2);
    assert_eq!(client.state(), ConnectionState::Connecting);
    assert!(!client.is_connected());
    let outbox = client.take_outbox();
    assert_eq!(outbox.len(), 1);
    let set = FrameSet::deserialize(&outbox[0]).unwrap();
    assert_eq!(set.sequence, 0);
    assert_eq!(set.frames.len(), 1);
    assert_eq!(set.frames[0].reliability, Reliability::ReliableOrdered);
    assert_eq!(set.frames[0].order_channel, Some(0));
    assert_eq!(
        ConnectionRequest::deserialize(&set.frames[0].payload),
        Ok(ConnectionRequest::new(GUID, NOW + 2, false))
    );

    let servers: Vec<Address> = (0..20).map(|_| Address::default()).collect();
    let accepted = ConnectionRequestAccepted::new(
        Address::new(4, "198.51.100.7".to_string(), 50505),
        0,
        servers,
        NOW + 2,
        777,
    )
    .serialize()
    .unwrap();
    let mut frame = Frame::new();
    frame.reliable_frame_index = Some(0);
    frame.ordered_frame_index = Some(0);
    frame.payload = accepted;
    let datagram = FrameSet::new(0, vec![frame]).serialize().unwrap();
    client.handle_packet_at(&datagram, NOW + 3);
    assert_eq!(client.state(), ConnectionState::Established);
    assert!(client.is_connected());
    let outbox = client.take_outbox();
    assert_eq!(outbox.len(), 1);
    let set = FrameSet::deserialize(&outbox[0]).unwrap();
    assert_eq!(set.sequence, 1);
    let reply = NewIncommingConnection::deserialize(&set.frames[0].payload).unwrap();
    assert_eq!(reply.server_address, Address::new(4, "135.148.137.229".to_string(), 19132));
    assert_eq!(reply.internal_addresses[19], Address::new(4, "127.0.0.1".to_string(), 50505));
    assert_eq!(reply.incoming_timestamp, NOW + 3);
    assert_eq!(reply.server_timestamp, 777);
    assert_eq!(
        names(&mut client),
        vec!["connection_reply_one", "connection_reply_two", "connection_request_accepted", "frame_set"]
    );
    client.tick();
    assert_eq!(client.take_outbox(), vec![vec![0xC0, 0, 1, 1, 0, 0, 0]]);
}

#[test]
fn offered_mtu_out_of_range_restarts_with_the_next_candidate() {
    let mut client = client();
    client.connect_at(NOW);
    assert_eq!(client.take_outbox()[1].len(), 1492 - 28);
    client.handle_packet_at(&reply_one(1600), NOW);
    assert_eq!(client.state(), ConnectionState::AwaitingReplyOne);
    assert_eq!(client.mtu_size(), 1200);
    assert_eq!(client.step(), 1);
    let outbox = client.take_outbox();
    assert_eq!(outbox.len(), 3);
    assert_eq!(ConnectionRequestTwo::deserialize(&outbox[0]).unwrap().mtu_size, 1600);
    assert_eq!(UnconnectedPing::deserialize(&outbox[1]), Ok(UnconnectedPing::new(NOW, GUID)));
    assert_eq!(ConnectionRequestOne::deserialize(&outbox[2]), Ok(ConnectionRequestOne::new(11, 1200)));
    assert_eq!(outbox[2].len(), 1200 - 28);

    client.handle_packet_at(&reply_one(399), NOW);
    assert_eq!(client.mtu_size(), 576);
    assert_eq!(client.take_outbox()[2].len(), 576 - 28);
    client.handle_packet_at(&reply_one(1501), NOW);
    assert_eq!(client.mtu_size(), 576);
    assert_eq!(client.step(), 2);
    client.take_outbox();

    client.handle_packet_at(&reply_one(1500), NOW);
    assert_eq!(client.state(), ConnectionState::AwaitingReplyTwo);
    assert_eq!(client.take_outbox().len(), 1);
    client.handle_packet_at(&reply_one(400), NOW);
    assert_eq!(client.state(), ConnectionState::AwaitingReplyTwo);
    client.handle_packet_at(&reply_two(1200), NOW);
    assert_eq!(client.state(), ConnectionState::Connecting);
}

#[test]
fn connect_again_probes_the_next_candidate() {
    let mut client = client();
    client.connect_at(NOW);
    client.connect_at(NOW + 5);
    assert_eq!(client.mtu_size(), 1200);
    let outbox = client.take_outbox();
    assert_eq!(outbox.len(), 4);
    assert_eq!(outbox[3].len(), 1200 - 28);
    client.connect_at(NOW + 10);
    client.connect_at(NOW + 15);
    assert_eq!(client.mtu_size(), 576);
    assert_eq!(client.step(), 2);
}

#[test]
fn connect_by_the_clock_sends_the_time_of_day() {
    let mut client = client();
    client.connect();
    client.ping();
    let outbox = client.take_outbox();
    assert_eq!(outbox.len(), 3);
    assert!(UnconnectedPing::deserialize(&outbox[0]).unwrap().timestamp > 1_000_000_000);
    assert!(UnconnectedPing::deserialize(&outbox[2]).unwrap().timestamp > 1_000_000_000);
    assert_eq!(client.state(), ConnectionState::AwaitingReplyOne);
}

#[test]
fn ping_sends_an_unconnected_ping() {
    let mut client = client();
    client.ping_at(5);
    assert_eq!(client.take_outbox(), vec![UnconnectedPing::new(5, GUID).serialize()]);
    assert_eq!(client.state(), ConnectionState::Offline);
}

#[test]
fn datagrams_are_told_by_their_leading_byte() {
    let mut client = client();
    client.handle_packet_at(&[0x1C, 1, 2, 3], NOW);
    client.handle_packet_at(&[0x42, 1, 2, 3], NOW);
    client.handle_packet_at(&[0xC0, 0, 0], NOW);
    client.handle_packet_at(&Nack::new(vec![3]).serialize().unwrap(), NOW);
    client.handle_packet_at(&[0x84, 0, 0, 0], NOW);
    client.handle_packet_at(&[], NOW);
    let events = client.take_events();
    let told: Vec<(String, Vec<u8>)> = events.into_iter().map(|event| (event.name, event.data)).collect();
    assert_eq!(
        told,
        vec![
            ("unconnected_pong".to_string(), vec![0x1C, 1, 2, 3]),
            ("unknown_packet".to_string(), vec![0x42]),
            ("ack".to_string(), vec![0xC0, 0, 0]),
            ("nack".to_string(), vec![0xA0, 0, 1, 1, 3, 0, 0]),
            ("frame_set".to_string(), vec![0x84, 0, 0, 0]),
        ]
    );
    assert_eq!(client.state(), ConnectionState::Offline);
    assert_eq!(client.framer().received_frame_sequences(), vec![0]);
}

#[test]
fn malformed_datagrams_are_dropped() {
    let mut client = client();
    client.connect_at(NOW);
    client.take_outbox();
    client.handle_packet_at(&[0x06, 1, 2], NOW);
    client.handle_packet_at(&[0x08], NOW);
    client.handle_packet_at(&[0x80, 1], NOW);
    client.handle_packet_at(&[0x80, 1, 0, 0, 0x60, 0, 8], NOW);
    let mut wrong_magic = reply_one(1400);
    wrong_magic[5] ^= 1;
    client.handle_packet_at(&wrong_magic, NOW);
    assert_eq!(client.state(), ConnectionState::AwaitingReplyOne);
    assert!(client.take_outbox().is_empty());
    assert!(client.take_events().is_empty());
    assert_eq!(client.framer().last_input_sequence(), -1);
}

#[test]
fn disconnect_closes_the_connection() {
    let mut client = client();
    client.handle_packet_at(&[0x15], NOW);
    assert_eq!(client.state(), ConnectionState::Disconnected);
    assert_eq!(names(&mut client), vec!["disconnect"]);

    let mut inside = Client::new("1.2.3.4".to_string(), 1, 2).unwrap();
    let mut frame = Frame::new();
    frame.reliability = Reliability::Unreliable;
    frame.order_channel = None;
    frame.payload = vec![0x15];
    let datagram = FrameSet::new(0, vec![frame]).serialize().unwrap();
    inside.handle_packet_at(&datagram, NOW);
    assert_eq!(inside.state(), ConnectionState::Disconnected);
    assert!(!inside.is_connected());
    assert_eq!(names(&mut inside), vec!["disconnect", "frame_set"]);
}

#[test]
fn payloads_go_out_framed() {
    let mut client = client();
    client.frame_and_send(vec![0xFE, 1, 2]);
    client.send(vec![1, 2, 3]);
    client.emit_event("note", vec![4]);
    let outbox = client.take_outbox();
    assert_eq!(outbox.len(), 2);
    let set = FrameSet::deserialize(&outbox[0]).unwrap();
    assert_eq!(set.frames[0].payload, vec![0xFE, 1, 2]);
    assert_eq!(set.frames[0].reliability, Reliability::ReliableOrdered);
    assert_eq!(outbox[1], vec![1, 2, 3]);
    assert_eq!(names(&mut client), vec!["note"]);
}

#[test]
fn datagram_by_the_clock_is_taken_in() {
    let mut client = client();
    client.connect_at(NOW);
    client.handle_packet(&reply_one(1400));
    client.handle_packet(&reply_two(1400));
    assert_eq!(client.state(), ConnectionState::Connecting);
    let outbox = client.take_outbox();
    let set = FrameSet::deserialize(&outbox[3]).unwrap();
    assert!(ConnectionRequest::deserialize(&set.frames[0].payload).unwrap().timestamp > 1_000_000_000);
}

fn accepted_datagram(sequence: u32, index: u32) -> Vec<u8> {
    let servers: Vec<Address> = (0..20).map(|_| Address::default()).collect();
    let accepted = ConnectionRequestAccepted::new(
        Address::new(4, "198.51.100.7".to_string(), 50505),
        0,
        servers,
        NOW,
        777,
    )
    .serialize()
    .unwrap();
    let mut frame = Frame::new();
    frame.reliable_frame_index = Some(index);
    frame.ordered_frame_index = Some(index);
    frame.payload = accepted;
    FrameSet::new(sequence, vec![frame]).serialize().unwrap()
}

fn disconnect_datagram(sequence: u32) -> Vec<u8> {
    let mut frame = Frame::new();
    frame.reliability = Reliability::Unreliable;
    frame.order_channel = None;
    frame.payload = vec![0x15];
    FrameSet::new(sequence, vec![frame]).serialize().unwrap()
}

fn established() -> Client {
    let mut client = client();
    client.connect_at(NOW);
    client.handle_packet_at(&reply_one(1400), NOW);
    client.handle_packet_at(&reply_two(1400), NOW);
    client.handle_packet_at(&accepted_datagram(0, 0), NOW);
    assert!(client.is_connected());
    client.take_outbox();
    client.take_events();
    client
}

#[test]
fn closed_connection_stays_closed_without_a_new_handshake() {
    let mut client = established();
    client.handle_packet_at(&[0x15], NOW);
    assert_eq!(client.state(), ConnectionState::Disconnected);
    assert!(!client.framer().is_accepted());
    client.handle_packet_at(&FrameSet::new(1, vec![]).serialize().unwrap(), NOW);
    assert_eq!(client.state(), ConnectionState::Disconnected);
    assert!(!client.is_connected());
    client.handle_packet_at(&accepted_datagram(2, 1), NOW);
    assert_eq!(client.state(), ConnectionState::Disconnected);
    client.tick();
    client.handle_packet_at(&[0xC0, 0, 0], NOW);
    assert!(!client.is_connected());
}

#[test]
fn connection_closed_in_a_frame_opens_again_after_a_new_handshake() {
    let mut client = established();
    client.handle_packet_at(&disconnect_datagram(1), NOW);
    assert_eq!(client.state(), ConnectionState::Disconnected);
    client.handle_packet_at(&FrameSet::new(2, vec![]).serialize().unwrap(), NOW);
    assert_eq!(client.state(), ConnectionState::Disconnected);
    client.connect_at(NOW);
    assert_eq!(client.state(), ConnectionState::AwaitingReplyOne);
    assert_eq!(client.mtu_size(), 1492);
    client.handle_packet_at(&FrameSet::new(3, vec![]).serialize().unwrap(), NOW);
    assert_eq!(client.state(), ConnectionState::AwaitingReplyOne);
    client.handle_packet_at(&reply_one(1400), NOW);
    client.handle_packet_at(&reply_two(1400), NOW);
    assert_eq!(client.state(), ConnectionState::Connecting);
    assert!(!client.is_connected());
    client.handle_packet_at(&FrameSet::new(4, vec![]).serialize().unwrap(), NOW);
    assert_eq!(client.state(), ConnectionState::Connecting);
    client.handle_packet_at(&accepted_datagram(5, 1), NOW);
    assert_eq!(client.state(), ConnectionState::Established);
    client.handle_packet_at(&FrameSet::new(6, vec![]).serialize().unwrap(), NOW);
    assert!(client.is_connected());
}

#[test]
fn connect_on_an_established_connection_starts_over() {
    let mut client = established();
    client.connect_at(NOW);
    assert_eq!(client.state(), ConnectionState::AwaitingReplyOne);
    assert_eq!(client.mtu_size(), 1200);
    client.handle_packet_at(&FrameSet::new(1, vec![]).serialize().unwrap(), NOW);
    assert_eq!(client.state(), ConnectionState::AwaitingReplyOne);
    assert!(!client.is_connected());
}

#[test]
fn acceptance_before_the_connection_request_is_out_establishes_nothing() {
    let mut client = client();
    client.handle_packet_at(&accepted_datagram(0, 0), NOW);
    assert_eq!(client.state(), ConnectionState::Offline);
    client.connect_at(NOW);
    client.handle_packet_at(&reply_one(1400), NOW);
    client.handle_packet_at(&accepted_datagram(1, 1), NOW);
    assert_eq!(client.state(), ConnectionState::AwaitingReplyTwo);
    client.handle_packet_at(&reply_two(1400), NOW);
    client.handle_packet_at(&accepted_datagram(2, 2), NOW);
    assert!(client.is_connected());
}

#[test]
fn acceptance_and_disconnect_in_one_datagram_close_the_connection() {
    let mut client = client();
    client.connect_at(NOW);
    client.handle_packet_at(&reply_one(1400), NOW);
    client.handle_packet_at(&reply_two(1400), NOW);
    let accepted = FrameSet::deserialize(&accepted_datagram(0, 0)).unwrap();
    let closing = FrameSet::deserialize(&disconnect_datagram(0)).unwrap();
    let both = FrameSet::new(0, vec![accepted.frames[0].clone(), closing.frames[0].clone()]);
    client.handle_packet_at(&both.serialize().unwrap(), NOW);
    assert_eq!(client.state(), ConnectionState::Disconnected);
}
