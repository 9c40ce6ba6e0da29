use raknet::ack::{Ack, Nack};
use raknet::address::Address;
use raknet::client::framer::Framer;
use raknet::client::model::Priority;
use raknet::frame::Frame;
use raknet::frameset::FrameSet;
use raknet::proto::connected_ping::ConnectedPing;
use raknet::proto::connected_pong::ConnectedPong;
use raknet::proto::connection_request::ConnectionRequest;
use raknet::proto::connection_request_accepted::ConnectionRequestAccepted;
use raknet::proto::new_incomming_connection::NewIncommingConnection;
use raknet::reliability::Reliability;

const NOW: i64 = 1_700_000_000;

fn framer(mtu: u16) -> Framer {
    Framer::new(
        mtu,
        7,
        Address::new(4, "10.0.0.1".to_string(), 19132),
        Address::new(4, "127.0.0.1".to_string(), 5000),
    )
}

fn plain(payload: Vec<u8>) -> Frame {
    let mut frame = Frame::new();
    frame.reliability = Reliability::Unreliable;
    frame.order_channel = None;
    frame.payload = payload;
    frame
}

fn ordered(index: u32, channel: u8, payload: Vec<u8>) -> Frame {
    let mut frame = Frame::new();
    frame.reliability = Reliability::ReliableOrdered;
    frame.reliable_frame_index = Some(index);
    frame.ordered_frame_index = Some(index);
    frame.order_channel = Some(channel);
    frame.payload = payload;
    frame
}

fn sequenced(index: u32, payload: Vec<u8>) -> Frame {
    let mut frame = Frame::new();
    frame.reliability = Reliability::UnreliableSequenced;
    frame.sequence_frame_index = Some(index);
    frame.order_channel = None;
    frame.payload = payload;
    frame
}

fn delivered(framer: &mut Framer) -> Vec<(String, Vec<u8>)> {
    framer.take_events().into_iter().map(|event| (event.name, event.data)).collect()
}

fn sent_sets(framer: &mut Framer) -> Vec<FrameSet> {
    framer.take_outbox().iter().map(|bytes| FrameSet::deserialize(bytes).unwrap()).collect()
}

#[test]
fn fresh_framer_has_nothing() {
    let mut framer = framer(1492);
    assert_eq!(framer.mtu_size(), 1492);
    assert_eq!(framer.guid(), 7);
    assert_eq!(framer.last_input_sequence(), -1);
    assert!(framer.received_frame_sequences().is_empty());
    assert!(framer.lost_frame_sequences().is_empty());
    assert_eq!(framer.output_sequence(), 0);
    assert_eq!(framer.output_reliable_index(), 0);
    assert_eq!(framer.pending_frames(), 0);
    assert_eq!(framer.backup_len(), 0);
    assert_eq!(framer.open_splits(), 0);
    for channel in [0u8, 31, 63] {
        assert_eq!(framer.input_order_index(channel), 0);
        assert_eq!(framer.input_highest_sequence_index(channel), 0);
        assert_eq!(framer.held_back(channel), 0);
    }
    assert!(!framer.is_accepted());
    assert!(!framer.is_disconnected());
    assert_eq!(framer.server_address(), Address::new(4, "10.0.0.1".to_string(), 19132));
    framer.tick();
    assert!(framer.take_outbox().is_empty());
    assert!(framer.take_events().is_empty());
}

#[test]
fn duplicate_frame_set_is_delivered_and_acknowledged_once() {
    let mut framer = framer(1492);
    let set = FrameSet::new(5, vec![plain(vec![0xFE, 1])]);
    framer.on_frameset_at(&set, NOW);
    framer.on_frameset_at(&set, NOW);
    assert_eq!(delivered(&mut framer), vec![("encapsulated".to_string(), vec![0xFE, 1])]);
    assert_eq!(framer.received_frame_sequences(), vec![5]);
    assert_eq!(framer.lost_frame_sequences(), vec![0, 1, 2, 3, 4]);
    assert_eq!(framer.last_input_sequence(), 5);
    framer.tick();
    assert_eq!(
        framer.take_outbox(),
        vec![vec![0xC0, 0, 1, 1, 5, 0, 0], vec![0xA0, 0, 1, 0, 0, 0, 0, 4, 0, 0]]
    );
    framer.on_frameset_at(&set, NOW);
    assert!(framer.take_events().is_empty());
    assert!(framer.received_frame_sequences().is_empty());
}

#[test]
fn gap_is_noted_and_reported() {
    let mut framer = framer(1492);
    for sequence in [0u32, 1, 3] {
        framer.on_frameset_at(&FrameSet::new(sequence, vec![]), NOW);
    }
    assert_eq!(framer.lost_frame_sequences(), vec![2]);
    assert_eq!(framer.received_frame_sequences(), vec![0, 1, 3]);
    framer.tick();
    let outbox = framer.take_outbox();
    assert_eq!(outbox.len(), 2);
    assert_eq!(Ack::deserialize(&outbox[0]).unwrap().sequences, vec![0, 1, 3]);
    assert_eq!(outbox[0], vec![0xC0, 0, 2, 0, 0, 0, 0, 1, 0, 0, 1, 3, 0, 0]);
    assert_eq!(Nack::deserialize(&outbox[1]).unwrap().sequences, vec![2]);
    assert!(framer.lost_frame_sequences().is_empty());
    assert!(framer.received_frame_sequences().is_empty());
    framer.tick();
    assert!(framer.take_outbox().is_empty());
}

#[test]
fn late_frame_set_is_struck_from_the_missing_and_dropped() {
    let mut framer = framer(1492);
    framer.on_frameset_at(&FrameSet::new(3, vec![]), NOW);
    assert_eq!(framer.lost_frame_sequences(), vec![0, 1, 2]);
    framer.on_frameset_at(&FrameSet::new(1, vec![plain(vec![0xFE])]), NOW);
    assert_eq!(framer.lost_frame_sequences(), vec![0, 2]);
    assert_eq!(framer.received_frame_sequences(), vec![3]);
    assert_eq!(framer.last_input_sequence(), 3);
    assert!(framer.take_events().is_empty());
}

#[test]
fn ordered_frames_are_delivered_in_order() {
    let mut framer = framer(1492);
    for index in [2u32, 0, 1] {
        framer.handle_frame_at(&ordered(index, 0, vec![0xFE, index as u8]), NOW);
    }
    let events = delivered(&mut framer);
    assert_eq!(
        events,
        vec![
            ("encapsulated".to_string(), vec![0xFE, 0]),
            ("encapsulated".to_string(), vec![0xFE, 1]),
            ("encapsulated".to_string(), vec![0xFE, 2]),
        ]
    );
    assert_eq!(framer.input_order_index(0), 3);
    assert_eq!(framer.held_back(0), 0);
}

#[test]
fn ordered_frames_are_held_back_until_their_turn() {
    let mut framer = framer(1492);
    framer.handle_ordered_frame_at(&ordered(0, 0, vec![0xFE, 0]), NOW);
    assert_eq!(delivered(&mut framer).len(), 1);
    framer.handle_ordered_frame_at(&ordered(2, 0, vec![0xFE, 2]), NOW);
    framer.handle_ordered_frame_at(&ordered(3, 0, vec![0xFE, 3]), NOW);
    assert!(framer.take_events().is_empty());
    assert_eq!(framer.held_back(0), 2);
    assert_eq!(framer.input_order_index(0), 1);
    framer.handle_ordered_frame_at(&ordered(1, 0, vec![0xFE, 1]), NOW);
    let payloads: Vec<Vec<u8>> = delivered(&mut framer).into_iter().map(|event| event.1).collect();
    assert_eq!(payloads, vec![vec![0xFE, 1], vec![0xFE, 2], vec![0xFE, 3]]);
    assert_eq!(framer.input_order_index(0), 4);
    assert_eq!(framer.held_back(0), 0);
}

#[test]
fn ordered_channels_are_independent() {
    let mut framer = framer(1492);
    framer.handle_frame_at(&ordered(1, 5, vec![0xFE, 51]), NOW);
    framer.handle_frame_at(&ordered(0, 63, vec![0xFE, 63]), NOW);
    assert_eq!(delivered(&mut framer), vec![("encapsulated".to_string(), vec![0xFE, 63])]);
    assert_eq!(framer.held_back(5), 1);
    assert_eq!(framer.input_order_index(63), 1);
    assert_eq!(framer.input_order_index(5), 0);
    framer.handle_frame_at(&ordered(0, 5, vec![0xFE, 50]), NOW);
    assert_eq!(delivered(&mut framer).len(), 2);
    assert_eq!(framer.input_order_index(5), 2);
}

#[test]
fn ordered_frame_that_comes_late_is_dropped() {
    let mut framer = framer(1492);
    framer.handle_frame_at(&ordered(0, 0, vec![0xFE, 0]), NOW);
    framer.handle_frame_at(&ordered(0, 0, vec![0xFE, 9]), NOW);
    assert_eq!(delivered(&mut framer).len(), 1);
    assert_eq!(framer.held_back(0), 0);
}

#[test]
fn one_arrival_releases_at_most_a_thousand_held_back_frames() {
    let mut framer = framer(1492);
    for index in 1u32..=1001 {
        framer.handle_frame_at(&ordered(index, 0, vec![0xFE]), NOW);
    }
    assert_eq!(framer.held_back(0), 1001);
    framer.handle_frame_at(&ordered(0, 0, vec![0xFE]), NOW);
    assert_eq!(framer.take_events().len(), 1001);
    assert_eq!(framer.input_order_index(0), 1001);
    assert_eq!(framer.held_back(0), 1);
}

#[test]
fn sequenced_frames_are_delivered_only_when_newer() {
    let mut framer = framer(1492);
    for index in [1u32, 3, 2, 3] {
        framer.handle_frame_at(&sequenced(index, vec![0xFE, index as u8]), NOW);
    }
    let payloads: Vec<Vec<u8>> = delivered(&mut framer).into_iter().map(|event| event.1).collect();
    assert_eq!(payloads, vec![vec![0xFE, 1], vec![0xFE, 3]]);
    assert_eq!(framer.input_highest_sequence_index(0), 3);
}

#[test]
fn sequenced_frame_with_index_zero_is_not_above_the_initial_mark() {
    let mut framer = framer(1492);
    for index in [0u32, 2, 1] {
        framer.handle_sequenced_frame_at(&sequenced(index, vec![0xFE, index as u8]), NOW);
    }
    let payloads: Vec<Vec<u8>> = delivered(&mut framer).into_iter().map(|event| event.1).collect();
    assert_eq!(payloads, vec![vec![0xFE, 2]]);
}

#[test]
fn long_payload_is_split_and_reassembled() {
    let mut sender = framer(1500);
    let max_body = 1500 - 36;
    let payload: Vec<u8> = (0..4 * max_body).map(|i| if i == 0 { 0xFE } else { (i % 253) as u8 }).collect();
    let mut frame = Frame::new();
    frame.payload = payload.clone();
    sender.send_frame(&mut frame, Some(Priority::Immediate));
    assert_eq!(frame.ordered_frame_index, Some(0));
    assert_eq!(frame.reliable_frame_index, None);
    let sets = sent_sets(&mut sender);
    assert_eq!(sets.len(), 4);
    let mut fragments = Vec::new();
    for (i, set) in sets.iter().enumerate() {
        assert_eq!(set.sequence, i as u32);
        assert_eq!(set.frames.len(), 1);
        let fragment = set.frames[0].clone();
        assert_eq!(fragment.split_size, Some(4));
        assert_eq!(fragment.split_id, Some(0));
        assert_eq!(fragment.split_frame_index, Some(i as u32));
        assert_eq!(fragment.reliable_frame_index, Some(i as u32));
        assert_eq!(fragment.ordered_frame_index, Some(0));
        assert_eq!(fragment.order_channel, Some(0));
        assert_eq!(fragment.payload, payload[i * max_body..(i + 1) * max_body].to_vec());
        fragments.push(fragment);
    }
    assert_eq!(sender.output_reliable_index(), 4);
    assert_eq!(sender.backup_len(), 4);

    let mut receiver = framer(1500);
    for i in [2usize, 0, 3] {
        receiver.handle_frame_at(&fragments[i], NOW);
        assert!(receiver.take_events().is_empty());
    }
    assert_eq!(receiver.open_splits(), 1);
    receiver.handle_frame_at(&fragments[2], NOW);
    assert!(receiver.take_events().is_empty());
    receiver.handle_split_frame_at(&fragments[1], NOW);
    assert_eq!(delivered(&mut receiver), vec![("encapsulated".to_string(), payload)]);
    assert_eq!(receiver.open_splits(), 0);
    assert_eq!(receiver.input_order_index(0), 1);
}

#[test]
fn payload_of_one_byte_over_the_body_makes_two_fragments() {
    let mut sender = framer(400);
    let mut frame = plain(vec![0xFE; 365]);
    sender.send_frame(&mut frame, None);
    assert_eq!(sender.pending_frames(), 1);
    sender.tick();
    let sets = sent_sets(&mut sender);
    assert_eq!(sets.len(), 2);
    assert_eq!(sets[0].frames[0].payload.len(), 364);
    assert_eq!(sets[1].frames[0].payload.len(), 1);
    assert_eq!(sets[1].frames[0].split_size, Some(2));
    assert_eq!(sets[1].frames[0].split_frame_index, Some(1));
    assert_eq!(sets[1].frames[0].reliable_frame_index, None);
    let mut next = plain(vec![0xFE; 365]);
    sender.send_frame(&mut next, Some(Priority::Immediate));
    let sets = sent_sets(&mut sender);
    assert_eq!(sets[0].frames[0].split_id, Some(1));
}

#[test]
fn payload_of_just_the_body_goes_out_whole() {
    let mut sender = framer(400);
    let mut frame = plain(vec![0xFE; 364]);
    sender.send_frame(&mut frame, Some(Priority::Immediate));
    let sets = sent_sets(&mut sender);
    assert_eq!(sets.len(), 1);
    assert_eq!(sets[0].frames[0].split_size, None);
    assert_eq!(sets[0].frames[0].payload.len(), 364);
}

#[test]
fn missing_fragment_means_no_delivery() {
    let mut sender = framer(1500);
    let mut frame = Frame::new();
    frame.payload = vec![0xFE; 3000];
    sender.send_frame(&mut frame, Some(Priority::Immediate));
    let sets = sent_sets(&mut sender);
    assert_eq!(sets.len(), 3);
    let mut receiver = framer(1500);
    receiver.on_frameset_at(&sets[0], NOW);
    receiver.on_frameset_at(&sets[2], NOW);
    assert_eq!(delivered(&mut receiver), Vec::<(String, Vec<u8>)>::new());
    assert_eq!(receiver.open_splits(), 1);
    assert_eq!(receiver.lost_frame_sequences(), vec![1]);
    receiver.on_frameset_at(&sets[1], NOW);
    assert!(receiver.take_events().is_empty());
    assert_eq!(receiver.lost_frame_sequences(), Vec::<u32>::new());
}

#[test]
fn nack_sends_the_frames_of_the_datagram_again() {
    let mut framer = framer(1500);
    let mut first = Frame::new();
    first.payload = vec![0xFE, 1];
    framer.send_frame(&mut first, Some(Priority::Immediate));
    let mut second = Frame::new();
    second.payload = vec![0xFE, 2];
    framer.send_frame(&mut second, Some(Priority::Immediate));
    assert_eq!(sent_sets(&mut framer).len(), 2);
    assert!(framer.has_backup(0) && framer.has_backup(1));

    framer.handle_packet_at(&plain(Nack::new(vec![0]).serialize().unwrap()), NOW);
    let resent = sent_sets(&mut framer);
    assert_eq!(resent.len(), 1);
    assert_eq!(resent[0].sequence, 2);
    assert_eq!(resent[0].frames.len(), 1);
    assert_eq!(resent[0].frames[0].payload, vec![0xFE, 1]);
    assert_eq!(resent[0].frames[0].reliable_frame_index, Some(2));
    assert_eq!(resent[0].frames[0].ordered_frame_index, Some(2));
    assert!(!framer.has_backup(0));
    assert!(framer.has_backup(1) && framer.has_backup(2));

    framer.handle_packet_at(&plain(Ack::new(vec![1]).serialize().unwrap()), NOW);
    assert!(!framer.has_backup(1));
    assert!(framer.has_backup(2));
    assert_eq!(framer.backup_len(), 1);
    assert!(framer.take_outbox().is_empty());
    assert!(framer.take_events().is_empty());
}

#[test]
fn lost_fragment_is_sent_again_on_nack() {
    let mut framer = framer(1500);
    let mut frame = Frame::new();
    frame.payload = vec![0xFE; 3000];
    framer.send_frame(&mut frame, Some(Priority::Immediate));
    let sets = sent_sets(&mut framer);
    let sizes: Vec<usize> = sets.iter().map(|set| set.frames[0].payload.len()).collect();
    assert_eq!(sizes, vec![1464, 1464, 72]);
    assert_eq!(sets.iter().map(|set| set.sequence).collect::<Vec<u32>>(), vec![0, 1, 2]);

    framer.handle_packet_at(&plain(Nack::new(vec![1]).serialize().unwrap()), NOW);
    let resent = sent_sets(&mut framer);
    assert_eq!(resent.len(), 1);
    assert_eq!(resent[0].sequence, 3);
    assert_eq!(resent[0].frames[0].payload, sets[1].frames[0].payload);
    assert_eq!(resent[0].frames[0].split_frame_index, Some(1));
    assert_eq!(resent[0].frames[0].split_size, Some(3));
    assert_eq!(resent[0].frames[0].split_id, sets[1].frames[0].split_id);
    assert!(!framer.has_backup(1));

    framer.handle_packet_at(&plain(Ack::new(vec![0, 1, 2]).serialize().unwrap()), NOW);
    assert!(!framer.has_backup(0) && !framer.has_backup(1) && !framer.has_backup(2));
    assert!(framer.has_backup(3));
    assert_eq!(framer.backup_len(), 1);
    framer.handle_packet_at(&plain(Ack::new(vec![3]).serialize().unwrap()), NOW);
    assert_eq!(framer.backup_len(), 0);
}

#[test]
fn nack_for_an_unknown_datagram_changes_nothing() {
    let mut framer = framer(1500);
    framer.handle_packet_at(&plain(Nack::new(vec![4, 5]).serialize().unwrap()), NOW);
    framer.handle_packet_at(&plain(Ack::new(vec![4, 5]).serialize().unwrap()), NOW);
    assert!(framer.take_outbox().is_empty());
    assert_eq!(framer.output_sequence(), 0);
}

#[test]
fn normal_frames_wait_until_the_batch_is_full() {
    let mut framer = framer(1500);
    for k in 0u8..2 {
        framer.queue_frame(&plain(vec![k; 500]), Some(Priority::Normal));
    }
    assert_eq!(framer.pending_frames(), 2);
    assert!(framer.take_outbox().is_empty());
    framer.queue_frame(&plain(vec![2; 500]), None);
    assert_eq!(framer.pending_frames(), 1);
    let sets = sent_sets(&mut framer);
    assert_eq!(sets.len(), 1);
    assert_eq!(sets[0].sequence, 0);
    assert_eq!(sets[0].frames.len(), 2);
    assert_eq!(sets[0].frames[0].payload, vec![0; 500]);
    assert_eq!(sets[0].frames[1].payload, vec![1; 500]);
    framer.tick();
    let sets = sent_sets(&mut framer);
    assert_eq!(sets.len(), 1);
    assert_eq!(sets[0].sequence, 1);
    assert_eq!(sets[0].frames[0].payload, vec![2; 500]);
    assert_eq!(framer.pending_frames(), 0);
    assert_eq!(framer.output_sequence(), 2);
    assert!(framer.has_backup(0) && framer.has_backup(1));
}

#[test]
fn batch_that_just_fits_is_not_sent() {
    let mut framer = framer(400);
    framer.queue_frame(&plain(vec![0; 177]), None);
    framer.queue_frame(&plain(vec![1; 177]), None);
    assert_eq!(framer.pending_frames(), 2);
    framer.queue_frame(&plain(vec![2; 1]), None);
    assert_eq!(framer.pending_frames(), 1);
    assert_eq!(sent_sets(&mut framer)[0].frames.len(), 2);
}

#[test]
fn waiting_frames_are_unique() {
    let mut framer = framer(1500);
    framer.queue_frame(&plain(vec![1, 2, 3]), None);
    framer.queue_frame(&plain(vec![1, 2, 3]), None);
    framer.queue_frame(&plain(vec![1, 2, 4]), None);
    assert_eq!(framer.pending_frames(), 2);
}

#[test]
fn immediate_frame_sends_the_oldest_waiting_frame() {
    let mut framer = framer(1500);
    framer.queue_frame(&plain(vec![1]), None);
    framer.queue_frame(&plain(vec![2]), Some(Priority::Immediate));
    let sets = sent_sets(&mut framer);
    assert_eq!(sets.len(), 1);
    assert_eq!(sets[0].frames.len(), 1);
    assert_eq!(sets[0].frames[0].payload, vec![1]);
    assert_eq!(framer.pending_frames(), 1);
    framer.send_queue(5);
    assert_eq!(sent_sets(&mut framer)[0].frames[0].payload, vec![2]);
    framer.send_queue(5);
    assert!(framer.take_outbox().is_empty());
}

#[test]
fn send_frame_assigns_the_indices_of_the_reliability() {
    let mut framer = framer(1500);
    let mut a = Frame::new();
    a.payload = vec![1];
    framer.send_frame(&mut a, None);
    assert_eq!((a.reliable_frame_index, a.ordered_frame_index, a.sequence_frame_index), (Some(0), Some(0), None));
    let mut b = Frame::new();
    b.payload = vec![2];
    framer.send_frame(&mut b, None);
    assert_eq!((b.reliable_frame_index, b.ordered_frame_index), (Some(1), Some(1)));

    let mut s = sequenced(0, vec![3]);
    s.sequence_frame_index = None;
    s.reliability = Reliability::ReliableSequenced;
    framer.send_frame(&mut s, None);
    assert_eq!((s.reliable_frame_index, s.ordered_frame_index, s.sequence_frame_index), (Some(2), Some(2), Some(0)));
    assert_eq!(s.order_channel, Some(0));
    let mut t = s.clone();
    t.payload = vec![4];
    framer.send_frame(&mut t, None);
    assert_eq!((t.reliable_frame_index, t.ordered_frame_index, t.sequence_frame_index), (Some(3), Some(2), Some(1)));

    let mut c = Frame::new();
    c.payload = vec![5];
    framer.send_frame(&mut c, None);
    assert_eq!(c.ordered_frame_index, Some(2));
    let mut u = s.clone();
    u.payload = vec![6];
    framer.send_frame(&mut u, None);
    assert_eq!((u.ordered_frame_index, u.sequence_frame_index), (Some(3), Some(0)));

    let mut other = Frame::new();
    other.order_channel = Some(9);
    other.payload = vec![7];
    framer.send_frame(&mut other, None);
    assert_eq!((other.ordered_frame_index, other.order_channel), (Some(0), Some(9)));

    let mut free = plain(vec![8]);
    framer.send_frame(&mut free, None);
    assert_eq!((free.reliable_frame_index, free.ordered_frame_index, free.sequence_frame_index), (None, None, None));
    assert_eq!(framer.pending_frames(), 8);
}

#[test]
fn connected_ping_is_answered_with_a_pong() {
    let mut framer = framer(1492);
    let ping = ConnectedPing { timestamp: 42 }.serialize();
    framer.handle_packet_at(&plain(ping.clone()), NOW);
    assert_eq!(delivered(&mut framer), vec![("connected_ping".to_string(), ping)]);
    let sets = sent_sets(&mut framer);
    assert_eq!(sets.len(), 1);
    assert_eq!(sets[0].sequence, 0);
    let reply = &sets[0].frames[0];
    assert_eq!(reply.reliability, Reliability::ReliableOrdered);
    assert_eq!(reply.order_channel, Some(0));
    assert_eq!(reply.ordered_frame_index, Some(0));
    assert_eq!(reply.reliable_frame_index, Some(0));
    assert_eq!(ConnectedPong::deserialize(&reply.payload), Ok(ConnectedPong::new(42, NOW)));
}

#[test]
fn connected_ping_by_the_clock_is_answered_with_the_time_of_day() {
    let mut framer = framer(1492);
    framer.handle_packet(&plain(ConnectedPing { timestamp: 42 }.serialize()));
    let sets = sent_sets(&mut framer);
    let pong = ConnectedPong::deserialize(&sets[0].frames[0].payload).unwrap();
    assert_eq!(pong.ping_timestamp, 42);
    assert!(pong.pong_timestamp > 1_000_000_000);
}

#[test]
fn truncated_packets_are_dropped() {
    let mut framer = framer(1492);
    framer.handle_packet_at(&plain(vec![0x00, 1, 2]), NOW);
    framer.handle_packet_at(&plain(vec![0x10, 4, 1]), NOW);
    framer.handle_packet_at(&plain(vec![0xC0, 0, 1]), NOW);
    framer.handle_packet_at(&plain(vec![0xA0]), NOW);
    framer.handle_packet_at(&plain(vec![]), NOW);
    assert!(framer.take_events().is_empty());
    assert!(framer.take_outbox().is_empty());
    assert!(!framer.is_accepted());
}

#[test]
fn acceptance_is_answered_with_a_new_incoming_connection() {
    let mut framer = framer(1492);
    let servers: Vec<Address> = (0..20).map(|_| Address::new(4, "255.255.255.255".to_string(), 19132)).collect();
    let accepted = ConnectionRequestAccepted::new(
        Address::new(4, "198.51.100.7".to_string(), 40000),
        0,
        servers,
        NOW - 1,
        9999,
    )
    .serialize()
    .unwrap();
    framer.handle_packet_at(&plain(accepted.clone()), NOW);
    assert_eq!(delivered(&mut framer), vec![("connection_request_accepted".to_string(), accepted)]);
    assert!(framer.is_accepted());
    let sets = sent_sets(&mut framer);
    assert_eq!(sets.len(), 1);
    let reply = NewIncommingConnection::deserialize(&sets[0].frames[0].payload).unwrap();
    assert_eq!(reply.server_address, Address::new(4, "10.0.0.1".to_string(), 19132));
    assert_eq!(reply.internal_addresses.len(), 20);
    for address in &reply.internal_addresses {
        assert_eq!(*address, Address::new(4, "127.0.0.1".to_string(), 5000));
    }
    assert_eq!(reply.incoming_timestamp, NOW);
    assert_eq!(reply.server_timestamp, 9999);
}

#[test]
fn other_payloads_are_told_by_their_leading_byte() {
    let mut framer = framer(1492);
    for payload in [vec![0x03, 1], vec![0xFE, 2], vec![0x15], vec![0x42, 3]] {
        framer.handle_packet_at(&plain(payload), NOW);
    }
    let names: Vec<String> = delivered(&mut framer).into_iter().map(|event| event.0).collect();
    assert_eq!(names, vec!["connected_pong", "encapsulated", "disconnect", "unknown_packet"]);
    assert!(framer.is_disconnected());
    assert!(framer.take_outbox().is_empty());
}

#[test]
fn send_connect_submits_the_connection_request() {
    let mut framer = framer(1492);
    framer.send_connect_at(NOW);
    let sets = sent_sets(&mut framer);
    assert_eq!(sets.len(), 1);
    let frame = &sets[0].frames[0];
    assert_eq!(frame.reliability, Reliability::ReliableOrdered);
    assert_eq!(ConnectionRequest::deserialize(&frame.payload), Ok(ConnectionRequest::new(7, NOW, false)));
    framer.send_connect();
    let sets = sent_sets(&mut framer);
    let request = ConnectionRequest::deserialize(&sets[0].frames[0].payload).unwrap();
    assert!(request.timestamp > 1_000_000_000);
    assert_eq!(sets[0].sequence, 1);
}

#[test]
fn events_and_raw_datagrams_pass_through() {
    let mut framer = framer(1492);
    framer.emit_event("custom", vec![1]);
    framer.send_raw(vec![9, 9]);
    framer.send_payload(vec![0xFE]);
    let events = framer.take_events();
    assert_eq!(events.len(), 1);
    assert_eq!(events[0].name, "custom");
    assert_eq!(events[0].clone().data, vec![1]);
    let outbox = framer.take_outbox();
    assert_eq!(outbox[0], vec![9, 9]);
    assert_eq!(outbox[1], vec![0x80, 0, 0, 0, 0x60, 0, 8, 0, 0, 0, 0, 0, 0, 0, 0xFE]);
    let frame = framer.pls_frame(vec![5]);
    assert_eq!(frame.reliability, Reliability::ReliableOrdered);
    assert_eq!(frame.order_channel, Some(0));
    assert_eq!(frame.payload, vec![5]);
}

#[test]
fn frames_by_the_clock_are_taken_in() {
    let mut framer = framer(1492);
    framer.on_frameset(&FrameSet::new(0, vec![plain(vec![0xFE, 1])]));
    framer.handle_frame(&plain(vec![0xFE, 2]));
    framer.handle_ordered_frame(&ordered(0, 0, vec![0xFE, 3]));
    framer.handle_sequenced_frame(&sequenced(1, vec![0xFE, 4]));
    let mut fragment = plain(vec![0xFE, 5]);
    fragment.split_size = Some(1);
    fragment.split_id = Some(3);
    fragment.split_frame_index = Some(0);
    framer.handle_split_frame(&fragment);
    let payloads: Vec<Vec<u8>> = delivered(&mut framer).into_iter().map(|event| event.1).collect();
    assert_eq!(payloads, vec![vec![0xFE, 1], vec![0xFE, 2], vec![0xFE, 3], vec![0xFE, 4], vec![0xFE, 5]]);
}

#[test]
fn counters_start_over_after_24_bits() {
    let mut framer = framer(1492);
    framer.handle_frame_at(&sequenced(0xFF_FFFF, vec![0xFE]), NOW);
    assert_eq!(framer.input_highest_sequence_index(0), 0xFF_FFFF);
    assert_eq!(framer.take_events().len(), 1);
}

#[test]
fn split_id_starts_over_after_16_bits() {
    let mut framer = framer(400);
    let mut last = None;
    for round in 0u32..65537 {
        let mut frame = plain(vec![0xFE; 365]);
        framer.send_frame(&mut frame, Some(Priority::Immediate));
        let outbox = framer.take_outbox();
        assert_eq!(outbox.len(), 2);
        if round == 65535 || round == 65536 {
            let set = FrameSet::deserialize(&outbox[0]).unwrap();
            last = set.frames[0].split_id;
            assert_eq!(last, Some(if round == 65535 { 65535 } else { 0 }));
        }
        let first = framer.output_sequence() - 2;
        framer.handle_packet_at(&plain(Ack::new(vec![first, first + 1]).serialize().unwrap()), NOW);
    }
    assert_eq!(last, Some(0));
    assert_eq!(framer.backup_len(), 0);
    assert_eq!(framer.output_sequence(), 2 * 65537);
}

#[test]
fn noted_datagrams_come_out_in_rising_order() {
    let mut framer = framer(1492);
    for sequence in [5u32, 9, 20] {
        framer.on_frameset_at(&FrameSet::new(sequence, vec![]), NOW);
    }
    assert_eq!(framer.received_frame_sequences(), vec![5, 9, 20]);
    let mut missing: Vec<u32> = (0..5).chain(6..9).chain(10..20).collect();
    assert_eq!(framer.lost_frame_sequences(), missing);
    framer.on_frameset_at(&FrameSet::new(7, vec![]), NOW);
    missing.retain(|sequence| *sequence != 7);
    assert_eq!(framer.lost_frame_sequences(), missing);
    framer.tick();
    let outbox = framer.take_outbox();
    assert_eq!(Ack::deserialize(&outbox[0]).unwrap().sequences, vec![5, 9, 20]);
    assert_eq!(Nack::deserialize(&outbox[1]).unwrap().sequences, missing);
}

#[test]
fn link_word_is_forgotten_on_request() {
    let mut framer = framer(1492);
    framer.handle_packet_at(&plain(vec![0x15]), NOW);
    assert!(framer.is_disconnected());
    framer.forget_link();
    assert!(!framer.is_disconnected());
    assert!(!framer.is_accepted());
}

#[test]
fn nack_for_a_datagram_of_several_frames_sends_each_frame_alone() {
    let mut framer = framer(1500);
    for tag in [1u8, 2, 3] {
        let mut frame = Frame::new();
        frame.payload = vec![0xFE, tag];
        framer.send_frame(&mut frame, Some(Priority::Normal));
    }
    framer.tick();
    let mut other = Frame::new();
    other.payload = vec![0xFE, 9];
    framer.send_frame(&mut other, Some(Priority::Immediate));
    let sets = sent_sets(&mut framer);
    assert_eq!(sets.len(), 2);
    assert_eq!(sets[0].frames.len(), 3);
    assert_eq!(sets[1].frames.len(), 1);
    assert!(framer.has_backup(0) && framer.has_backup(1));

    framer.handle_packet_at(&plain(Nack::new(vec![0]).serialize().unwrap()), NOW);
    let resent = sent_sets(&mut framer);
    assert_eq!(resent.len(), 3);
    for (i, set) in resent.iter().enumerate() {
        assert_eq!(set.sequence, 2 + i as u32);
        assert_eq!(set.frames.len(), 1);
        assert_eq!(set.frames[0].payload, vec![0xFE, 1 + i as u8]);
        assert_eq!(set.frames[0].reliability, Reliability::ReliableOrdered);
    }
    assert!(!framer.has_backup(0));
    assert!(framer.has_backup(1));
    assert!(framer.has_backup(2) && framer.has_backup(3) && framer.has_backup(4));
    assert_eq!(framer.backup_len(), 4);

    framer.handle_packet_at(&plain(Nack::new(vec![1]).serialize().unwrap()), NOW);
    let again = sent_sets(&mut framer);
    assert_eq!(again.len(), 1);
    assert_eq!(again[0].sequence, 5);
    assert_eq!(again[0].frames[0].payload, vec![0xFE, 9]);
    assert!(!framer.has_backup(1));
}

#[test]
fn fragments_in_reverse_order_give_the_payload_once() {
    let mut sender = framer(1200);
    let max_body = 1200 - 36;
    let payload: Vec<u8> = (0..3 * max_body + 5)
        .map(|i| if i == 0 { 0xFE } else { (i % 251) as u8 })
        .collect();
    let mut frame = Frame::new();
    frame.payload = payload.clone();
    sender.send_frame(&mut frame, Some(Priority::Immediate));
    let sets = sent_sets(&mut sender);
    assert_eq!(sets.len(), 4);
    assert_eq!(sets[3].frames[0].payload.len(), 5);

    let mut receiver = framer(1200);
    for i in [3usize, 2, 1] {
        receiver.handle_frame_at(&sets[i].frames[0], NOW);
        assert!(receiver.take_events().is_empty());
        assert_eq!(receiver.open_splits(), 1);
    }
    receiver.handle_frame_at(&sets[0].frames[0], NOW);
    assert_eq!(delivered(&mut receiver), vec![("encapsulated".to_string(), payload)]);
    assert_eq!(receiver.open_splits(), 0);
}
