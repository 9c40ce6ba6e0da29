//! The framer as a mathematical state machine.
//!
//! [`FramerState`] holds the bookkeeping of one peer as sets, maps and sequences, and
//! each operation of the framer is a function from one state to the next. What the
//! framer wants sent is appended to `outbox`, what it wants told to the consumer to
//! `events`; nothing here touches a socket.

use crate::ack::{ascending, count_records, decode_sequences, encode_records, Ack, Nack};
use crate::address::AddressView;
use crate::endian::{encode_uint, Endianness};
use crate::frame::{FrameView, CHANNELS, INDEX_LIMIT};
use crate::frameset::FrameSetView;
use crate::proto::connected_ping::ConnectedPing;
use crate::proto::connected_pong::ConnectedPong;
use crate::proto::connection_request::ConnectionRequest;
use crate::proto::connection_request_accepted::{ConnectionRequestAcceptedView, SYSTEM_ADDRESSES};
use crate::proto::new_incomming_connection::NewIncommingConnectionView;
use crate::reliability::Reliability;
use vstd::prelude::*;

verus! {

/// How soon a frame is to leave.
#[derive(Debug, Clone, Copy, PartialEq, Eq, Hash, Structural)]
pub enum Priority {
    /// With the next full batch or the next tick.
    Normal,
    /// At once.
    Immediate,
}

/// Something the consumer is told: a name and the bytes it is about.
pub struct EventView {
    pub name: Seq<char>,
    pub data: Seq<u8>,
}

/// The bytes of a datagram that no frame can use: the frame set header and the
/// largest frame header.
pub const HEADER_ROOM: u16 = 36;

/// The bytes a frame set takes before its first frame.
pub const FRAME_SET_HEADER: usize = 4;

/// The smallest MTU of normal operation.
pub const MIN_MTU: u16 = 400;

/// The largest MTU of normal operation.
pub const MAX_MTU: u16 = 1500;

/// The most held-back frames that one arrival may release.
pub const MAX_DRAIN: usize = 1000;

/// The priority that was asked for, or the normal one where none was.
pub open spec fn priority_or_normal(priority: Option<Priority>) -> Priority {
    match priority {
        Some(priority) => priority,
        None => Priority::Normal,
    }
}

/// The successor of a 24-bit counter; after the largest value it starts over.
pub open spec fn next_index(index: u32) -> u32 {
    if index + 1 >= INDEX_LIMIT {
        0
    } else {
        (index + 1) as u32
    }
}

/// The counter `steps` successors on.
pub open spec fn advance(index: u32, steps: nat) -> u32
    decreases steps,
{
    if steps == 0 {
        index
    } else {
        next_index(advance(index, (steps - 1) as nat))
    }
}

/// The bytes that a batch of frames takes in a datagram, header included.
pub open spec fn pending_size(frames: Seq<FrameView>) -> nat
    decreases frames.len(),
{
    if frames.len() == 0 {
        FRAME_SET_HEADER as nat
    } else {
        pending_size(frames.drop_last()) + frames.last().size()
    }
}

/// The payloads of the fragments `0` to `count - 1`, joined in that order.
pub open spec fn join_payloads(fragments: Map<u32, FrameView>, count: nat) -> Seq<u8>
    decreases count,
{
    if count == 0 {
        Seq::empty()
    } else {
        join_payloads(fragments, (count - 1) as nat) + fragments[(count - 1) as u32].payload
    }
}

/// Whether the fragments are exactly those with the indices `0` to `count - 1`.
pub open spec fn fragments_complete(fragments: Map<u32, FrameView>, count: u32) -> bool {
    &&& fragments.len() == count
    &&& forall|i: u32| 0 <= i < count ==> fragments.contains_key(i)
}

/// The number of fragments that a payload of `len` bytes needs when none may carry
/// more than `max_body`.
pub open spec fn fragment_count(len: nat, max_body: nat) -> nat {
    if max_body == 0 {
        0
    } else {
        ((len + max_body - 1) / max_body as int) as nat
    }
}

/// The frame that a payload makes for the framer's own packets: reliable and ordered
/// on channel 0, with no index assigned yet.
pub open spec fn payload_frame(payload: Seq<u8>) -> FrameView {
    FrameView {
        reliable_frame_index: None,
        sequence_frame_index: None,
        ordered_frame_index: None,
        order_channel: Some(0u8),
        reliability: Reliability::ReliableOrdered,
        payload,
        split_frame_index: None,
        split_id: None,
        split_size: None,
    }
}

/// What a frame must keep to be handed to the framer for sending: its channel is one
/// of the 64, the indices it brings fit 24 bits, a fragment names its split and lies
/// within it, and the number of fragments it may need fits 32 bits.
pub open spec fn sendable(frame: FrameView) -> bool {
    &&& frame.payload.len() <= 0xFFFF_FFFF
    &&& frame.reliable_frame_index matches Some(i) ==> i < INDEX_LIMIT
    &&& frame.sequence_frame_index matches Some(i) ==> i < INDEX_LIMIT
    &&& frame.ordered_frame_index matches Some(i) ==> i < INDEX_LIMIT
    &&& frame.order_channel matches Some(c) ==> c < CHANNELS
    &&& frame.is_split() ==> frame.split_id is Some && frame.split_frame_index is Some
        && frame.split_frame_index->Some_0 < frame.split_size->Some_0
}

/// The bookkeeping of one peer.
pub struct FramerState {
    pub mtu_size: u16,
    pub guid: i64,
    /// The peer, as it is named in the packets of the handshake.
    pub server_address: AddressView,
    /// The local address, as it is named in the packets of the handshake.
    pub local_address: AddressView,
    /// The sequence number of the newest datagram taken in; -1 before the first.
    pub last_input_sequence: int,
    /// Datagrams taken in and not acknowledged yet.
    pub received: Set<u32>,
    /// Datagrams skipped over and not reported yet.
    pub lost: Set<u32>,
    /// For each channel the highest sequence index delivered.
    pub input_highest_sequence_index: Seq<u32>,
    /// For each channel the ordered index that is due next.
    pub input_order_index: Seq<u32>,
    /// For each channel the ordered frames that came before their turn.
    pub input_ordering_queue: Seq<Map<u32, FrameView>>,
    /// For each split the fragments that came so far.
    pub fragments_queue: Map<u16, Map<u32, FrameView>>,
    pub output_order_index: Seq<u32>,
    pub output_sequence_index: Seq<u32>,
    pub output_reliable_index: u32,
    pub output_split_index: u32,
    pub output_sequence: u32,
    /// The frames that wait for the next datagram, oldest first, none twice.
    pub output_frames: Seq<FrameView>,
    /// For each datagram sent and not acknowledged the frames that it carried.
    pub output_backup: Map<u32, Seq<FrameView>>,
    /// The datagrams to send, oldest first.
    pub outbox: Seq<Seq<u8>>,
    /// What to tell the consumer, oldest first.
    pub events: Seq<EventView>,
    /// The peer has accepted the connection.
    pub accepted: bool,
    /// The peer has closed the connection.
    pub disconnected: bool,
}

impl FramerState {
    /// The state of a framer that has neither sent nor received.
    pub open spec fn initial(
        mtu_size: u16,
        guid: i64,
        server_address: AddressView,
        local_address: AddressView,
    ) -> FramerState {
        FramerState {
            mtu_size,
            guid,
            server_address,
            local_address,
            last_input_sequence: -1,
            received: Set::empty(),
            lost: Set::empty(),
            input_highest_sequence_index: Seq::new(CHANNELS as nat, |i: int| 0u32),
            input_order_index: Seq::new(CHANNELS as nat, |i: int| 0u32),
            input_ordering_queue: Seq::new(CHANNELS as nat, |i: int| Map::empty()),
            fragments_queue: Map::empty(),
            output_order_index: Seq::new(CHANNELS as nat, |i: int| 0u32),
            output_sequence_index: Seq::new(CHANNELS as nat, |i: int| 0u32),
            output_reliable_index: 0,
            output_split_index: 0,
            output_sequence: 0,
            output_frames: Seq::empty(),
            output_backup: Map::empty(),
            outbox: Seq::empty(),
            events: Seq::empty(),
            accepted: false,
            disconnected: false,
        }
    }

    /// The invariants of what is fixed for the life of the framer.
    pub open spec fn base_wf(self) -> bool {
        &&& MIN_MTU <= self.mtu_size <= MAX_MTU
        &&& self.server_address.encodable()
        &&& self.local_address.encodable()
    }

    /// The invariants of the inbound bookkeeping.
    pub open spec fn input_wf(self) -> bool {
        &&& -1 <= self.last_input_sequence < INDEX_LIMIT
        &&& forall|s: u32| self.received.contains(s) ==> s <= self.last_input_sequence
        &&& forall|s: u32| self.lost.contains(s) ==> s < self.last_input_sequence
        &&& self.input_highest_sequence_index.len() == CHANNELS
        &&& self.input_order_index.len() == CHANNELS
        &&& self.input_ordering_queue.len() == CHANNELS
        &&& forall|c: int|
            0 <= c < CHANNELS ==> #[trigger] self.input_highest_sequence_index[c] < INDEX_LIMIT
        &&& forall|c: int| 0 <= c < CHANNELS ==> #[trigger] self.input_order_index[c] < INDEX_LIMIT
        &&& forall|c: int, i: u32|
            0 <= c < CHANNELS && (#[trigger] self.input_ordering_queue[c].contains_key(i))
                ==> self.input_ordering_queue[c][i].wf()
        &&& forall|id: u16, i: u32|
            self.fragments_queue.contains_key(id) && (
            #[trigger] self.fragments_queue[id].contains_key(i))
                ==> self.fragments_queue[id][i].wf()
    }

    /// The invariants of the outbound bookkeeping. Every frame that waits or is kept
    /// for a repeat keeps the invariants of a frame and fits one datagram.
    pub open spec fn output_wf(self) -> bool {
        &&& self.output_order_index.len() == CHANNELS
        &&& self.output_sequence_index.len() == CHANNELS
        &&& forall|c: int|
            0 <= c < CHANNELS ==> #[trigger] self.output_order_index[c] < INDEX_LIMIT
        &&& forall|c: int|
            0 <= c < CHANNELS ==> #[trigger] self.output_sequence_index[c] < INDEX_LIMIT
        &&& self.output_reliable_index < INDEX_LIMIT
        &&& self.output_sequence < INDEX_LIMIT
        &&& forall|i: int|
            0 <= i < self.output_frames.len() ==> (#[trigger] self.output_frames[i]).wf()
                && self.output_frames[i].encodable() && self.output_frames[i].payload.len()
                <= self.max_body()
        &&& self.output_frames.no_duplicates()
        &&& pending_size(self.output_frames) <= self.mtu_size
        &&& forall|s: u32, i: int|
            self.output_backup.contains_key(s) && 0 <= i < self.output_backup[s].len() ==> (
            #[trigger] self.output_backup[s][i]).wf() && self.output_backup[s][i].encodable()
                && self.output_backup[s][i].payload.len() <= self.max_body()
    }

    /// The invariants of the bookkeeping.
    pub open spec fn wf(self) -> bool {
        &&& self.base_wf()
        &&& self.input_wf()
        &&& self.output_wf()
    }

    /// The two states agree on everything but the outbound bookkeeping, the outbox,
    /// the events and the word on the connection.
    pub open spec fn same_input(self, other: FramerState) -> bool {
        &&& self.mtu_size == other.mtu_size
        &&& self.guid == other.guid
        &&& self.server_address == other.server_address
        &&& self.local_address == other.local_address
        &&& self.last_input_sequence == other.last_input_sequence
        &&& self.received == other.received
        &&& self.lost == other.lost
        &&& self.input_highest_sequence_index == other.input_highest_sequence_index
        &&& self.input_order_index == other.input_order_index
        &&& self.input_ordering_queue == other.input_ordering_queue
        &&& self.fragments_queue == other.fragments_queue
    }

    /// The two states agree on which datagrams have arrived and which are missing.
    pub open spec fn same_arrivals(self, other: FramerState) -> bool {
        &&& self.last_input_sequence == other.last_input_sequence
        &&& self.received == other.received
        &&& self.lost == other.lost
    }

    /// The two states agree on what the peer has said of the connection.
    pub open spec fn same_word(self, other: FramerState) -> bool {
        &&& self.accepted == other.accepted
        &&& self.disconnected == other.disconnected
    }

    /// What the peer had said of the connection in the earlier state, it has said in
    /// this one.
    pub open spec fn keeps_word(self, earlier: FramerState) -> bool {
        &&& earlier.accepted ==> self.accepted
        &&& earlier.disconnected ==> self.disconnected
    }

    /// The most bytes of payload that one frame may carry.
    pub open spec fn max_body(self) -> int {
        self.mtu_size - HEADER_ROOM
    }

    /// Tells the consumer `name` about `data`.
    pub open spec fn emit(self, name: Seq<char>, data: Seq<u8>) -> FramerState {
        FramerState { events: self.events.push(EventView { name, data }), ..self }
    }

    /// Sends up to `count` of the waiting frames, oldest first, as one datagram under
    /// the next sequence number, and keeps them as backup for that number. Nothing
    /// happens where no frame waits.
    pub open spec fn flush(self, count: nat) -> FramerState {
        if self.output_frames.len() == 0 {
            self
        } else {
            let taken = if count < self.output_frames.len() {
                count as int
            } else {
                self.output_frames.len() as int
            };
            let batch = self.output_frames.take(taken);
            FramerState {
                output_frames: self.output_frames.skip(taken),
                output_backup: self.output_backup.insert(self.output_sequence, batch),
                output_sequence: next_index(self.output_sequence),
                outbox: self.outbox.push(
                    (FrameSetView { sequence: self.output_sequence, frames: batch }).encode(),
                ),
                ..self
            }
        }
    }

    /// Puts a frame into the waiting batch: first the batch is sent where the frame
    /// would make it too large, then the frame joins it unless it waits there already,
    /// then one frame is sent where the priority is immediate.
    pub open spec fn queue_frame(self, frame: FrameView, priority: Priority) -> FramerState {
        let room = if pending_size(self.output_frames) + frame.size() > self.max_body() {
            self.flush(self.output_frames.len())
        } else {
            self
        };
        let joined = FramerState {
            output_frames: if room.output_frames.contains(frame) {
                room.output_frames
            } else {
                room.output_frames.push(frame)
            },
            ..room
        };
        if priority == Priority::Immediate {
            joined.flush(1)
        } else {
            joined
        }
    }

    /// The frame with the ordering indices that the framer assigns, and the state
    /// with the counters moved on. A sequenced frame takes the current ordered index
    /// of its channel and the next sequence index; an ordered frame takes the next
    /// ordered index and starts the sequence indices of its channel over.
    pub open spec fn assign_order(self, frame: FrameView) -> (FramerState, FrameView) {
        let c = frame.channel() as int;
        if frame.reliability.spec_is_sequenced() {
            (
                FramerState {
                    output_sequence_index: self.output_sequence_index.update(
                        c,
                        next_index(self.output_sequence_index[c]),
                    ),
                    ..self
                },
                FrameView {
                    ordered_frame_index: Some(self.output_order_index[c]),
                    sequence_frame_index: Some(self.output_sequence_index[c]),
                    order_channel: Some(c as u8),
                    ..frame
                },
            )
        } else if frame.reliability.spec_is_ordered() {
            (
                FramerState {
                    output_order_index: self.output_order_index.update(
                        c,
                        next_index(self.output_order_index[c]),
                    ),
                    output_sequence_index: self.output_sequence_index.update(c, 0),
                    ..self
                },
                FrameView {
                    ordered_frame_index: Some(self.output_order_index[c]),
                    order_channel: Some(c as u8),
                    ..frame
                },
            )
        } else {
            (self, frame)
        }
    }

    /// The frame with the next reliable index, where it is reliable, and the state
    /// with the counter moved on.
    pub open spec fn assign_reliable(self, frame: FrameView) -> (FramerState, FrameView) {
        if frame.reliability.spec_is_reliable() {
            (
                FramerState {
                    output_reliable_index: next_index(self.output_reliable_index),
                    ..self
                },
                FrameView { reliable_frame_index: Some(self.output_reliable_index), ..frame },
            )
        } else {
            (self, frame)
        }
    }

    /// Fragment `index` of `count` of the frame: its slice of the payload under the
    /// split `id`, with the frame's own ordering.
    pub open spec fn fragment(self, frame: FrameView, id: u16, index: nat, count: nat) -> FrameView {
        let start = index * self.max_body();
        let end = if start + self.max_body() < frame.payload.len() {
            start + self.max_body()
        } else {
            frame.payload.len() as int
        };
        FrameView {
            payload: frame.payload.subrange(start, end),
            split_id: Some(id),
            split_frame_index: Some(index as u32),
            split_size: Some(count as u32),
            reliable_frame_index: None,
            ..frame
        }
    }

    /// Queues the first `upto` fragments of the frame, each with its own reliable
    /// index where the frame is reliable.
    pub open spec fn send_fragments(
        self,
        frame: FrameView,
        id: u16,
        count: nat,
        upto: nat,
        priority: Priority,
    ) -> FramerState
        decreases upto,
    {
        if upto == 0 {
            self
        } else {
            let before = self.send_fragments(frame, id, count, (upto - 1) as nat, priority);
            let (counted, fragment) = before.assign_reliable(
                before.fragment(frame, id, (upto - 1) as nat, count),
            );
            counted.queue_frame(fragment, priority)
        }
    }

    /// Submits a frame: it is given its indices and queued, whole where its payload
    /// fits one frame, else in fragments under the next split id.
    pub open spec fn send_frame(self, frame: FrameView, priority: Priority) -> FramerState {
        let (ordered, indexed) = self.assign_order(frame);
        if indexed.payload.len() <= self.max_body() {
            let (counted, ready) = ordered.assign_reliable(indexed);
            counted.queue_frame(ready, priority)
        } else {
            let count = fragment_count(indexed.payload.len(), self.max_body() as nat);
            let id = (ordered.output_split_index % 0x1_0000) as u16;
            let started = FramerState {
                output_split_index: if ordered.output_split_index == u32::MAX {
                    0
                } else {
                    (ordered.output_split_index + 1) as u32
                },
                ..ordered
            };
            started.send_fragments(indexed, id, count, count, priority)
        }
    }

    /// The frame as it stands once it was submitted: with its ordering indices, and
    /// with its reliable index where it went out whole.
    pub open spec fn stamped(self, frame: FrameView) -> FrameView {
        let (ordered, indexed) = self.assign_order(frame);
        if indexed.payload.len() <= self.max_body() {
            ordered.assign_reliable(indexed).1
        } else {
            indexed
        }
    }

    /// Submits a payload as a reliable ordered frame on channel 0, to leave at once.
    pub open spec fn send_payload(self, payload: Seq<u8>) -> FramerState {
        self.send_frame(payload_frame(payload), Priority::Immediate)
    }

    /// Submits the frames again, in order, each to leave at once.
    pub open spec fn resend_all(self, frames: Seq<FrameView>) -> FramerState
        decreases frames.len(),
    {
        if frames.len() == 0 {
            self
        } else {
            self.resend_all(frames.drop_last()).send_frame(frames.last(), Priority::Immediate)
        }
    }

    /// Answers a report that datagram `sequence` is missing: where its frames are
    /// kept, they are submitted again, and after that nothing is kept under that
    /// number.
    pub open spec fn nack_one(self, sequence: u32) -> FramerState {
        if self.output_backup.contains_key(sequence) {
            let resent = (FramerState {
                output_backup: self.output_backup.remove(sequence),
                ..self
            }).resend_all(self.output_backup[sequence]);
            FramerState { output_backup: resent.output_backup.remove(sequence), ..resent }
        } else {
            self
        }
    }

    /// Answers the reports of missing datagrams one after the other.
    pub open spec fn nack_all(self, sequences: Seq<u32>) -> FramerState
        decreases sequences.len(),
    {
        if sequences.len() == 0 {
            self
        } else {
            self.nack_all(sequences.drop_last()).nack_one(sequences.last())
        }
    }

    /// Drops the backup of every acknowledged datagram.
    pub open spec fn ack_all(self, sequences: Seq<u32>) -> FramerState {
        FramerState { output_backup: self.output_backup.remove_keys(sequences.to_set()), ..self }
    }

    /// The answer to an acceptance: the server's address, twenty times the local
    /// address, the local time and the time the server sent.
    pub open spec fn acceptance_reply(self, server_send_time: i64, now: i64)
        -> NewIncommingConnectionView {
        NewIncommingConnectionView {
            server_address: self.server_address,
            internal_addresses: Seq::new(SYSTEM_ADDRESSES as nat, |i: int| self.local_address),
            incoming_timestamp: now,
            server_timestamp: server_send_time,
        }
    }

    /// Takes in a payload that has passed reassembly and ordering, going by its
    /// leading byte. A payload that does not read as the packet its leading byte
    /// announces is dropped; so is an empty one.
    pub open spec fn handle_packet(self, frame: FrameView, now: i64) -> FramerState {
        let payload = frame.payload;
        if payload.len() == 0 {
            self
        } else if payload[0] == ConnectedPing::ID {
            match ConnectedPing::decode(payload) {
                Ok(ping) => self.emit("connected_ping"@, payload).send_payload(
                    (ConnectedPong { ping_timestamp: ping.timestamp, pong_timestamp: now }).encode(),
                ),
                Err(_) => self,
            }
        } else if payload[0] == ConnectedPong::ID {
            self.emit("connected_pong"@, payload)
        } else if payload[0] == 0x10 {
            match ConnectionRequestAcceptedView::decode(payload) {
                Ok(accepted) => (FramerState {
                    accepted: true,
                    ..self.emit("connection_request_accepted"@, payload)
                }).send_payload(self.acceptance_reply(accepted.server_send_time, now).encode()),
                Err(_) => self,
            }
        } else if payload[0] == Ack::ID {
            match decode_sequences(Ack::ID, payload) {
                Ok(sequences) => self.ack_all(sequences),
                Err(_) => self,
            }
        } else if payload[0] == Nack::ID {
            match decode_sequences(Nack::ID, payload) {
                Ok(sequences) => self.nack_all(sequences),
                Err(_) => self,
            }
        } else if payload[0] == 0xFE {
            self.emit("encapsulated"@, payload)
        } else if payload[0] == 0x15 {
            FramerState { disconnected: true, ..self.emit("disconnect"@, payload) }
        } else {
            self.emit("unknown_packet"@, payload)
        }
    }

    /// Takes in a sequenced frame: it is delivered where its sequence index is above
    /// the highest that its channel has seen, which it then becomes; else dropped.
    pub open spec fn handle_sequenced_frame(self, frame: FrameView, now: i64) -> FramerState {
        let c = frame.channel() as int;
        let index = frame.sequence_frame_index->Some_0;
        if index > self.input_highest_sequence_index[c] {
            (FramerState {
                input_highest_sequence_index: self.input_highest_sequence_index.update(c, index),
                ..self
            }).handle_packet(frame, now)
        } else {
            self
        }
    }

    /// Delivers the held-back frames of channel `c` that are due, one after the
    /// other, at most `budget` of them.
    pub open spec fn drain(self, c: int, budget: nat, now: i64) -> FramerState
        decreases budget,
    {
        let due = self.input_order_index[c];
        if budget == 0 || !self.input_ordering_queue[c].contains_key(due) {
            self
        } else {
            let frame = self.input_ordering_queue[c][due];
            let taken = FramerState {
                input_ordering_queue: self.input_ordering_queue.update(
                    c,
                    self.input_ordering_queue[c].remove(due),
                ),
                ..self
            };
            let delivered = taken.handle_packet(frame, now);
            (FramerState {
                input_order_index: delivered.input_order_index.update(c, next_index(due)),
                ..delivered
            }).drain(c, (budget - 1) as nat, now)
        }
    }

    /// Takes in an ordered frame: the one that is due is delivered, and after it the
    /// held-back frames that follow it without a gap; one that comes early is held
    /// back; one that comes late is dropped.
    pub open spec fn handle_ordered_frame(self, frame: FrameView, now: i64) -> FramerState {
        let c = frame.channel() as int;
        let index = frame.ordered_frame_index->Some_0;
        let due = self.input_order_index[c];
        if index == due {
            let delivered = self.handle_packet(frame, now);
            (FramerState {
                input_order_index: delivered.input_order_index.update(c, next_index(due)),
                ..delivered
            }).drain(c, MAX_DRAIN as nat, now)
        } else if index > due {
            FramerState {
                input_ordering_queue: self.input_ordering_queue.update(
                    c,
                    self.input_ordering_queue[c].insert(index, frame),
                ),
                ..self
            }
        } else {
            self
        }
    }

    /// Takes in a frame that is whole: by its sequence index, by its ordered index,
    /// or at once.
    pub open spec fn dispatch(self, frame: FrameView, now: i64) -> FramerState {
        if frame.reliability.spec_is_sequenced() {
            self.handle_sequenced_frame(frame, now)
        } else if frame.reliability.spec_is_ordered() {
            self.handle_ordered_frame(frame, now)
        } else {
            self.handle_packet(frame, now)
        }
    }

    /// The fragments of a split once `frame` has joined them; a fragment whose index
    /// is there already is ignored.
    pub open spec fn fragments_with(self, frame: FrameView) -> Map<u32, FrameView> {
        let id = frame.split_id->Some_0;
        let index = frame.split_frame_index->Some_0;
        let so_far = if self.fragments_queue.contains_key(id) {
            self.fragments_queue[id]
        } else {
            Map::empty()
        };
        if so_far.contains_key(index) {
            so_far
        } else {
            so_far.insert(index, frame)
        }
    }

    /// The frame that the complete fragments of a split make: the payloads joined in
    /// the order of their indices, under the reliability and the indices of the
    /// first fragment.
    pub open spec fn reassemble(fragments: Map<u32, FrameView>, count: u32) -> FrameView {
        FrameView {
            payload: join_payloads(fragments, count as nat),
            split_id: None,
            split_frame_index: None,
            split_size: None,
            ..fragments[0]
        }
    }

    /// Takes in a fragment: where it completes its split, the fragments leave the
    /// table and the reassembled frame is taken in; else it waits in the table.
    pub open spec fn handle_split_frame(self, frame: FrameView, now: i64) -> FramerState {
        let id = frame.split_id->Some_0;
        let count = frame.split_size->Some_0;
        let fragments = self.fragments_with(frame);
        if fragments_complete(fragments, count) {
            (FramerState { fragments_queue: self.fragments_queue.remove(id), ..self }).dispatch(
                FramerState::reassemble(fragments, count),
                now,
            )
        } else {
            FramerState { fragments_queue: self.fragments_queue.insert(id, fragments), ..self }
        }
    }

    /// Takes in one frame of a datagram.
    pub open spec fn handle_frame(self, frame: FrameView, now: i64) -> FramerState {
        if frame.is_split() {
            self.handle_split_frame(frame, now)
        } else {
            self.dispatch(frame, now)
        }
    }

    /// Takes in the frames of a datagram, in order.
    pub open spec fn handle_frames(self, frames: Seq<FrameView>, now: i64) -> FramerState
        decreases frames.len(),
    {
        if frames.len() == 0 {
            self
        } else {
            self.handle_frames(frames.drop_last(), now).handle_frame(frames.last(), now)
        }
    }

    /// Takes in a datagram. One that was taken in before is dropped. One whose
    /// sequence number the framer has passed is struck from the missing and dropped.
    /// Else it is noted as received, every number skipped since the newest is noted
    /// as missing unless it was received, and its frames are taken in.
    pub open spec fn on_frameset(self, set: FrameSetView, now: i64) -> FramerState {
        let sequence = set.sequence;
        if self.received.contains(sequence) {
            self
        } else if sequence <= self.last_input_sequence {
            FramerState { lost: self.lost.remove(sequence), ..self }
        } else {
            let received = self.received.insert(sequence);
            (FramerState {
                received,
                lost: self.lost.remove(sequence).union(
                    Set::new(
                        |g: u32|
                            self.last_input_sequence < g < sequence && !received.contains(g),
                    ),
                ),
                last_input_sequence: sequence as int,
                ..self
            }).handle_frames(set.frames, now)
        }
    }

    /// The datagram that reports the numbers of `set` under the leading byte `id`.
    pub open spec fn report(id: u8, set: Set<u32>) -> Seq<u8> {
        let sorted = ascending(set);
        seq![id] + encode_uint(count_records(sorted), 2, Endianness::Big) + encode_records(sorted)
    }

    /// Reports the numbers of `set`, where there are any and their records can be
    /// counted in 16 bits.
    pub open spec fn send_report(self, id: u8, set: Set<u32>) -> FramerState {
        if set != Set::<u32>::empty() && count_records(ascending(set)) <= 0xFFFF {
            FramerState { outbox: self.outbox.push(FramerState::report(id, set)), ..self }
        } else {
            self
        }
    }

    /// The periodic work: acknowledge what was received, report what is missing, and
    /// send what waits.
    pub open spec fn tick(self) -> FramerState {
        let acked = FramerState { received: Set::empty(), ..self.send_report(Ack::ID, self.received) };
        let nacked = FramerState { lost: Set::empty(), ..acked.send_report(Nack::ID, acked.lost) };
        nacked.flush(nacked.output_frames.len())
    }

    /// Forgets what the peer has said of the connection: a step of the handshake
    /// waits for a new word.
    pub open spec fn forget_link(self) -> FramerState {
        FramerState { accepted: false, disconnected: false, ..self }
    }

    /// Puts a datagram that was made elsewhere into the outbox.
    pub open spec fn send_raw(self, datagram: Seq<u8>) -> FramerState {
        FramerState { outbox: self.outbox.push(datagram), ..self }
    }

    /// Asks the peer to open the connection proper.
    pub open spec fn send_connect(self, now: i64) -> FramerState {
        self.send_payload(
            (ConnectionRequest { guid: self.guid, timestamp: now, security: false }).encode(),
        )
    }
}

} // verus!
