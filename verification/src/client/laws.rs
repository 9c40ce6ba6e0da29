//! What holds of the framer whatever it is fed.

use crate::ack::{
    count_records, decode_sequences, lemma_ascending_of_increasing, lemma_sequences_round_trip,
    strictly_increasing, Ack, Nack,
};
use crate::address::laws::{lemma_address_len, lemma_ipv4_addresses_len};
use crate::client::invariants::{
    lemma_acceptance_reply, lemma_assign_order, lemma_clear_split, lemma_drop_backup, lemma_flush,
    lemma_fragment, lemma_fragment_count, lemma_fragments_with, lemma_handle_frames,
    lemma_handle_packet, lemma_move_due, lemma_nack_all, lemma_payload_frame, lemma_pong_len,
    lemma_reassemble, lemma_send_fragments, lemma_send_frame, lemma_send_payload, lemma_take_held,
};
use crate::client::model::{
    advance, fragment_count, fragments_complete, join_payloads, next_index, payload_frame,
    sendable, EventView, FramerState, Priority, MAX_DRAIN,
};
use crate::endian::{lemma_encode_uint_len, to_unsigned, Endianness};
use crate::frame::{FrameView, CHANNELS, INDEX_LIMIT};
use crate::frameset::FrameSetView;
use crate::packet::PacketError;
use crate::proto::connected_ping::ConnectedPing;
use crate::proto::connected_pong::ConnectedPong;
use crate::proto::connection_request_accepted::ConnectionRequestAcceptedView;
use vstd::prelude::*;

verus! {

/// Taking in a payload never takes back what the peer has said of the connection,
/// and only an acceptance or a disconnect adds to it.
pub proof fn lemma_handle_packet_keeps_word(state: FramerState, frame: FrameView, now: i64)
    requires
        state.base_wf(),
        state.output_wf(),
    ensures
        state.handle_packet(frame, now).keeps_word(state),
        frame.payload.len() == 0 || (frame.payload[0] != 0x10 && frame.payload[0] != 0x15)
            ==> state.handle_packet(frame, now).same_word(state),
{
    let payload = frame.payload;
    if payload.len() == 0 {
    } else if payload[0] == ConnectedPing::ID {
        match ConnectedPing::decode(payload) {
            Ok(ping) => {
                let pong = ConnectedPong { ping_timestamp: ping.timestamp, pong_timestamp: now };
                lemma_pong_len(pong);
                lemma_send_payload(state.emit("connected_ping"@, payload), pong.encode());
            },
            Err(_) => {},
        }
    } else if payload[0] == 0x10 {
        match ConnectionRequestAcceptedView::decode(payload) {
            Ok(accepted) => {
                lemma_acceptance_reply(state, accepted.server_send_time, now);
                let told = FramerState {
                    accepted: true,
                    ..state.emit("connection_request_accepted"@, payload)
                };
                lemma_send_payload(
                    told,
                    state.acceptance_reply(accepted.server_send_time, now).encode(),
                );
            },
            Err(_) => {},
        }
    } else if payload[0] == Nack::ID {
        match decode_sequences(Nack::ID, payload) {
            Ok(sequences) => {
                lemma_nack_all(state, sequences);
            },
            Err(_) => {},
        }
    } else {
    }
}

/// Delivering held-back frames does not touch the note of arrivals.
pub proof fn lemma_drain_keeps_arrivals(state: FramerState, c: int, budget: nat, now: i64)
    requires
        state.wf(),
        0 <= c < CHANNELS,
    ensures
        state.drain(c, budget, now).same_arrivals(state),
        state.drain(c, budget, now).keeps_word(state),
    decreases budget,
{
    let due = state.input_order_index[c];
    if budget == 0 || !state.input_ordering_queue[c].contains_key(due) {
    } else {
        let frame = state.input_ordering_queue[c][due];
        let taken = FramerState {
            input_ordering_queue: state.input_ordering_queue.update(
                c,
                state.input_ordering_queue[c].remove(due),
            ),
            ..state
        };
        lemma_take_held(state, c, due);
        lemma_handle_packet(taken, frame, now);
        lemma_handle_packet_keeps_word(taken, frame, now);
        let delivered = taken.handle_packet(frame, now);
        let moved = FramerState {
            input_order_index: delivered.input_order_index.update(c, next_index(due)),
            ..delivered
        };
        lemma_move_due(delivered, c, next_index(due));
        lemma_drain_keeps_arrivals(moved, c, (budget - 1) as nat, now);
    }
}

/// Taking in a whole frame does not touch the note of arrivals.
pub proof fn lemma_dispatch_keeps_arrivals(state: FramerState, frame: FrameView, now: i64)
    requires
        state.wf(),
        frame.wf(),
    ensures
        state.dispatch(frame, now).same_arrivals(state),
        state.dispatch(frame, now).keeps_word(state),
{
    let c = frame.channel() as int;
    if frame.reliability.spec_is_sequenced() {
        let index = frame.sequence_frame_index->Some_0;
        if index > state.input_highest_sequence_index[c] {
            let raised = FramerState {
                input_highest_sequence_index: state.input_highest_sequence_index.update(c, index),
                ..state
            };
            lemma_handle_packet(raised, frame, now);
            lemma_handle_packet_keeps_word(raised, frame, now);
        }
    } else if frame.reliability.spec_is_ordered() {
        let index = frame.ordered_frame_index->Some_0;
        let due = state.input_order_index[c];
        if index == due {
            lemma_handle_packet(state, frame, now);
            lemma_handle_packet_keeps_word(state, frame, now);
            let delivered = state.handle_packet(frame, now);
            let moved = FramerState {
                input_order_index: delivered.input_order_index.update(c, next_index(due)),
                ..delivered
            };
            lemma_move_due(delivered, c, next_index(due));
            lemma_drain_keeps_arrivals(moved, c, MAX_DRAIN as nat, now);
        }
    } else {
        lemma_handle_packet(state, frame, now);
        lemma_handle_packet_keeps_word(state, frame, now);
    }
}

/// Taking in a frame does not touch the note of arrivals.
pub proof fn lemma_handle_frame_keeps_arrivals(state: FramerState, frame: FrameView, now: i64)
    requires
        state.wf(),
        frame.wf(),
    ensures
        state.handle_frame(frame, now).same_arrivals(state),
        state.handle_frame(frame, now).keeps_word(state),
{
    if frame.is_split() {
        let id = frame.split_id->Some_0;
        let count = frame.split_size->Some_0;
        let fragments = state.fragments_with(frame);
        if fragments_complete(fragments, count) {
            lemma_fragments_with(state, frame);
            lemma_clear_split(state, id);
            lemma_reassemble(fragments, count);
            let cleared = FramerState { fragments_queue: state.fragments_queue.remove(id), ..state };
            lemma_dispatch_keeps_arrivals(cleared, FramerState::reassemble(fragments, count), now);
        }
    } else {
        lemma_dispatch_keeps_arrivals(state, frame, now);
    }
}

/// Taking in frames does not touch the note of arrivals.
pub proof fn lemma_handle_frames_keeps_arrivals(
    state: FramerState,
    frames: Seq<FrameView>,
    now: i64,
)
    requires
        state.wf(),
        forall|i: int| 0 <= i < frames.len() ==> (#[trigger] frames[i]).wf(),
    ensures
        state.handle_frames(frames, now).same_arrivals(state),
        state.handle_frames(frames, now).keeps_word(state),
    decreases frames.len(),
{
    if frames.len() > 0 {
        let shorter = frames.drop_last();
        assert forall|i: int| 0 <= i < shorter.len() implies (#[trigger] shorter[i]).wf() by {
            assert(shorter[i] == frames[i]);
        }
        lemma_handle_frames_keeps_arrivals(state, shorter, now);
        lemma_handle_frames(state, shorter, now);
        assert(frames[frames.len() - 1].wf());
        lemma_handle_frame_keeps_arrivals(state.handle_frames(shorter, now), frames.last(), now);
    }
}

/// A datagram that is fed twice is taken in once: the second feeding changes
/// nothing, whenever it comes.
pub proof fn lemma_duplicate_frame_set(state: FramerState, set: FrameSetView, first: i64, second: i64)
    requires
        state.wf(),
        set.wf(),
    ensures
        state.on_frameset(set, first).on_frameset(set, second) == state.on_frameset(set, first),
{
    let sequence = set.sequence;
    let once = state.on_frameset(set, first);
    if state.received.contains(sequence) {
    } else if sequence <= state.last_input_sequence {
        assert(state.lost.remove(sequence).remove(sequence) =~= state.lost.remove(sequence));
    } else {
        let received = state.received.insert(sequence);
        let noted = FramerState {
            received,
            lost: state.lost.remove(sequence).union(
                Set::new(
                    |g: u32| state.last_input_sequence < g < sequence && !received.contains(g),
                ),
            ),
            last_input_sequence: sequence as int,
            ..state
        };
        assert(noted.wf()) by {
            assert(noted.input_wf());
        }
        lemma_handle_frames_keeps_arrivals(noted, set.frames, first);
        assert(once.received.contains(sequence));
    }
}

/// A datagram that is fed again after a tick is dropped too: what the tick has
/// acknowledged is not taken in twice.
pub proof fn lemma_duplicate_after_tick(state: FramerState, set: FrameSetView, first: i64, second: i64)
    requires
        state.wf(),
        set.wf(),
        !state.received.contains(set.sequence),
        set.sequence > state.last_input_sequence,
    ensures
        state.on_frameset(set, first).tick().on_frameset(set, second) == state.on_frameset(
            set,
            first,
        ).tick(),
{
    let sequence = set.sequence;
    let received = state.received.insert(sequence);
    let noted = FramerState {
        received,
        lost: state.lost.remove(sequence).union(
            Set::new(|g: u32| state.last_input_sequence < g < sequence && !received.contains(g)),
        ),
        last_input_sequence: sequence as int,
        ..state
    };
    assert(noted.wf()) by {
        assert(noted.input_wf());
    }
    lemma_handle_frames_keeps_arrivals(noted, set.frames, first);
    let once = state.on_frameset(set, first);
    let ticked = once.tick();
    assert(ticked.last_input_sequence == sequence);
    assert(ticked.lost =~= Set::<u32>::empty());
    assert(ticked.received =~= Set::<u32>::empty());
    assert(ticked.lost.remove(sequence) =~= ticked.lost);
}

/// When a datagram arrives that is newer than the newest taken in, every number
/// skipped over is noted as missing, and the number of the datagram as received.
pub proof fn lemma_gap_detection(state: FramerState, set: FrameSetView, now: i64, gap: u32)
    requires
        state.wf(),
        set.wf(),
        set.sequence > state.last_input_sequence,
        state.last_input_sequence < gap < set.sequence,
    ensures
        state.on_frameset(set, now).lost.contains(gap),
        state.on_frameset(set, now).received.contains(set.sequence),
        state.on_frameset(set, now).last_input_sequence == set.sequence,
{
    let sequence = set.sequence;
    assert(!state.received.contains(sequence));
    assert(!state.received.contains(gap));
    let received = state.received.insert(sequence);
    let noted = FramerState {
        received,
        lost: state.lost.remove(sequence).union(
            Set::new(|g: u32| state.last_input_sequence < g < sequence && !received.contains(g)),
        ),
        last_input_sequence: sequence as int,
        ..state
    };
    assert(noted.wf()) by {
        assert(noted.input_wf());
    }
    assert(noted.lost.contains(gap));
    lemma_handle_frames_keeps_arrivals(noted, set.frames, now);
}

/// The report that a tick sends reads back as the numbers it reports, in rising
/// order.
pub proof fn lemma_report_reads_back(id: u8, numbers: Seq<u32>)
    requires
        strictly_increasing(numbers),
        forall|i: int| 0 <= i < numbers.len() ==> numbers[i] < INDEX_LIMIT,
        count_records(numbers) <= 0xFFFF,
    ensures
        decode_sequences(id, FramerState::report(id, numbers.to_set())) == Ok::<
            Seq<u32>,
            PacketError,
        >(numbers),
{
    lemma_ascending_of_increasing(numbers);
    lemma_sequences_round_trip(id, numbers);
}

/// The first `upto` fragments of a frame, by their indices.
pub open spec fn fragments_of(
    state: FramerState,
    frame: FrameView,
    id: u16,
    count: nat,
    upto: nat,
) -> Map<u32, FrameView> {
    Map::new(
        |i: u32| i < upto,
        |i: u32| state.fragment(frame, id, i as nat, count),
    )
}

/// The payloads of the fragments of a frame, joined in the order of their indices,
/// are the payload of the frame.
pub proof fn lemma_fragments_rejoin(state: FramerState, frame: FrameView, id: u16)
    requires
        state.base_wf(),
        frame.payload.len() <= 0xFFFF_FFFF,
        frame.payload.len() > state.max_body(),
    ensures
        ({
            let count = fragment_count(frame.payload.len(), state.max_body() as nat);
            join_payloads(fragments_of(state, frame, id, count, count), count) == frame.payload
        }),
{
    let count = fragment_count(frame.payload.len(), state.max_body() as nat);
    lemma_fragment_count(frame.payload.len(), state.max_body() as nat);
    lemma_join_prefix(state, frame, id, count, count);
    assert(count * state.max_body() >= frame.payload.len());
    assert(frame.payload.subrange(0, frame.payload.len() as int) =~= frame.payload);
}

/// The payloads of the first `upto` fragments, joined, are the start of the payload.
proof fn lemma_join_prefix(state: FramerState, frame: FrameView, id: u16, count: nat, upto: nat)
    requires
        state.base_wf(),
        upto <= count <= u32::MAX,
        (count - 1) * state.max_body() < frame.payload.len(),
    ensures
        join_payloads(fragments_of(state, frame, id, count, count), upto) == frame.payload.subrange(
            0,
            if upto * state.max_body() < frame.payload.len() {
                upto * state.max_body()
            } else {
                frame.payload.len() as int
            },
        ),
    decreases upto,
{
    let all = fragments_of(state, frame, id, count, count);
    let body = state.max_body();
    let len = frame.payload.len() as int;
    if upto == 0 {
        assert(0 * body == 0) by (nonlinear_arith);
        assert(frame.payload.subrange(0, 0) =~= Seq::<u8>::empty());
    } else {
        lemma_join_prefix(state, frame, id, count, (upto - 1) as nat);
        let index = (upto - 1) as nat;
        let start = index * body;
        assert(start + body == upto * body) by (nonlinear_arith)
            requires
                start == (upto - 1) * body,
        ;
        assert(0 <= start <= (count - 1) * body) by (nonlinear_arith)
            requires
                start == (upto - 1) * body,
                1 <= upto <= count,
                body > 0,
        ;
        assert(all.contains_key(index as u32));
        let piece = all[index as u32];
        assert(piece == state.fragment(frame, id, index, count));
        let end = if start + body < len {
            start + body
        } else {
            len
        };
        assert(piece.payload == frame.payload.subrange(start, end));
        assert(frame.payload.subrange(0, start) + frame.payload.subrange(start, end)
            =~= frame.payload.subrange(0, end));
    }
}

/// On a sequenced channel the newest wins: a frame whose sequence index is not above
/// the highest seen changes nothing, and any other becomes the highest seen.
pub proof fn lemma_sequenced_newest_wins(state: FramerState, frame: FrameView, now: i64)
    requires
        state.wf(),
        frame.wf(),
        frame.reliability.spec_is_sequenced(),
    ensures
        ({
            let c = frame.channel() as int;
            let index = frame.sequence_frame_index->Some_0;
            let after = state.handle_sequenced_frame(frame, now);
            &&& index <= state.input_highest_sequence_index[c] ==> after == state
            &&& index > state.input_highest_sequence_index[c]
                ==> after.input_highest_sequence_index[c] == index
            &&& after.input_highest_sequence_index[c] >= state.input_highest_sequence_index[c]
            &&& forall|other: int|
                0 <= other < CHANNELS && other != c ==> after.input_highest_sequence_index[other]
                    == state.input_highest_sequence_index[other]
        }),
{
    let c = frame.channel() as int;
    let index = frame.sequence_frame_index->Some_0;
    if index > state.input_highest_sequence_index[c] {
        let raised = FramerState {
            input_highest_sequence_index: state.input_highest_sequence_index.update(c, index),
            ..state
        };
        lemma_handle_packet(raised, frame, now);
        lemma_handle_packet_keeps_word(raised, frame, now);
    }
}

/// Delivering held-back frames with a budget that covers them all leaves no frame
/// waiting that is due, and adds none to those that wait.
pub proof fn lemma_drain_leaves_none_due(state: FramerState, c: int, budget: nat, now: i64)
    requires
        state.wf(),
        0 <= c < CHANNELS,
        state.input_ordering_queue[c].dom().finite(),
        state.input_ordering_queue[c].len() <= budget,
    ensures
        ({
            let after = state.drain(c, budget, now);
            &&& !after.input_ordering_queue[c].contains_key(after.input_order_index[c])
            &&& after.input_ordering_queue[c].dom().finite()
            &&& after.input_ordering_queue[c].len() <= state.input_ordering_queue[c].len()
        }),
    decreases budget,
{
    let due = state.input_order_index[c];
    let held = state.input_ordering_queue[c];
    if !held.contains_key(due) {
    } else {
        assert(held.len() > 0) by {
            if held.len() == 0 {
                assert(held.dom() =~= Set::<u32>::empty());
            }
        }
        let frame = held[due];
        let taken = FramerState {
            input_ordering_queue: state.input_ordering_queue.update(c, held.remove(due)),
            ..state
        };
        held.lemma_remove_key_len(due);
        lemma_take_held(state, c, due);
        lemma_handle_packet(taken, frame, now);
        lemma_handle_packet_keeps_word(taken, frame, now);
        let delivered = taken.handle_packet(frame, now);
        let moved = FramerState {
            input_order_index: delivered.input_order_index.update(c, next_index(due)),
            ..delivered
        };
        lemma_move_due(delivered, c, next_index(due));
        lemma_drain_leaves_none_due(moved, c, (budget - 1) as nat, now);
    }
}

/// No ordered frame waits longer than it must: where no frame that is due waits on
/// the channel of an ordered frame and fewer than a thousand wait there at all, the
/// same holds once the frame is taken in.
pub proof fn lemma_no_due_frame_waits(state: FramerState, frame: FrameView, now: i64)
    requires
        state.wf(),
        frame.wf(),
        frame.reliability.spec_is_ordered(),
        state.input_ordering_queue[frame.channel() as int].dom().finite(),
        state.input_ordering_queue[frame.channel() as int].len() <= MAX_DRAIN,
        !state.input_ordering_queue[frame.channel() as int].contains_key(
            state.input_order_index[frame.channel() as int],
        ),
    ensures
        ({
            let c = frame.channel() as int;
            let after = state.handle_ordered_frame(frame, now);
            &&& !after.input_ordering_queue[c].contains_key(after.input_order_index[c])
            &&& after.input_ordering_queue[c].dom().finite()
        }),
{
    let c = frame.channel() as int;
    let index = frame.ordered_frame_index->Some_0;
    let due = state.input_order_index[c];
    if index == due {
        lemma_handle_packet(state, frame, now);
        lemma_handle_packet_keeps_word(state, frame, now);
        let delivered = state.handle_packet(frame, now);
        let moved = FramerState {
            input_order_index: delivered.input_order_index.update(c, next_index(due)),
            ..delivered
        };
        lemma_move_due(delivered, c, next_index(due));
        lemma_drain_leaves_none_due(moved, c, MAX_DRAIN as nat, now);
    }
}

/// An acknowledgement clears the backup of the datagrams it names and of no other.
pub proof fn lemma_ack_clears_only_the_named(state: FramerState, sequences: Seq<u32>, other: u32)
    ensures
        state.ack_all(sequences).output_backup.contains_key(other) == (
        state.output_backup.contains_key(other) && !sequences.contains(other)),
        state.ack_all(sequences).output_backup.contains_key(other) ==> state.ack_all(
            sequences,
        ).output_backup[other] == state.output_backup[other],
{
}

/// After a negative acknowledgement nothing is kept under the number it names, and
/// where nothing was kept under it nothing changes.
pub proof fn lemma_nack_drops_the_named(state: FramerState, sequence: u32)
    ensures
        !state.nack_one(sequence).output_backup.contains_key(sequence),
        !state.output_backup.contains_key(sequence) ==> state.nack_one(sequence) == state,
{
}

/// Taking in a datagram never takes back what the peer has said of the connection.
pub proof fn lemma_on_frameset_keeps_word(state: FramerState, set: FrameSetView, now: i64)
    requires
        state.wf(),
        set.wf(),
    ensures
        state.on_frameset(set, now).keeps_word(state),
{
    let sequence = set.sequence;
    if state.received.contains(sequence) {
    } else if sequence <= state.last_input_sequence {
    } else {
        let received = state.received.insert(sequence);
        let noted = FramerState {
            received,
            lost: state.lost.remove(sequence).union(
                Set::new(
                    |g: u32| state.last_input_sequence < g < sequence && !received.contains(g),
                ),
            ),
            last_input_sequence: sequence as int,
            ..state
        };
        assert(noted.wf()) by {
            assert(noted.input_wf());
        }
        lemma_handle_frames_keeps_arrivals(noted, set.frames, now);
    }
}

/// The periodic work does not touch what the peer has said of the connection.
pub proof fn lemma_tick_keeps_word(state: FramerState)
    requires
        state.wf(),
    ensures
        state.tick().same_word(state),
{
    let acked = FramerState {
        received: Set::empty(),
        ..state.send_report(Ack::ID, state.received)
    };
    let nacked = FramerState { lost: Set::empty(), ..acked.send_report(Nack::ID, acked.lost) };
    assert(nacked.wf());
    lemma_flush(nacked, nacked.output_frames.len());
}

/// The datagram that carries one frame under the given sequence number.
pub open spec fn lone_datagram(sequence: u32, frame: FrameView) -> Seq<u8> {
    (FrameSetView { sequence, frames: seq![frame] }).encode()
}

/// A frame that is queued to leave at once while no frame waits leaves alone: one
/// datagram goes out that carries this frame and no other, under the next sequence
/// number, the frame is kept for a repeat under that number, and no frame waits
/// afterwards.
pub proof fn lemma_queue_immediate_alone(state: FramerState, frame: FrameView)
    requires
        state.base_wf(),
        state.output_wf(),
        state.output_frames.len() == 0,
        frame.wf(),
        frame.payload.len() <= state.max_body(),
    ensures
        state.queue_frame(frame, Priority::Immediate) == (FramerState {
            output_frames: Seq::empty(),
            output_backup: state.output_backup.insert(state.output_sequence, seq![frame]),
            output_sequence: next_index(state.output_sequence),
            outbox: state.outbox.push(lone_datagram(state.output_sequence, frame)),
            ..state
        }),
{
    assert(state.output_frames =~= Seq::<FrameView>::empty());
    let joined = FramerState { output_frames: state.output_frames.push(frame), ..state };
    assert(joined.output_frames.take(1) =~= seq![frame]);
    assert(joined.output_frames.skip(1) =~= Seq::<FrameView>::empty());
    assert(!state.output_frames.contains(frame));
}

/// A payload of the framer's own that fits one frame and is submitted while no frame
/// waits leaves in one datagram of one frame: reliable and ordered on channel 0,
/// with the next ordered index of that channel and the next reliable index.
pub proof fn lemma_send_payload_alone(state: FramerState, payload: Seq<u8>)
    requires
        state.base_wf(),
        state.output_wf(),
        state.output_frames.len() == 0,
        payload.len() <= state.max_body(),
    ensures
        ({
            let sent = FrameView {
                reliable_frame_index: Some(state.output_reliable_index),
                ordered_frame_index: Some(state.output_order_index[0]),
                ..payload_frame(payload)
            };
            let after = state.send_payload(payload);
            &&& after.outbox == state.outbox.push(lone_datagram(state.output_sequence, sent))
            &&& after.output_backup == state.output_backup.insert(
                state.output_sequence,
                seq![sent],
            )
            &&& after.output_frames.len() == 0
            &&& after.output_sequence == next_index(state.output_sequence)
            &&& after.events == state.events
            &&& after.same_word(state)
        }),
{
    let frame = payload_frame(payload);
    lemma_payload_frame(payload);
    lemma_assign_order(state, frame);
    let (ordered, indexed) = state.assign_order(frame);
    let (counted, ready) = ordered.assign_reliable(indexed);
    assert(counted.output_wf());
    assert(ready.wf());
    lemma_queue_immediate_alone(counted, ready);
}

/// An acceptance that is taken in while no frame waits, and whose answer fits one
/// frame, is answered in one datagram of one frame: the consumer is told, the
/// acceptance is noted, and the frame that goes out, reliable and ordered on channel
/// 0, carries the server's address, twenty times the local address, the local time
/// and the time the server sent.
pub proof fn lemma_acceptance_is_answered(state: FramerState, frame: FrameView, now: i64)
    requires
        state.wf(),
        state.output_frames.len() == 0,
        frame.payload.len() > 0,
        frame.payload[0] == 0x10,
        ConnectionRequestAcceptedView::decode(frame.payload) is Ok,
        state.acceptance_reply(
            ConnectionRequestAcceptedView::decode(frame.payload)->Ok_0.server_send_time,
            now,
        ).encode().len() <= state.max_body(),
    ensures
        ({
            let accepted = ConnectionRequestAcceptedView::decode(frame.payload)->Ok_0;
            let reply = state.acceptance_reply(accepted.server_send_time, now);
            let sent = FrameView {
                reliable_frame_index: Some(state.output_reliable_index),
                ordered_frame_index: Some(state.output_order_index[0]),
                ..payload_frame(reply.encode())
            };
            let after = state.handle_packet(frame, now);
            &&& after.events == state.events.push(
                EventView { name: "connection_request_accepted"@, data: frame.payload },
            )
            &&& after.accepted
            &&& after.outbox == state.outbox.push(lone_datagram(state.output_sequence, sent))
            &&& sent.payload[0] == 0x13
            &&& reply.server_address == state.server_address
            &&& reply.internal_addresses.len() == 20
            &&& forall|i: int| 0 <= i < 20 ==> reply.internal_addresses[i] == state.local_address
            &&& reply.incoming_timestamp == now
            &&& reply.server_timestamp == accepted.server_send_time
        }),
{
    let accepted = ConnectionRequestAcceptedView::decode(frame.payload)->Ok_0;
    let reply = state.acceptance_reply(accepted.server_send_time, now);
    let told = FramerState {
        accepted: true,
        ..state.emit("connection_request_accepted"@, frame.payload)
    };
    lemma_send_payload_alone(told, reply.encode());
}

/// Between IPv4 addresses the answer to an acceptance takes 164 bytes, which fits
/// one frame under every MTU of normal operation.
pub proof fn lemma_acceptance_reply_fits(state: FramerState, server_send_time: i64, now: i64)
    requires
        state.base_wf(),
        state.server_address.version == 4,
        state.local_address.version == 4,
    ensures
        state.acceptance_reply(server_send_time, now).encode().len() == 164,
        state.acceptance_reply(server_send_time, now).encode().len() <= state.max_body(),
{
    let reply = state.acceptance_reply(server_send_time, now);
    lemma_address_len(reply.server_address);
    lemma_ipv4_addresses_len(reply.internal_addresses);
    lemma_encode_uint_len(to_unsigned(now as int, 8), 8, Endianness::Big);
    lemma_encode_uint_len(to_unsigned(server_send_time as int, 8), 8, Endianness::Big);
}

/// Fragment `index` of a frame as it leaves: with its own reliable index where the
/// frame is reliable.
pub open spec fn emitted_fragment(
    state: FramerState,
    frame: FrameView,
    id: u16,
    count: nat,
    index: nat,
) -> FrameView {
    FrameView {
        reliable_frame_index: if frame.reliability.spec_is_reliable() {
            Some(advance(state.output_reliable_index, index))
        } else {
            None
        },
        ..state.fragment(frame, id, index, count)
    }
}

/// The datagrams in which the first `upto` fragments of a frame leave, one fragment
/// each, under sequence numbers that follow one another.
pub open spec fn fragment_datagrams(
    state: FramerState,
    frame: FrameView,
    id: u16,
    count: nat,
    upto: nat,
) -> Seq<Seq<u8>> {
    Seq::new(
        upto,
        |i: int|
            lone_datagram(
                advance(state.output_sequence, i as nat),
                emitted_fragment(state, frame, id, count, i as nat),
            ),
    )
}

/// Fragments that are queued to leave at once while no frame waits leave one by
/// one, in the order of their indices, each alone in its datagram.
pub proof fn lemma_fragments_leave_alone(
    state: FramerState,
    frame: FrameView,
    id: u16,
    count: nat,
    upto: nat,
)
    requires
        state.base_wf(),
        state.output_wf(),
        state.output_frames.len() == 0,
        sendable(frame),
        upto <= count <= u32::MAX,
        (count - 1) * state.max_body() < frame.payload.len(),
        frame.reliability.spec_is_sequenced() ==> frame.sequence_frame_index is Some,
        frame.reliability.spec_is_ordered() ==> frame.ordered_frame_index is Some
            && frame.order_channel is Some,
    ensures
        ({
            let after = state.send_fragments(frame, id, count, upto, Priority::Immediate);
            &&& after.outbox == state.outbox + fragment_datagrams(state, frame, id, count, upto)
            &&& after.output_frames.len() == 0
            &&& after.output_sequence == advance(state.output_sequence, upto)
            &&& after.output_reliable_index == (if frame.reliability.spec_is_reliable() {
                advance(state.output_reliable_index, upto)
            } else {
                state.output_reliable_index
            })
            &&& after.mtu_size == state.mtu_size
            &&& forall|i: nat|
                i < upto ==> (#[trigger] emitted_fragment(state, frame, id, count, i)).wf()
        }),
    decreases upto,
{
    let after = state.send_fragments(frame, id, count, upto, Priority::Immediate);
    if upto == 0 {
        assert(state.outbox + fragment_datagrams(state, frame, id, count, 0) =~= state.outbox);
    } else {
        let index = (upto - 1) as nat;
        lemma_fragments_leave_alone(state, frame, id, count, index);
        lemma_send_fragments(state, frame, id, count, index, Priority::Immediate);
        let before = state.send_fragments(frame, id, count, index, Priority::Immediate);
        let piece = before.fragment(frame, id, index, count);
        assert(index * state.max_body() <= (count - 1) * state.max_body()) by (nonlinear_arith)
            requires
                index < count,
                state.max_body() > 0,
        ;
        lemma_fragment(before, frame, id, index, count);
        assert(piece == state.fragment(frame, id, index, count));
        let (counted, ready) = before.assign_reliable(piece);
        assert(ready == emitted_fragment(state, frame, id, count, index));
        assert(counted.output_wf());
        assert(ready.wf());
        lemma_queue_immediate_alone(counted, ready);
        assert(after.outbox =~= state.outbox + fragment_datagrams(state, frame, id, count, upto));
    }
}

/// A frame whose payload is too long for one frame, submitted to leave at once while
/// no frame waits, leaves in as many datagrams as it needs fragments, in the order
/// of the fragments. Every fragment carries the split size, its index, the one split
/// id, its slice of the payload, and the reliability, the ordered index and the
/// channel of the frame; and the payloads of the fragments, joined in the order of
/// their indices, are the payload of the frame. A payload of four times the most
/// that one frame may carry makes four fragments.
pub proof fn lemma_split_leaves_in_fragments(state: FramerState, frame: FrameView)
    requires
        state.base_wf(),
        state.output_wf(),
        state.output_frames.len() == 0,
        sendable(frame),
        frame.payload.len() > state.max_body(),
    ensures
        ({
            let count = fragment_count(frame.payload.len(), state.max_body() as nat);
            let id = (state.output_split_index % 0x1_0000) as u16;
            let (ordered, indexed) = state.assign_order(frame);
            let after = state.send_frame(frame, Priority::Immediate);
            &&& 2 <= count <= u32::MAX
            &&& frame.payload.len() == 4 * state.max_body() ==> count == 4
            &&& after.outbox == state.outbox + fragment_datagrams(
                ordered,
                indexed,
                id,
                count,
                count,
            )
            &&& after.output_frames.len() == 0
            &&& forall|i: nat|
                i < count ==> {
                    let piece = #[trigger] emitted_fragment(ordered, indexed, id, count, i);
                    &&& piece.wf()
                    &&& piece.split_size == Some(count as u32)
                    &&& piece.split_frame_index == Some(i as u32)
                    &&& piece.split_id == Some(id)
                    &&& piece.payload == frame.payload.subrange(
                        i * state.max_body(),
                        if (i + 1) * state.max_body() < frame.payload.len() {
                            (i + 1) * state.max_body()
                        } else {
                            frame.payload.len() as int
                        },
                    )
                    &&& piece.reliability == frame.reliability
                    &&& piece.ordered_frame_index == indexed.ordered_frame_index
                    &&& piece.order_channel == indexed.order_channel
                }
            &&& join_payloads(fragments_of(ordered, indexed, id, count, count), count)
                == frame.payload
        }),
{
    let body = state.max_body();
    let count = fragment_count(frame.payload.len(), body as nat);
    let id = (state.output_split_index % 0x1_0000) as u16;
    lemma_assign_order(state, frame);
    let (ordered, indexed) = state.assign_order(frame);
    lemma_fragment_count(frame.payload.len(), body as nat);
    if frame.payload.len() == 4 * body {
        assert(count == 4) by (nonlinear_arith)
            requires
                (count - 1) * body < 4 * body,
                4 * body <= count * body,
                body > 0,
        ;
    }
    let started = FramerState {
        output_split_index: if ordered.output_split_index == u32::MAX {
            0
        } else {
            (ordered.output_split_index + 1) as u32
        },
        ..ordered
    };
    assert(started.output_wf());
    lemma_fragments_leave_alone(started, indexed, id, count, count);
    assert(fragment_datagrams(started, indexed, id, count, count) =~= fragment_datagrams(
        ordered,
        indexed,
        id,
        count,
        count,
    ));
    lemma_fragments_rejoin(ordered, indexed, id);
    assert forall|i: nat| i < count implies (#[trigger] emitted_fragment(
        ordered,
        indexed,
        id,
        count,
        i,
    )).wf() by {
        assert(emitted_fragment(started, indexed, id, count, i).wf());
        assert(emitted_fragment(started, indexed, id, count, i) == emitted_fragment(
            ordered,
            indexed,
            id,
            count,
            i,
        ));
    }
    assert forall|i: nat| i < count implies {
        let piece = #[trigger] emitted_fragment(ordered, indexed, id, count, i);
        piece.payload == frame.payload.subrange(
            i * body,
            if (i + 1) * body < frame.payload.len() {
                (i + 1) * body
            } else {
                frame.payload.len() as int
            },
        )
    } by {
        assert(i * body + body == (i + 1) * body) by (nonlinear_arith);
    }
}

/// The frames are the fragments of one split, in the order of their indices: every
/// one keeps the invariants of a frame and carries the split id, the number of
/// fragments as its split size, and its place among them as its index.
pub open spec fn fragments_of_one_split(pieces: Seq<FrameView>, id: u16) -> bool {
    &&& 0 < pieces.len() <= u32::MAX
    &&& forall|i: int|
        0 <= i < pieces.len() ==> {
            &&& (#[trigger] pieces[i]).wf()
            &&& pieces[i].split_id == Some(id)
            &&& pieces[i].split_size == Some(pieces.len() as u32)
            &&& pieces[i].split_frame_index == Some(i as u32)
        }
}

/// `order` says which fragment arrives at which turn and `place` at which turn each
/// fragment arrives: every fragment arrives once.
pub open spec fn arrives_once(order: Seq<u32>, place: Seq<int>, count: nat) -> bool {
    &&& order.len() == count
    &&& place.len() == count
    &&& forall|k: int| 0 <= k < count ==> (#[trigger] order[k]) < count && place[order[k] as int] == k
    &&& forall|i: int|
        0 <= i < count ==> 0 <= (#[trigger] place[i]) < count && order[place[i]] == i
}

/// The fragments in the order of their arrival.
pub open spec fn arrivals(pieces: Seq<FrameView>, order: Seq<u32>) -> Seq<FrameView> {
    Seq::new(order.len(), |k: int| pieces[order[k] as int])
}

/// The fragments that have arrived after `turns` turns, by their indices.
pub open spec fn arrived(pieces: Seq<FrameView>, place: Seq<int>, turns: nat) -> Map<
    u32,
    FrameView,
> {
    Map::new(|i: u32| i < pieces.len() && place[i as int] < turns, |i: u32| pieces[i as int])
}

/// While fragments of a split are still to come, taking in those that have come,
/// in whatever order, delivers nothing: it changes nothing but the table of
/// fragments, where the fragments wait under their split id.
pub proof fn lemma_fragments_wait(
    state: FramerState,
    pieces: Seq<FrameView>,
    id: u16,
    order: Seq<u32>,
    place: Seq<int>,
    turns: nat,
    now: i64,
)
    requires
        state.wf(),
        fragments_of_one_split(pieces, id),
        arrives_once(order, place, pieces.len()),
        !state.fragments_queue.contains_key(id),
        turns < pieces.len(),
    ensures
        state.handle_frames(arrivals(pieces, order).take(turns as int), now) == (if turns == 0 {
            state
        } else {
            FramerState {
                fragments_queue: state.fragments_queue.insert(id, arrived(pieces, place, turns)),
                ..state
            }
        }),
        arrived(pieces, place, turns).dom().finite(),
        arrived(pieces, place, turns).len() == turns,
    decreases turns,
{
    let all = arrivals(pieces, order);
    if turns == 0 {
        assert(all.take(0) =~= Seq::<FrameView>::empty());
        assert(arrived(pieces, place, 0).dom() =~= Set::<u32>::empty());
    } else {
        let turn = (turns - 1) as nat;
        lemma_fragments_wait(state, pieces, id, order, place, turn, now);
        let before = state.handle_frames(all.take(turn as int), now);
        let taken = all.take(turns as int);
        assert(taken.drop_last() =~= all.take(turn as int));
        let index = order[turn as int];
        let piece = pieces[index as int];
        assert(taken.last() == piece);
        assert(piece.wf() && piece.split_id == Some(id));
        let so_far = arrived(pieces, place, turn);
        let with = arrived(pieces, place, turns);
        assert(!so_far.contains_key(index));
        assert(with =~= so_far.insert(index, piece)) by {
            assert forall|i: u32| with.contains_key(i) <==> so_far.insert(
                index,
                piece,
            ).contains_key(i) by {
                if i < pieces.len() {
                    assert(order[place[i as int]] == i);
                }
            }
        }
        assert(with.dom() =~= so_far.dom().insert(index));
        assert(before.fragments_with(piece) == with) by {
            if turn == 0 {
                assert(so_far =~= Map::<u32, FrameView>::empty());
            }
        }
        assert(!fragments_complete(with, pieces.len() as u32));
        assert(before.fragments_queue.insert(id, with) =~= state.fragments_queue.insert(id, with));
    }
}

/// The fragments of a split, each arriving once and in whatever order, make one
/// frame: the fragments before the last deliver nothing, and with the last the
/// table holds the split no longer and the whole frame is taken in, with the
/// payloads joined in the order of the indices, whatever the order of arrival, under
/// the reliability and the indices of the first fragment.
pub proof fn lemma_fragments_reassemble(
    state: FramerState,
    pieces: Seq<FrameView>,
    id: u16,
    order: Seq<u32>,
    place: Seq<int>,
    now: i64,
)
    requires
        state.wf(),
        fragments_of_one_split(pieces, id),
        arrives_once(order, place, pieces.len()),
        !state.fragments_queue.contains_key(id),
    ensures
        ({
            let count = pieces.len();
            let whole = FramerState::reassemble(arrived(pieces, place, count), count as u32);
            &&& state.handle_frames(arrivals(pieces, order), now) == state.dispatch(whole, now)
            &&& whole.payload == join_payloads(arrived(pieces, place, count), count)
            &&& forall|i: u32| i < count ==> arrived(pieces, place, count)[i] == pieces[i as int]
            &&& whole.reliability == pieces[0].reliability
            &&& whole.ordered_frame_index == pieces[0].ordered_frame_index
            &&& whole.order_channel == pieces[0].order_channel
            &&& !whole.is_split()
        }),
{
    let count = pieces.len();
    let all = arrivals(pieces, order);
    let turn = (count - 1) as nat;
    lemma_fragments_wait(state, pieces, id, order, place, turn, now);
    let before = state.handle_frames(all.take(turn as int), now);
    assert(all.take(count as int) =~= all);
    assert(all.drop_last() =~= all.take(turn as int));
    let index = order[turn as int];
    let piece = pieces[index as int];
    assert(all.last() == piece);
    assert(piece.wf() && piece.split_id == Some(id));
    let so_far = arrived(pieces, place, turn);
    let with = arrived(pieces, place, count);
    assert(!so_far.contains_key(index));
    assert(with =~= so_far.insert(index, piece)) by {
        assert forall|i: u32| with.contains_key(i) <==> so_far.insert(index, piece).contains_key(
            i,
        ) by {
            if i < count {
                assert(order[place[i as int]] == i);
            }
        }
    }
    assert(with.dom() =~= so_far.dom().insert(index));
    assert(before.fragments_with(piece) == with) by {
        if turn == 0 {
            assert(so_far =~= Map::<u32, FrameView>::empty());
        }
    }
    assert(fragments_complete(with, count as u32)) by {
        assert forall|i: u32| 0 <= i < count as u32 implies with.contains_key(i) by {
            assert(0 <= place[i as int] < count);
        }
    }
    assert(before.fragments_queue.remove(id) =~= state.fragments_queue);
    let cleared = FramerState { fragments_queue: before.fragments_queue.remove(id), ..before };
    assert(cleared == state);
    assert(with[0u32] == pieces[0]) by {
        assert(0 <= place[0] < count);
    }
}

/// What fragments join to depends on their payloads alone.
pub proof fn lemma_join_same_payloads(
    first: Map<u32, FrameView>,
    second: Map<u32, FrameView>,
    count: nat,
)
    requires
        count <= u32::MAX,
        forall|i: u32| i < count ==> (#[trigger] first[i]).payload == second[i].payload,
    ensures
        join_payloads(first, count) == join_payloads(second, count),
    decreases count,
{
    if count > 0 {
        lemma_join_same_payloads(first, second, (count - 1) as nat);
        assert(first[(count - 1) as u32].payload == second[(count - 1) as u32].payload);
    }
}

/// The fragments in which a frame leaves, in the order of their indices.
pub open spec fn emitted_fragments(state: FramerState, frame: FrameView, id: u16, count: nat) -> Seq<
    FrameView,
> {
    Seq::new(count, |i: int| emitted_fragment(state, frame, id, count, i as nat))
}

/// A payload too long for one frame that one side submits arrives whole at the
/// other: the fragments in which it leaves, taken in once each and in whatever
/// order, are taken as one frame that is no fragment and carries that payload, under
/// the reliability of the frame submitted.
pub proof fn lemma_split_arrives_whole(
    sender: FramerState,
    frame: FrameView,
    receiver: FramerState,
    order: Seq<u32>,
    place: Seq<int>,
    now: i64,
)
    requires
        sender.base_wf(),
        sender.output_wf(),
        sender.output_frames.len() == 0,
        sendable(frame),
        frame.payload.len() > sender.max_body(),
        receiver.wf(),
        arrives_once(
            order,
            place,
            fragment_count(frame.payload.len(), sender.max_body() as nat),
        ),
        !receiver.fragments_queue.contains_key((sender.output_split_index % 0x1_0000) as u16),
    ensures
        ({
            let count = fragment_count(frame.payload.len(), sender.max_body() as nat);
            let id = (sender.output_split_index % 0x1_0000) as u16;
            let (ordered, indexed) = sender.assign_order(frame);
            let pieces = emitted_fragments(ordered, indexed, id, count);
            let whole = FramerState::reassemble(arrived(pieces, place, count), count as u32);
            &&& receiver.handle_frames(arrivals(pieces, order), now) == receiver.dispatch(
                whole,
                now,
            )
            &&& whole.payload == frame.payload
            &&& whole.reliability == frame.reliability
            &&& !whole.is_split()
        }),
{
    let count = fragment_count(frame.payload.len(), sender.max_body() as nat);
    let id = (sender.output_split_index % 0x1_0000) as u16;
    let (ordered, indexed) = sender.assign_order(frame);
    let pieces = emitted_fragments(ordered, indexed, id, count);
    lemma_split_leaves_in_fragments(sender, frame);
    assert forall|i: int| 0 <= i < pieces.len() implies {
        &&& (#[trigger] pieces[i]).wf()
        &&& pieces[i].split_id == Some(id)
        &&& pieces[i].split_size == Some(pieces.len() as u32)
        &&& pieces[i].split_frame_index == Some(i as u32)
    } by {
        assert(pieces[i] == emitted_fragment(ordered, indexed, id, count, i as nat));
    }
    lemma_fragments_reassemble(receiver, pieces, id, order, place, now);
    let came = arrived(pieces, place, count);
    let left = fragments_of(ordered, indexed, id, count, count);
    assert forall|i: u32| i < count implies (#[trigger] came[i]).payload == left[i].payload by {
        assert(came[i] == pieces[i as int]);
        assert(pieces[i as int] == emitted_fragment(ordered, indexed, id, count, i as nat));
    }
    lemma_join_same_payloads(came, left, count);
    assert(pieces[0] == emitted_fragment(ordered, indexed, id, count, 0));
}

/// A frame that fits one datagram and is submitted to leave at once while no frame
/// waits leaves alone: one datagram goes out that carries the frame with the indices
/// it was given and no other frame, and the frame is kept for a repeat under the
/// sequence number of that datagram. The payload, the reliability and the split
/// fields of the frame are as they were submitted.
pub proof fn lemma_send_frame_alone(state: FramerState, frame: FrameView)
    requires
        state.base_wf(),
        state.output_wf(),
        state.output_frames.len() == 0,
        sendable(frame),
        frame.payload.len() <= state.max_body(),
    ensures
        ({
            let sent = state.stamped(frame);
            let after = state.send_frame(frame, Priority::Immediate);
            &&& after.outbox == state.outbox.push(lone_datagram(state.output_sequence, sent))
            &&& after.output_backup == state.output_backup.insert(
                state.output_sequence,
                seq![sent],
            )
            &&& after.output_frames.len() == 0
            &&& after.output_sequence == next_index(state.output_sequence)
            &&& after.base_wf()
            &&& after.output_wf()
            &&& after.mtu_size == state.mtu_size
            &&& sent.payload == frame.payload
            &&& sent.reliability == frame.reliability
            &&& sent.split_id == frame.split_id
            &&& sent.split_size == frame.split_size
            &&& sent.split_frame_index == frame.split_frame_index
        }),
{
    lemma_assign_order(state, frame);
    lemma_send_frame(state, frame, Priority::Immediate);
    let (ordered, indexed) = state.assign_order(frame);
    let (counted, ready) = ordered.assign_reliable(indexed);
    assert(counted.output_wf());
    assert(ready.wf());
    lemma_queue_immediate_alone(counted, ready);
}

/// Frame `index` of a run of frames as it leaves when the run is submitted again.
pub open spec fn resent_frame(state: FramerState, frames: Seq<FrameView>, index: nat) -> FrameView {
    state.resend_all(frames.take(index as int)).stamped(frames[index as int])
}

/// The datagrams in which the first `upto` frames of a run leave when the run is
/// submitted again: one frame each, under sequence numbers that follow one another.
pub open spec fn resent_datagrams(state: FramerState, frames: Seq<FrameView>, upto: nat) -> Seq<
    Seq<u8>,
> {
    Seq::new(
        upto,
        |i: int|
            lone_datagram(
                advance(state.output_sequence, i as nat),
                resent_frame(state, frames, i as nat),
            ),
    )
}

/// Frames that fit one datagram each and are submitted again while no frame waits
/// leave one by one, in their order, each alone in its datagram and with the payload
/// it had.
pub proof fn lemma_resend_leaves_alone(state: FramerState, frames: Seq<FrameView>)
    requires
        state.base_wf(),
        state.output_wf(),
        state.output_frames.len() == 0,
        forall|i: int|
            0 <= i < frames.len() ==> sendable(#[trigger] frames[i]) && frames[i].payload.len()
                <= state.max_body(),
    ensures
        ({
            let after = state.resend_all(frames);
            &&& after.outbox == state.outbox + resent_datagrams(state, frames, frames.len())
            &&& after.output_frames.len() == 0
            &&& after.output_sequence == advance(state.output_sequence, frames.len())
            &&& after.base_wf()
            &&& after.output_wf()
            &&& after.mtu_size == state.mtu_size
            &&& forall|i: nat|
                i < frames.len() ==> (#[trigger] resent_frame(state, frames, i)).payload
                    == frames[i as int].payload
        }),
    decreases frames.len(),
{
    let after = state.resend_all(frames);
    if frames.len() == 0 {
        assert(state.outbox + resent_datagrams(state, frames, 0) =~= state.outbox);
    } else {
        let shorter = frames.drop_last();
        let last = (frames.len() - 1) as nat;
        assert forall|i: int| 0 <= i < shorter.len() implies sendable(#[trigger] shorter[i])
            && shorter[i].payload.len() <= state.max_body() by {
            assert(shorter[i] == frames[i]);
        }
        lemma_resend_leaves_alone(state, shorter);
        let before = state.resend_all(shorter);
        assert(sendable(frames[last as int]));
        lemma_send_frame_alone(before, frames.last());
        assert(frames.take(last as int) =~= shorter);
        assert forall|i: nat| i < last implies resent_frame(state, frames, i) == resent_frame(
            state,
            shorter,
            i,
        ) by {
            assert(frames.take(i as int) =~= shorter.take(i as int));
        }
        assert(after.outbox =~= state.outbox + resent_datagrams(state, frames, frames.len()));
        assert forall|i: nat| i < frames.len() implies (#[trigger] resent_frame(
            state,
            frames,
            i,
        )).payload == frames[i as int].payload by {
            if i < last {
                assert(resent_frame(state, shorter, i).payload == shorter[i as int].payload);
            }
        }
    }
}

/// Whether `other` is none of the `count` sequence numbers that follow one another
/// from `first` on.
pub open spec fn not_among(first: u32, count: nat, other: u32) -> bool {
    forall|i: nat| i < count ==> advance(first, i) != other
}

/// Frames that are submitted again while no frame waits touch what is kept for a
/// repeat only under the sequence numbers of the datagrams in which they leave: under
/// any other number the same frames are kept as before, or none as before.
pub proof fn lemma_resend_keeps_other(state: FramerState, frames: Seq<FrameView>, other: u32)
    requires
        state.base_wf(),
        state.output_wf(),
        state.output_frames.len() == 0,
        forall|i: int|
            0 <= i < frames.len() ==> sendable(#[trigger] frames[i]) && frames[i].payload.len()
                <= state.max_body(),
        not_among(state.output_sequence, frames.len(), other),
    ensures
        state.resend_all(frames).output_backup.contains_key(other)
            == state.output_backup.contains_key(other),
        state.output_backup.contains_key(other) ==> state.resend_all(frames).output_backup[other]
            == state.output_backup[other],
    decreases frames.len(),
{
    if frames.len() > 0 {
        let shorter = frames.drop_last();
        let last = (frames.len() - 1) as nat;
        assert forall|i: int| 0 <= i < shorter.len() implies sendable(#[trigger] shorter[i])
            && shorter[i].payload.len() <= state.max_body() by {
            assert(shorter[i] == frames[i]);
        }
        assert(not_among(state.output_sequence, shorter.len(), other)) by {
            assert forall|i: nat| i < shorter.len() implies advance(state.output_sequence, i)
                != other by {
                assert(i < frames.len());
            }
        }
        lemma_resend_leaves_alone(state, shorter);
        lemma_resend_keeps_other(state, shorter, other);
        let before = state.resend_all(shorter);
        assert(sendable(frames[last as int]));
        lemma_send_frame_alone(before, frames.last());
        assert(advance(state.output_sequence, last) != other);
        assert(before.output_sequence != other);
        let after = before.send_frame(frames.last(), Priority::Immediate);
        assert(after.output_backup == before.output_backup.insert(
            before.output_sequence,
            seq![before.stamped(frames.last())],
        ));
    }
}

/// A report that one datagram is missing, taken in while no frame waits, sends again
/// exactly the frames that were kept under its number: as many datagrams go out as
/// frames were kept, each with one frame, in their order and with the payloads they
/// had. Afterwards nothing is kept under the number reported, and what is kept
/// under any other number than those of the new datagrams stays as it was.
pub proof fn lemma_nack_resends_exactly(state: FramerState, sequence: u32)
    requires
        state.base_wf(),
        state.output_wf(),
        state.output_frames.len() == 0,
        state.output_backup.contains_key(sequence),
    ensures
        ({
            let frames = state.output_backup[sequence];
            let dropped = FramerState {
                output_backup: state.output_backup.remove(sequence),
                ..state
            };
            let after = state.nack_one(sequence);
            &&& after.outbox == state.outbox + resent_datagrams(dropped, frames, frames.len())
            &&& forall|i: nat|
                i < frames.len() ==> (#[trigger] resent_frame(dropped, frames, i)).payload
                    == frames[i as int].payload
            &&& !after.output_backup.contains_key(sequence)
            &&& forall|other: u32|
                other != sequence && #[trigger] not_among(
                    state.output_sequence,
                    frames.len(),
                    other,
                ) ==> after.output_backup.contains_key(other) == state.output_backup.contains_key(
                    other,
                ) && (state.output_backup.contains_key(other) ==> after.output_backup[other]
                    == state.output_backup[other])
        }),
{
    let frames = state.output_backup[sequence];
    let dropped = FramerState { output_backup: state.output_backup.remove(sequence), ..state };
    lemma_drop_backup(state, sequence);
    assert forall|i: int| 0 <= i < frames.len() implies sendable(#[trigger] frames[i])
        && frames[i].payload.len() <= dropped.max_body() by {
        assert(state.output_backup[sequence][i].wf());
    }
    lemma_resend_leaves_alone(dropped, frames);
    let resent = dropped.resend_all(frames);
    let after = state.nack_one(sequence);
    assert(after.output_backup == resent.output_backup.remove(sequence));
    assert forall|other: u32|
        other != sequence && #[trigger] not_among(state.output_sequence, frames.len(), other)
            implies after.output_backup.contains_key(other) == state.output_backup.contains_key(
            other,
        ) && (state.output_backup.contains_key(other) ==> after.output_backup[other]
            == state.output_backup[other]) by {
        lemma_resend_keeps_other(dropped, frames, other);
        assert(dropped.output_backup.contains_key(other) == state.output_backup.contains_key(
            other,
        ));
    }
}

/// A negative acknowledgement that names one datagram is answered as the report that
/// this datagram is missing.
pub proof fn lemma_nack_of_one(state: FramerState, frame: FrameView, sequence: u32, now: i64)
    requires
        frame.payload.len() > 0,
        frame.payload[0] == Nack::ID,
        decode_sequences(Nack::ID, frame.payload) == Ok::<Seq<u32>, PacketError>(seq![sequence]),
    ensures
        state.handle_packet(frame, now) == state.nack_one(sequence),
{
    let named = seq![sequence];
    assert(named.drop_last() =~= Seq::<u32>::empty());
    assert(state.nack_all(named.drop_last()) == state);
    assert(named.last() == sequence);
}

} // verus!
