//! Every operation of the state machine keeps the invariants of the bookkeeping.

use crate::ack::{decode_sequences, Ack, Nack};
use crate::address::laws::{lemma_address_len, lemma_addresses_len};
use crate::client::model::{
    fragment_count, fragments_complete, next_index, payload_frame, pending_size, sendable,
    FramerState, Priority, FRAME_SET_HEADER, MAX_DRAIN,
};
use crate::endian::{lemma_encode_uint_len, to_unsigned, Endianness};
use crate::frame::{FrameView, CHANNELS, INDEX_LIMIT};
use crate::frameset::FrameSetView;
use crate::proto::connected_ping::ConnectedPing;
use crate::proto::connected_pong::ConnectedPong;
use crate::proto::connection_request::ConnectionRequest;
use crate::proto::connection_request_accepted::ConnectionRequestAcceptedView;
use vstd::prelude::*;

verus! {

/// A batch with one frame more takes the size of that frame more.
pub proof fn lemma_pending_size_push(frames: Seq<FrameView>, frame: FrameView)
    ensures
        pending_size(frames.push(frame)) == pending_size(frames) + frame.size(),
{
    assert(frames.push(frame).drop_last() =~= frames);
}

/// A batch takes at least as much as what is left of it after its first frames.
pub proof fn lemma_pending_size_skip(frames: Seq<FrameView>, count: int)
    requires
        0 <= count <= frames.len(),
    ensures
        pending_size(frames.skip(count)) <= pending_size(frames),
    decreases frames.len(),
{
    if count == frames.len() {
        assert(frames.skip(count) =~= Seq::<FrameView>::empty());
    } else {
        lemma_pending_size_skip(frames.drop_last(), count);
        assert(frames.skip(count).drop_last() =~= frames.drop_last().skip(count));
        assert(frames.skip(count).last() == frames.last());
    }
}

/// A frame takes at most 23 bytes more than its payload.
pub proof fn lemma_size_bound(frame: FrameView)
    ensures
        frame.payload.len() + 3 <= frame.size() <= frame.payload.len() + 23,
{
}

/// Sending waiting frames keeps the invariants and leaves the inbound side alone.
pub proof fn lemma_flush(state: FramerState, count: nat)
    requires
        state.base_wf(),
        state.output_wf(),
    ensures
        state.flush(count).output_wf(),
        state.flush(count).same_input(state),
        state.flush(count).accepted == state.accepted,
        state.flush(count).disconnected == state.disconnected,
        pending_size(state.flush(count).output_frames) <= pending_size(state.output_frames),
        count >= state.output_frames.len() ==> state.flush(count).output_frames.len() == 0,
{
    let after = state.flush(count);
    if state.output_frames.len() > 0 {
        let taken = if count < state.output_frames.len() {
            count as int
        } else {
            state.output_frames.len() as int
        };
        let batch = state.output_frames.take(taken);
        let rest = state.output_frames.skip(taken);
        lemma_pending_size_skip(state.output_frames, taken);
        assert forall|i: int| 0 <= i < rest.len() implies (#[trigger] rest[i]).wf()
            && rest[i].encodable() by {
            assert(rest[i] == state.output_frames[i + taken]);
        }
        assert(rest.no_duplicates()) by {
            assert forall|i: int, j: int| 0 <= i < rest.len() && 0 <= j < rest.len() && i != j implies rest[i]
                != rest[j] by {
                assert(rest[i] == state.output_frames[i + taken]);
                assert(rest[j] == state.output_frames[j + taken]);
            }
        }
        assert forall|s: u32, i: int|
            after.output_backup.contains_key(s) && 0 <= i < after.output_backup[s].len() implies (
        #[trigger] after.output_backup[s][i]).wf() && after.output_backup[s][i].encodable() by {
            if s == state.output_sequence {
                assert(after.output_backup[s][i] == state.output_frames[i]);
            } else {
                assert(state.output_backup.contains_key(s));
                assert(after.output_backup[s][i] == state.output_backup[s][i]);
            }
        }
    }
}

/// A frame that fits one datagram may join a batch that has room for it, or an
/// empty one.
pub proof fn lemma_join_frame(state: FramerState, frame: FrameView)
    requires
        state.base_wf(),
        state.output_wf(),
        frame.wf(),
        frame.payload.len() <= state.max_body(),
        pending_size(state.output_frames) + frame.size() <= state.max_body()
            || state.output_frames.len() == 0,
    ensures
        (FramerState {
            output_frames: if state.output_frames.contains(frame) {
                state.output_frames
            } else {
                state.output_frames.push(frame)
            },
            ..state
        }).output_wf(),
{
    lemma_size_bound(frame);
    let joined = FramerState {
        output_frames: if state.output_frames.contains(frame) {
            state.output_frames
        } else {
            state.output_frames.push(frame)
        },
        ..state
    };
    if !state.output_frames.contains(frame) {
        lemma_pending_size_push(state.output_frames, frame);
        if state.output_frames.len() == 0 {
            assert(pending_size(state.output_frames) == FRAME_SET_HEADER);
        }
        assert(joined.output_frames.no_duplicates()) by {
            assert forall|i: int, j: int|
                0 <= i < joined.output_frames.len() && 0 <= j < joined.output_frames.len() && i
                    != j implies joined.output_frames[i] != joined.output_frames[j] by {
                if i < state.output_frames.len() && j < state.output_frames.len() {
                    assert(joined.output_frames[i] == state.output_frames[i]);
                    assert(joined.output_frames[j] == state.output_frames[j]);
                } else if i < state.output_frames.len() {
                    assert(state.output_frames.contains(state.output_frames[i]));
                } else {
                    assert(state.output_frames.contains(state.output_frames[j]));
                }
            }
        }
        assert forall|i: int| 0 <= i < joined.output_frames.len() implies (
        #[trigger] joined.output_frames[i]).wf() && joined.output_frames[i].encodable() by {
            if i < state.output_frames.len() {
                assert(joined.output_frames[i] == state.output_frames[i]);
            }
        }
    }
}

/// Queueing a frame that fits one datagram keeps the invariants and leaves the
/// inbound side alone.
pub proof fn lemma_queue_frame(state: FramerState, frame: FrameView, priority: Priority)
    requires
        state.base_wf(),
        state.output_wf(),
        frame.wf(),
        frame.payload.len() <= state.max_body(),
    ensures
        state.queue_frame(frame, priority).output_wf(),
        state.queue_frame(frame, priority).same_input(state),
        state.queue_frame(frame, priority).accepted == state.accepted,
        state.queue_frame(frame, priority).disconnected == state.disconnected,
        state.queue_frame(frame, priority).output_reliable_index == state.output_reliable_index,
        state.queue_frame(frame, priority).output_split_index == state.output_split_index,
        state.queue_frame(frame, priority).output_order_index == state.output_order_index,
        state.queue_frame(frame, priority).output_sequence_index == state.output_sequence_index,
        state.queue_frame(frame, priority).events == state.events,
{
    lemma_size_bound(frame);
    let room = if pending_size(state.output_frames) + frame.size() > state.max_body() {
        state.flush(state.output_frames.len())
    } else {
        state
    };
    lemma_flush(state, state.output_frames.len());
    assert(room.output_wf());
    lemma_join_frame(room, frame);
    let joined = FramerState {
        output_frames: if room.output_frames.contains(frame) {
            room.output_frames
        } else {
            room.output_frames.push(frame)
        },
        ..room
    };
    assert(joined.output_wf());
    lemma_flush(joined, 1);
}

/// Assigning the ordering indices keeps the invariants.
pub proof fn lemma_assign_order(state: FramerState, frame: FrameView)
    requires
        state.base_wf(),
        state.output_wf(),
        sendable(frame),
    ensures
        state.assign_order(frame).0.output_wf(),
        state.assign_order(frame).0.same_input(state),
        state.assign_order(frame).0.accepted == state.accepted,
        state.assign_order(frame).0.disconnected == state.disconnected,
        state.assign_order(frame).0.events == state.events,
        sendable(state.assign_order(frame).1),
        state.assign_order(frame).1.payload == frame.payload,
        state.assign_order(frame).1.reliability == frame.reliability,
        ({
            let assigned = state.assign_order(frame).1;
            &&& assigned.reliability.spec_is_sequenced() ==> assigned.sequence_frame_index is Some
            &&& assigned.reliability.spec_is_ordered() ==> assigned.ordered_frame_index is Some
                && assigned.order_channel is Some
        }),
{
    let c = frame.channel() as int;
    assert(0 <= c < CHANNELS);
    assert(state.output_order_index[c] < INDEX_LIMIT);
    assert(state.output_sequence_index[c] < INDEX_LIMIT);
}

/// What queueing with a fresh reliable index keeps.
pub proof fn lemma_assign_reliable_queue(state: FramerState, frame: FrameView, priority: Priority)
    requires
        state.base_wf(),
        state.output_wf(),
        sendable(frame),
        frame.payload.len() <= state.max_body(),
        frame.reliability.spec_is_sequenced() ==> frame.sequence_frame_index is Some,
        frame.reliability.spec_is_ordered() ==> frame.ordered_frame_index is Some
            && frame.order_channel is Some,
    ensures
        ({
            let (counted, ready) = state.assign_reliable(frame);
            let after = counted.queue_frame(ready, priority);
            &&& after.output_wf()
            &&& after.same_input(state)
            &&& after.accepted == state.accepted
            &&& after.disconnected == state.disconnected
            &&& after.events == state.events
            &&& after.output_split_index == state.output_split_index
            &&& after.output_order_index == state.output_order_index
            &&& after.output_sequence_index == state.output_sequence_index
        }),
{
    let (counted, ready) = state.assign_reliable(frame);
    assert(counted.output_wf());
    assert(ready.wf());
    lemma_queue_frame(counted, ready, priority);
}

/// Queueing fragments keeps the invariants.
pub proof fn lemma_send_fragments(
    state: FramerState,
    frame: FrameView,
    id: u16,
    count: nat,
    upto: nat,
    priority: Priority,
)
    requires
        state.base_wf(),
        state.output_wf(),
        sendable(frame),
        upto <= count <= u32::MAX,
        (count - 1) * state.max_body() < frame.payload.len(),
        frame.reliability.spec_is_sequenced() ==> frame.sequence_frame_index is Some,
        frame.reliability.spec_is_ordered() ==> frame.ordered_frame_index is Some
            && frame.order_channel is Some,
    ensures
        ({
            let after = state.send_fragments(frame, id, count, upto, priority);
            &&& after.output_wf()
            &&& after.same_input(state)
            &&& after.accepted == state.accepted
            &&& after.disconnected == state.disconnected
            &&& after.events == state.events
            &&& after.output_split_index == state.output_split_index
            &&& after.output_order_index == state.output_order_index
            &&& after.output_sequence_index == state.output_sequence_index
        }),
    decreases upto,
{
    if upto > 0 {
        lemma_send_fragments(state, frame, id, count, (upto - 1) as nat, priority);
        let before = state.send_fragments(frame, id, count, (upto - 1) as nat, priority);
        let piece = before.fragment(frame, id, (upto - 1) as nat, count);
        assert((upto - 1) * state.max_body() <= (count - 1) * state.max_body()) by (nonlinear_arith)
            requires
                upto <= count,
                state.max_body() > 0,
        ;
        lemma_fragment(before, frame, id, (upto - 1) as nat, count);
        lemma_assign_reliable_queue(before, piece, priority);
    }
}

/// A fragment is fit to be queued.
pub proof fn lemma_fragment(state: FramerState, frame: FrameView, id: u16, index: nat, count: nat)
    requires
        state.base_wf(),
        sendable(frame),
        index < count <= u32::MAX,
        index * state.max_body() < frame.payload.len(),
    ensures
        sendable(state.fragment(frame, id, index, count)),
        state.fragment(frame, id, index, count).payload.len() <= state.max_body(),
        state.fragment(frame, id, index, count).reliability == frame.reliability,
        state.fragment(frame, id, index, count).sequence_frame_index == frame.sequence_frame_index,
        state.fragment(frame, id, index, count).ordered_frame_index == frame.ordered_frame_index,
        state.fragment(frame, id, index, count).order_channel == frame.order_channel,
{
    let start = index * state.max_body();
    assert(start >= 0) by (nonlinear_arith)
        requires
            start == index * state.max_body(),
            state.max_body() > 0,
            index >= 0,
    ;
    let end = if start + state.max_body() < frame.payload.len() {
        start + state.max_body()
    } else {
        frame.payload.len() as int
    };
    assert(frame.payload.subrange(start, end).len() == end - start);
}

/// The fragments that a payload needs can be counted in 32 bits.
pub proof fn lemma_fragment_count(len: nat, max_body: nat)
    requires
        len <= 0xFFFF_FFFF,
        max_body >= 2,
        len > max_body,
    ensures
        2 <= fragment_count(len, max_body) <= u32::MAX,
        (fragment_count(len, max_body) - 1) * max_body < len <= fragment_count(len, max_body)
            * max_body,
{
    let n = (len + max_body - 1) / max_body as int;
    let total = (len + max_body - 1) as int;
    vstd::arithmetic::div_mod::lemma_fundamental_div_mod(total, max_body as int);
    vstd::arithmetic::div_mod::lemma_mod_bound(total, max_body as int);
    assert(total == max_body * n + total % (max_body as int));
    assert(n * max_body <= total) by (nonlinear_arith)
        requires
            total == max_body * n + total % (max_body as int),
            0 <= total % (max_body as int),
    ;
    assert(n * max_body > total - max_body) by (nonlinear_arith)
        requires
            total == max_body * n + total % (max_body as int),
            total % (max_body as int) < max_body,
    ;
    assert(n <= total) by (nonlinear_arith)
        requires
            n * max_body <= total,
            max_body >= 2,
            n >= 0,
    ;
    assert(n * 2 <= total) by (nonlinear_arith)
        requires
            n * max_body <= total,
            max_body >= 2,
            n >= 0,
    ;
    assert(n >= 2) by (nonlinear_arith)
        requires
            n * max_body > total - max_body,
            total == len + max_body - 1,
            len > max_body,
            max_body >= 2,
    ;
    assert((n - 1) * max_body == n * max_body - max_body) by (nonlinear_arith);
}

/// Rounding a quotient up is adding one where a remainder is left.
pub proof fn lemma_fragment_count_exact(len: nat, max_body: nat)
    requires
        max_body > 0,
    ensures
        fragment_count(len, max_body) == len / max_body + (if len % max_body == 0 {
            0int
        } else {
            1int
        }),
{
    let q = (len / max_body) as int;
    let r = (len % max_body) as int;
    vstd::arithmetic::div_mod::lemma_fundamental_div_mod(len as int, max_body as int);
    vstd::arithmetic::div_mod::lemma_mod_bound(len as int, max_body as int);
    let total = (len + max_body - 1) as int;
    if r == 0 {
        assert(total == q * max_body + (max_body - 1)) by (nonlinear_arith)
            requires
                len == max_body * q + r,
                r == 0,
                total == len + max_body - 1,
        ;
        vstd::arithmetic::div_mod::lemma_fundamental_div_mod_converse(
            total,
            max_body as int,
            q,
            max_body - 1,
        );
    } else {
        assert(total == (q + 1) * max_body + (r - 1)) by (nonlinear_arith)
            requires
                len == max_body * q + r,
                total == len + max_body - 1,
        ;
        vstd::arithmetic::div_mod::lemma_fundamental_div_mod_converse(
            total,
            max_body as int,
            q + 1,
            r - 1,
        );
    }
}

/// Submitting a frame keeps the invariants and leaves the inbound side alone.
pub proof fn lemma_send_frame(state: FramerState, frame: FrameView, priority: Priority)
    requires
        state.base_wf(),
        state.output_wf(),
        sendable(frame),
    ensures
        state.send_frame(frame, priority).output_wf(),
        state.send_frame(frame, priority).same_input(state),
        state.send_frame(frame, priority).accepted == state.accepted,
        state.send_frame(frame, priority).disconnected == state.disconnected,
        state.send_frame(frame, priority).events == state.events,
{
    lemma_assign_order(state, frame);
    let (ordered, indexed) = state.assign_order(frame);
    if indexed.payload.len() <= state.max_body() {
        lemma_assign_reliable_queue(ordered, indexed, priority);
    } else {
        let count = fragment_count(indexed.payload.len(), state.max_body() as nat);
        lemma_fragment_count(indexed.payload.len(), state.max_body() as nat);
        let id = (ordered.output_split_index % 0x1_0000) as u16;
        let started = FramerState {
            output_split_index: if ordered.output_split_index == u32::MAX {
                0
            } else {
                (ordered.output_split_index + 1) as u32
            },
            ..ordered
        };
        assert(started.output_wf());
        lemma_send_fragments(started, indexed, id, count, count, priority);
    }
}

/// Submitting frames again keeps the invariants and leaves the inbound side alone.
pub proof fn lemma_resend_all(state: FramerState, frames: Seq<FrameView>)
    requires
        state.base_wf(),
        state.output_wf(),
        forall|i: int| 0 <= i < frames.len() ==> sendable(#[trigger] frames[i]),
    ensures
        state.resend_all(frames).output_wf(),
        state.resend_all(frames).same_input(state),
        state.resend_all(frames).accepted == state.accepted,
        state.resend_all(frames).disconnected == state.disconnected,
        state.resend_all(frames).events == state.events,
    decreases frames.len(),
{
    if frames.len() > 0 {
        let shorter = frames.drop_last();
        assert forall|i: int| 0 <= i < shorter.len() implies sendable(#[trigger] shorter[i]) by {
            assert(shorter[i] == frames[i]);
        }
        lemma_resend_all(state, shorter);
        assert(sendable(frames[frames.len() - 1]));
        lemma_send_frame(state.resend_all(shorter), frames.last(), Priority::Immediate);
    }
}

/// A frame that keeps its invariants and has a wire form is fit to be sent again.
pub proof fn lemma_wf_sendable(frame: FrameView)
    requires
        frame.wf(),
        frame.encodable(),
    ensures
        sendable(frame),
{
}

/// Dropping the backup of one datagram keeps the invariants.
pub proof fn lemma_drop_backup(state: FramerState, sequence: u32)
    requires
        state.output_wf(),
    ensures
        (FramerState { output_backup: state.output_backup.remove(sequence), ..state }).output_wf(),
        state.output_backup.contains_key(sequence) ==> forall|i: int|
            0 <= i < state.output_backup[sequence].len() ==> sendable(
                #[trigger] state.output_backup[sequence][i],
            ),
{
    let dropped = FramerState { output_backup: state.output_backup.remove(sequence), ..state };
    assert forall|s: u32, i: int|
        dropped.output_backup.contains_key(s) && 0 <= i < dropped.output_backup[s].len() implies (
    #[trigger] dropped.output_backup[s][i]).wf() && dropped.output_backup[s][i].encodable() by {
        assert(state.output_backup.contains_key(s));
        assert(dropped.output_backup[s][i] == state.output_backup[s][i]);
    }
    if state.output_backup.contains_key(sequence) {
        assert forall|i: int| 0 <= i < state.output_backup[sequence].len() implies sendable(
            #[trigger] state.output_backup[sequence][i],
        ) by {
            assert(state.output_backup[sequence][i].wf());
            lemma_wf_sendable(state.output_backup[sequence][i]);
        }
    }
}

/// Answering a report of a missing datagram keeps the invariants.
pub proof fn lemma_nack_one(state: FramerState, sequence: u32)
    requires
        state.base_wf(),
        state.output_wf(),
    ensures
        state.nack_one(sequence).output_wf(),
        state.nack_one(sequence).same_input(state),
        state.nack_one(sequence).accepted == state.accepted,
        state.nack_one(sequence).disconnected == state.disconnected,
        state.nack_one(sequence).events == state.events,
{
    if state.output_backup.contains_key(sequence) {
        let frames = state.output_backup[sequence];
        let dropped = FramerState { output_backup: state.output_backup.remove(sequence), ..state };
        assert(dropped.output_wf()) by {
            assert forall|s: u32, i: int|
                dropped.output_backup.contains_key(s) && 0 <= i
                    < dropped.output_backup[s].len() implies (
            #[trigger] dropped.output_backup[s][i]).wf()
                && dropped.output_backup[s][i].encodable() by {
                assert(state.output_backup.contains_key(s));
                assert(dropped.output_backup[s][i] == state.output_backup[s][i]);
            }
        }
        assert forall|i: int| 0 <= i < frames.len() implies sendable(#[trigger] frames[i]) by {
            assert(state.output_backup[sequence][i].wf());
            lemma_wf_sendable(frames[i]);
        }
        lemma_resend_all(dropped, frames);
        lemma_drop_backup(dropped.resend_all(frames), sequence);
    }
}

/// Answering reports of missing datagrams keeps the invariants.
pub proof fn lemma_nack_all(state: FramerState, sequences: Seq<u32>)
    requires
        state.base_wf(),
        state.output_wf(),
    ensures
        state.nack_all(sequences).output_wf(),
        state.nack_all(sequences).same_input(state),
        state.nack_all(sequences).accepted == state.accepted,
        state.nack_all(sequences).disconnected == state.disconnected,
        state.nack_all(sequences).events == state.events,
    decreases sequences.len(),
{
    if sequences.len() > 0 {
        lemma_nack_all(state, sequences.drop_last());
        lemma_nack_one(state.nack_all(sequences.drop_last()), sequences.last());
    }
}

/// Dropping acknowledged backups keeps the invariants.
pub proof fn lemma_ack_all(state: FramerState, sequences: Seq<u32>)
    requires
        state.base_wf(),
        state.output_wf(),
    ensures
        state.ack_all(sequences).output_wf(),
        state.ack_all(sequences).same_input(state),
{
    let after = state.ack_all(sequences);
    assert forall|s: u32, i: int|
        after.output_backup.contains_key(s) && 0 <= i < after.output_backup[s].len() implies (
    #[trigger] after.output_backup[s][i]).wf() && after.output_backup[s][i].encodable() by {
        assert(state.output_backup.contains_key(s));
        assert(after.output_backup[s][i] == state.output_backup[s][i]);
    }
}

/// A payload of the framer's own makes a frame fit to be sent.
pub proof fn lemma_payload_frame(payload: Seq<u8>)
    requires
        payload.len() <= 0xFFFF_FFFF,
    ensures
        sendable(payload_frame(payload)),
{
}

/// Telling the consumer something keeps the invariants.
pub proof fn lemma_emit(state: FramerState, name: Seq<char>, data: Seq<u8>)
    requires
        state.wf(),
    ensures
        state.emit(name, data).wf(),
{
}

/// The word on the connection is no part of the invariants.
pub proof fn lemma_mark(state: FramerState, accepted: bool, disconnected: bool)
    requires
        state.wf(),
    ensures
        (FramerState { accepted, disconnected, ..state }).wf(),
{
}

/// Putting a datagram into the outbox keeps the invariants.
pub proof fn lemma_send_raw(state: FramerState, datagram: Seq<u8>)
    requires
        state.wf(),
    ensures
        state.send_raw(datagram).wf(),
{
}

/// Taking the datagrams or the events away keeps the invariants.
pub proof fn lemma_take_away(state: FramerState)
    requires
        state.wf(),
    ensures
        (FramerState { outbox: Seq::empty(), ..state }).wf(),
        (FramerState { events: Seq::empty(), ..state }).wf(),
{
}

/// Submitting a payload of the framer's own keeps the invariants.
pub proof fn lemma_send_payload(state: FramerState, payload: Seq<u8>)
    requires
        state.base_wf(),
        state.output_wf(),
        payload.len() <= 0xFFFF_FFFF,
    ensures
        state.send_payload(payload).output_wf(),
        state.send_payload(payload).same_input(state),
        state.send_payload(payload).accepted == state.accepted,
        state.send_payload(payload).disconnected == state.disconnected,
        state.send_payload(payload).events == state.events,
{
    lemma_payload_frame(payload);
    lemma_send_frame(state, payload_frame(payload), Priority::Immediate);
}

/// A pong takes 17 bytes.
pub proof fn lemma_pong_len(pong: ConnectedPong)
    ensures
        pong.encode().len() == 17,
{
    lemma_encode_uint_len(to_unsigned(pong.ping_timestamp as int, 8), 8, Endianness::Big);
    lemma_encode_uint_len(to_unsigned(pong.pong_timestamp as int, 8), 8, Endianness::Big);
}

/// A connection request takes 18 bytes.
pub proof fn lemma_connection_request_len(request: ConnectionRequest)
    ensures
        request.encode().len() == 18,
{
    lemma_encode_uint_len(to_unsigned(request.guid as int, 8), 8, Endianness::Big);
    lemma_encode_uint_len(to_unsigned(request.timestamp as int, 8), 8, Endianness::Big);
}

/// The answer to an acceptance has a wire form of at most 626 bytes.
pub proof fn lemma_acceptance_reply(state: FramerState, server_send_time: i64, now: i64)
    requires
        state.base_wf(),
    ensures
        state.acceptance_reply(server_send_time, now).encodable(),
        state.acceptance_reply(server_send_time, now).encode().len() <= 626,
{
    let reply = state.acceptance_reply(server_send_time, now);
    lemma_address_len(reply.server_address);
    lemma_addresses_len(reply.internal_addresses);
    lemma_encode_uint_len(to_unsigned(now as int, 8), 8, Endianness::Big);
    lemma_encode_uint_len(to_unsigned(server_send_time as int, 8), 8, Endianness::Big);
}

/// Taking in a payload keeps the invariants and leaves the inbound side alone.
pub proof fn lemma_handle_packet(state: FramerState, frame: FrameView, now: i64)
    requires
        state.base_wf(),
        state.output_wf(),
    ensures
        state.handle_packet(frame, now).output_wf(),
        state.handle_packet(frame, now).same_input(state),
{
    let payload = frame.payload;
    if payload.len() == 0 {
    } else if payload[0] == ConnectedPing::ID {
        match ConnectedPing::decode(payload) {
            Ok(ping) => {
                let pong = ConnectedPong { ping_timestamp: ping.timestamp, pong_timestamp: now };
                lemma_pong_len(pong);
                lemma_send_payload(state.emit("connected_ping"@, payload), pong.encode());
            },
            Err(_) => {},
        }
    } else if payload[0] == ConnectedPong::ID {
    } else if payload[0] == 0x10 {
        match ConnectionRequestAcceptedView::decode(payload) {
            Ok(accepted) => {
                lemma_acceptance_reply(state, accepted.server_send_time, now);
                let told = FramerState {
                    accepted: true,
                    ..state.emit("connection_request_accepted"@, payload)
                };
                lemma_send_payload(
                    told,
                    state.acceptance_reply(accepted.server_send_time, now).encode(),
                );
            },
            Err(_) => {},
        }
    } else if payload[0] == Ack::ID {
        match decode_sequences(Ack::ID, payload) {
            Ok(sequences) => {
                lemma_ack_all(state, sequences);
            },
            Err(_) => {},
        }
    } else if payload[0] == Nack::ID {
        match decode_sequences(Nack::ID, payload) {
            Ok(sequences) => {
                lemma_nack_all(state, sequences);
            },
            Err(_) => {},
        }
    } else {
    }
}

/// Raising the highest sequence index of a channel keeps the invariants.
pub proof fn lemma_raise_highest(state: FramerState, c: int, index: u32)
    requires
        state.wf(),
        0 <= c < CHANNELS,
        index < INDEX_LIMIT,
    ensures
        (FramerState {
            input_highest_sequence_index: state.input_highest_sequence_index.update(c, index),
            ..state
        }).wf(),
{
}

/// Moving the due index of a channel keeps the invariants.
pub proof fn lemma_move_due(state: FramerState, c: int, index: u32)
    requires
        state.wf(),
        0 <= c < CHANNELS,
        index < INDEX_LIMIT,
    ensures
        (FramerState { input_order_index: state.input_order_index.update(c, index), ..state }).wf(),
{
}

/// Taking a held-back frame out keeps the invariants, and the frame keeps its own.
pub proof fn lemma_take_held(state: FramerState, c: int, index: u32)
    requires
        state.wf(),
        0 <= c < CHANNELS,
    ensures
        (FramerState {
            input_ordering_queue: state.input_ordering_queue.update(
                c,
                state.input_ordering_queue[c].remove(index),
            ),
            ..state
        }).wf(),
        state.input_ordering_queue[c].contains_key(index)
            ==> state.input_ordering_queue[c][index].wf(),
{
    let taken = FramerState {
        input_ordering_queue: state.input_ordering_queue.update(
            c,
            state.input_ordering_queue[c].remove(index),
        ),
        ..state
    };
    assert forall|k: int, i: u32|
        0 <= k < CHANNELS && (
        #[trigger] taken.input_ordering_queue[k].contains_key(i)) implies taken.input_ordering_queue[k][i].wf() by {
        assert(state.input_ordering_queue[k].contains_key(i));
    }
}

/// Holding a frame back keeps the invariants.
pub proof fn lemma_hold(state: FramerState, c: int, index: u32, frame: FrameView)
    requires
        state.wf(),
        0 <= c < CHANNELS,
        frame.wf(),
    ensures
        (FramerState {
            input_ordering_queue: state.input_ordering_queue.update(
                c,
                state.input_ordering_queue[c].insert(index, frame),
            ),
            ..state
        }).wf(),
{
    let held = FramerState {
        input_ordering_queue: state.input_ordering_queue.update(
            c,
            state.input_ordering_queue[c].insert(index, frame),
        ),
        ..state
    };
    assert forall|k: int, i: u32|
        0 <= k < CHANNELS && (
        #[trigger] held.input_ordering_queue[k].contains_key(i)) implies held.input_ordering_queue[k][i].wf() by {
        if k == c && i == index {
        } else {
            assert(state.input_ordering_queue[k].contains_key(i));
        }
    }
}

/// Taking the fragments of a split out of the table keeps the invariants.
pub proof fn lemma_clear_split(state: FramerState, id: u16)
    requires
        state.wf(),
    ensures
        (FramerState { fragments_queue: state.fragments_queue.remove(id), ..state }).wf(),
{
    let cleared = FramerState { fragments_queue: state.fragments_queue.remove(id), ..state };
    assert forall|k: u16, i: u32|
        cleared.fragments_queue.contains_key(k) && (
        #[trigger] cleared.fragments_queue[k].contains_key(i)) implies cleared.fragments_queue[k][i].wf() by {
        assert(state.fragments_queue.contains_key(k));
        assert(state.fragments_queue[k].contains_key(i));
    }
}

/// Putting fragments that keep their invariants into the table keeps the invariants.
pub proof fn lemma_store_split(state: FramerState, id: u16, fragments: Map<u32, FrameView>)
    requires
        state.wf(),
        forall|i: u32| #[trigger] fragments.contains_key(i) ==> fragments[i].wf(),
    ensures
        (FramerState { fragments_queue: state.fragments_queue.insert(id, fragments), ..state }).wf(),
{
    let stored = FramerState { fragments_queue: state.fragments_queue.insert(id, fragments), ..state };
    assert forall|k: u16, i: u32|
        stored.fragments_queue.contains_key(k) && (
        #[trigger] stored.fragments_queue[k].contains_key(i)) implies stored.fragments_queue[k][i].wf() by {
        if k == id {
            assert(fragments.contains_key(i));
        } else {
            assert(state.fragments_queue.contains_key(k));
            assert(state.fragments_queue[k].contains_key(i));
        }
    }
}

/// Complete fragments that keep their invariants make a frame that keeps its own.
pub proof fn lemma_reassemble(fragments: Map<u32, FrameView>, count: u32)
    requires
        count > 0,
        fragments_complete(fragments, count),
        forall|i: u32| #[trigger] fragments.contains_key(i) ==> fragments[i].wf(),
    ensures
        FramerState::reassemble(fragments, count).wf(),
        !FramerState::reassemble(fragments, count).is_split(),
{
    assert(fragments.contains_key(0u32));
    assert(fragments[0u32].wf());
}

/// Taking in a sequenced frame keeps the invariants.
pub proof fn lemma_handle_sequenced_frame(state: FramerState, frame: FrameView, now: i64)
    requires
        state.wf(),
        frame.wf(),
        frame.reliability.spec_is_sequenced(),
    ensures
        state.handle_sequenced_frame(frame, now).wf(),
{
    let c = frame.channel() as int;
    let index = frame.sequence_frame_index->Some_0;
    if index > state.input_highest_sequence_index[c] {
        let raised = FramerState {
            input_highest_sequence_index: state.input_highest_sequence_index.update(c, index),
            ..state
        };
        assert(raised.input_wf());
        lemma_handle_packet(raised, frame, now);
    }
}

/// Delivering held-back frames keeps the invariants.
pub proof fn lemma_drain(state: FramerState, c: int, budget: nat, now: i64)
    requires
        state.wf(),
        0 <= c < CHANNELS,
    ensures
        state.drain(c, budget, now).wf(),
    decreases budget,
{
    let due = state.input_order_index[c];
    if budget == 0 || !state.input_ordering_queue[c].contains_key(due) {
    } else {
        let frame = state.input_ordering_queue[c][due];
        let taken = FramerState {
            input_ordering_queue: state.input_ordering_queue.update(
                c,
                state.input_ordering_queue[c].remove(due),
            ),
            ..state
        };
        assert(taken.input_wf()) by {
            assert forall|k: int, i: u32|
                0 <= k < CHANNELS && (
                #[trigger] taken.input_ordering_queue[k].contains_key(i)) implies taken.input_ordering_queue[k][i].wf() by {
                assert(state.input_ordering_queue[k].contains_key(i));
            }
        }
        lemma_handle_packet(taken, frame, now);
        let delivered = taken.handle_packet(frame, now);
        let moved = FramerState {
            input_order_index: delivered.input_order_index.update(c, next_index(due)),
            ..delivered
        };
        assert(moved.input_wf());
        lemma_drain(moved, c, (budget - 1) as nat, now);
    }
}

/// Taking in an ordered frame keeps the invariants.
pub proof fn lemma_handle_ordered_frame(state: FramerState, frame: FrameView, now: i64)
    requires
        state.wf(),
        frame.wf(),
        frame.reliability.spec_is_ordered(),
    ensures
        state.handle_ordered_frame(frame, now).wf(),
{
    let c = frame.channel() as int;
    let index = frame.ordered_frame_index->Some_0;
    let due = state.input_order_index[c];
    if index == due {
        lemma_handle_packet(state, frame, now);
        let delivered = state.handle_packet(frame, now);
        let moved = FramerState {
            input_order_index: delivered.input_order_index.update(c, next_index(due)),
            ..delivered
        };
        assert(moved.input_wf());
        lemma_drain(moved, c, MAX_DRAIN as nat, now);
    } else if index > due {
        let held = FramerState {
            input_ordering_queue: state.input_ordering_queue.update(
                c,
                state.input_ordering_queue[c].insert(index, frame),
            ),
            ..state
        };
        assert(held.input_wf()) by {
            assert forall|k: int, i: u32|
                0 <= k < CHANNELS && (
                #[trigger] held.input_ordering_queue[k].contains_key(i)) implies held.input_ordering_queue[k][i].wf() by {
                if k == c && i == index {
                } else {
                    assert(state.input_ordering_queue[k].contains_key(i));
                }
            }
        }
    }
}

/// Taking in a whole frame keeps the invariants.
pub proof fn lemma_dispatch(state: FramerState, frame: FrameView, now: i64)
    requires
        state.wf(),
        frame.wf(),
    ensures
        state.dispatch(frame, now).wf(),
{
    if frame.reliability.spec_is_sequenced() {
        lemma_handle_sequenced_frame(state, frame, now);
    } else if frame.reliability.spec_is_ordered() {
        lemma_handle_ordered_frame(state, frame, now);
    } else {
        lemma_handle_packet(state, frame, now);
    }
}

/// A fragment joins only fragments that keep their invariants.
pub proof fn lemma_fragments_with(state: FramerState, frame: FrameView)
    requires
        state.wf(),
        frame.wf(),
        frame.is_split(),
    ensures
        forall|i: u32| #[trigger]
            state.fragments_with(frame).contains_key(i) ==> state.fragments_with(frame)[i].wf(),
{
    let id = frame.split_id->Some_0;
    assert forall|i: u32| #[trigger]
        state.fragments_with(frame).contains_key(i) implies state.fragments_with(frame)[i].wf() by {
        if state.fragments_queue.contains_key(id) && state.fragments_queue[id].contains_key(i) {
            assert(state.fragments_queue[id][i].wf());
        }
    }
}

/// Taking in a fragment keeps the invariants.
pub proof fn lemma_handle_split_frame(state: FramerState, frame: FrameView, now: i64)
    requires
        state.wf(),
        frame.wf(),
        frame.is_split(),
    ensures
        state.handle_split_frame(frame, now).wf(),
{
    let id = frame.split_id->Some_0;
    let count = frame.split_size->Some_0;
    let fragments = state.fragments_with(frame);
    lemma_fragments_with(state, frame);
    if fragments_complete(fragments, count) {
        let cleared = FramerState { fragments_queue: state.fragments_queue.remove(id), ..state };
        assert(cleared.input_wf()) by {
            assert forall|k: u16, i: u32|
                cleared.fragments_queue.contains_key(k) && (
                #[trigger] cleared.fragments_queue[k].contains_key(i)) implies cleared.fragments_queue[k][i].wf() by {
                assert(state.fragments_queue.contains_key(k));
                assert(state.fragments_queue[k].contains_key(i));
            }
        }
        assert(fragments.contains_key(0u32));
        assert(fragments[0u32].wf());
        let whole = FramerState::reassemble(fragments, count);
        assert(whole.wf());
        lemma_dispatch(cleared, whole, now);
    } else {
        let stored = FramerState { fragments_queue: state.fragments_queue.insert(id, fragments), ..state };
        assert(stored.input_wf()) by {
            assert forall|k: u16, i: u32|
                stored.fragments_queue.contains_key(k) && (
                #[trigger] stored.fragments_queue[k].contains_key(i)) implies stored.fragments_queue[k][i].wf() by {
                if k == id {
                    assert(fragments.contains_key(i));
                } else {
                    assert(state.fragments_queue.contains_key(k));
                    assert(state.fragments_queue[k].contains_key(i));
                }
            }
        }
    }
}

/// Taking in a frame keeps the invariants.
pub proof fn lemma_handle_frame(state: FramerState, frame: FrameView, now: i64)
    requires
        state.wf(),
        frame.wf(),
    ensures
        state.handle_frame(frame, now).wf(),
{
    if frame.is_split() {
        lemma_handle_split_frame(state, frame, now);
    } else {
        lemma_dispatch(state, frame, now);
    }
}

/// Taking in frames keeps the invariants.
pub proof fn lemma_handle_frames(state: FramerState, frames: Seq<FrameView>, now: i64)
    requires
        state.wf(),
        forall|i: int| 0 <= i < frames.len() ==> (#[trigger] frames[i]).wf(),
    ensures
        state.handle_frames(frames, now).wf(),
    decreases frames.len(),
{
    if frames.len() > 0 {
        let shorter = frames.drop_last();
        assert forall|i: int| 0 <= i < shorter.len() implies (#[trigger] shorter[i]).wf() by {
            assert(shorter[i] == frames[i]);
        }
        lemma_handle_frames(state, shorter, now);
        assert(frames[frames.len() - 1].wf());
        lemma_handle_frame(state.handle_frames(shorter, now), frames.last(), now);
    }
}

/// Taking in a datagram keeps the invariants.
pub proof fn lemma_on_frameset(state: FramerState, set: FrameSetView, now: i64)
    requires
        state.wf(),
        set.wf(),
    ensures
        state.on_frameset(set, now).wf(),
{
    let sequence = set.sequence;
    if state.received.contains(sequence) {
    } else if sequence <= state.last_input_sequence {
        let struck = FramerState { lost: state.lost.remove(sequence), ..state };
        assert(struck.input_wf());
    } else {
        let received = state.received.insert(sequence);
        let noted = FramerState {
            received,
            lost: state.lost.remove(sequence).union(
                Set::new(
                    |g: u32| state.last_input_sequence < g < sequence && !received.contains(g),
                ),
            ),
            last_input_sequence: sequence as int,
            ..state
        };
        assert(noted.input_wf());
        lemma_handle_frames(noted, set.frames, now);
    }
}

/// The periodic work keeps the invariants.
pub proof fn lemma_tick(state: FramerState)
    requires
        state.wf(),
    ensures
        state.tick().wf(),
{
    let acked = FramerState {
        received: Set::empty(),
        ..state.send_report(Ack::ID, state.received)
    };
    assert(acked.wf());
    let nacked = FramerState { lost: Set::empty(), ..acked.send_report(Nack::ID, acked.lost) };
    assert(nacked.wf());
    lemma_flush(nacked, nacked.output_frames.len());
}

/// Asking for the connection keeps the invariants.
pub proof fn lemma_send_connect(state: FramerState, now: i64)
    requires
        state.wf(),
    ensures
        state.send_connect(now).wf(),
{
    let request = ConnectionRequest { guid: state.guid, timestamp: now, security: false };
    lemma_connection_request_len(request);
    lemma_send_payload(state, request.encode());
}

} // verus!
