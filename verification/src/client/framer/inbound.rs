//! The inbound path: arrivals, reassembly, ordering and the packets of the peer.

use crate::ack::{decode_sequences, deserialize_sequences, Ack, Nack};
use crate::address::{addresses_view, Address};
use crate::client::framer::{backup_view, frame_map_view, next_counter, Framer};
use crate::client::framer::tables::{
    all_fragments_there, hold_back, note_missing, put_fragments, reassemble, take_fragments,
    take_held,
};
use crate::client::invariants::{
    lemma_acceptance_reply, lemma_ack_all, lemma_clear_split, lemma_drop_backup,
    lemma_fragments_with, lemma_handle_packet, lemma_hold, lemma_move_due, lemma_pong_len,
    lemma_raise_highest, lemma_reassemble, lemma_store_split, lemma_take_held,
};
use crate::client::model::{
    fragments_complete, next_index, sendable, FramerState, Priority, MAX_DRAIN,
};
use crate::clock::unix_timestamp;
use crate::frame::{frames_view, Frame, FrameView, CHANNELS, INDEX_LIMIT};
use crate::frameset::FrameSet;
use crate::proto::connected_ping::ConnectedPing;
use crate::proto::connected_pong::ConnectedPong;
use crate::proto::connection_request_accepted::{
    ConnectionRequestAccepted, ConnectionRequestAcceptedView, SYSTEM_ADDRESSES,
};
use crate::proto::new_incomming_connection::NewIncommingConnection;
use vstd::prelude::*;

verus! {

broadcast use vstd::std_specs::hash::group_hash_axioms;

impl Framer {
    /// Drops the backup of every datagram of the list.
    fn drop_backups(&mut self, sequences: &Vec<u32>)
        requires
            old(self).wf(),
        ensures
            final(self).wf(),
            final(self)@ == old(self)@.ack_all(sequences@),
    {
        reveal(Framer::wf);
        let ghost before = self@;
        let ghost kept = self.output_backup@;
        let mut i: usize = 0;
        proof {
            assert(sequences@.take(0).to_set() =~= Set::<u32>::empty());
            assert(kept.remove_keys(Set::<u32>::empty()) =~= kept);
        }
        while i < sequences.len()
            invariant
                i <= sequences@.len(),
                self.output_backup@ == kept.remove_keys(sequences@.take(i as int).to_set()),
                self@ == (FramerState { output_backup: self@.output_backup, ..before }),
            decreases sequences@.len() - i,
        {
            let sequence: u32 = sequences[i];
            let ghost so_far = self.output_backup@;
            let _ = self.output_backup.remove(&sequence);
            proof {
                let shorter = sequences@.take(i as int);
                let longer = sequences@.take(i + 1);
                assert(longer =~= shorter.push(sequence));
                assert(longer.to_set() =~= shorter.to_set().insert(sequence)) by {
                    assert forall|v: u32|
                        longer.to_set().contains(v) <==> shorter.to_set().insert(sequence).contains(
                            v,
                        ) by {
                        if longer.contains(v) {
                            let p = choose|p: int| 0 <= p < longer.len() && longer[p] == v;
                            if p < i {
                                assert(shorter[p] == v);
                                assert(shorter.contains(v));
                            }
                        }
                        if shorter.contains(v) {
                            let p = choose|p: int| 0 <= p < shorter.len() && shorter[p] == v;
                            assert(longer[p] == v);
                            assert(longer.contains(v));
                        }
                        if v == sequence {
                            assert(longer[i as int] == v);
                            assert(longer.contains(v));
                        }
                    }
                }
                assert(self.output_backup@ =~= kept.remove_keys(longer.to_set()));
            }
            i += 1;
        }
        proof {
            assert(sequences@.take(i as int) =~= sequences@);
            assert(backup_view(self.output_backup@) =~= backup_view(kept).remove_keys(
                sequences@.to_set(),
            ));
            lemma_ack_all(before, sequences@);
        }
    }

    /// Drops the backup of datagram `sequence` and hands out the frames it held.
    fn take_backup(&mut self, sequence: u32) -> (frames: Option<Vec<Frame>>)
        requires
            old(self).wf(),
        ensures
            final(self).wf(),
            final(self)@ == (FramerState {
                output_backup: old(self)@.output_backup.remove(sequence),
                ..old(self)@
            }),
            match frames {
                Some(held) => old(self)@.output_backup.contains_key(sequence) && frames_view(held@)
                    == old(self)@.output_backup[sequence],
                None => !old(self)@.output_backup.contains_key(sequence),
            },
    {
        reveal(Framer::wf);
        let ghost before = self@;
        let ghost kept = self.output_backup@;
        proof {
            lemma_drop_backup(before, sequence);
        }
        let frames = self.output_backup.remove(&sequence);
        proof {
            assert(backup_view(self.output_backup@) =~= backup_view(kept).remove(sequence));
        }
        frames
    }

    /// Answers a report that datagram `sequence` is missing.
    fn resend_datagram(&mut self, sequence: u32)
        requires
            old(self).wf(),
        ensures
            final(self).wf(),
            final(self)@ == old(self)@.nack_one(sequence),
    {
        let ghost before = self@;
        proof {
            reveal(Framer::wf);
            lemma_drop_backup(before, sequence);
        }
        match self.take_backup(sequence) {
            Some(frames) => {
                let ghost dropped = self@;
                let ghost views = frames_view(frames@);
                let mut i: usize = 0;
                proof {
                    assert(views.take(0) =~= Seq::<FrameView>::empty());
                }
                while i < frames.len()
                    invariant
                        i <= frames@.len(),
                        views == frames_view(frames@),
                        forall|k: int| 0 <= k < views.len() ==> sendable(#[trigger] views[k]),
                        self.wf(),
                        self@ == dropped.resend_all(views.take(i as int)),
                    decreases frames@.len() - i,
                {
                    let mut frame = frames[i].clone();
                    proof {
                        let longer = views.take(i + 1);
                        assert(longer.drop_last() =~= views.take(i as int));
                        assert(longer.last() == views[i as int]);
                        assert(sendable(views[i as int]));
                    }
                    self.send_frame(&mut frame, Some(Priority::Immediate));
                    i += 1;
                }
                proof {
                    assert(views.take(i as int) =~= views);
                }
                let _ = self.take_backup(sequence);
            },
            None => {
                proof {
                    assert(before.output_backup.remove(sequence) =~= before.output_backup);
                }
            },
        }
    }

    /// Answers the reports of missing datagrams one after the other.
    fn resend_datagrams(&mut self, sequences: &Vec<u32>)
        requires
            old(self).wf(),
        ensures
            final(self).wf(),
            final(self)@ == old(self)@.nack_all(sequences@),
    {
        let ghost before = self@;
        let mut i: usize = 0;
        proof {
            assert(sequences@.take(0) =~= Seq::<u32>::empty());
        }
        while i < sequences.len()
            invariant
                i <= sequences@.len(),
                self.wf(),
                self@ == before.nack_all(sequences@.take(i as int)),
            decreases sequences@.len() - i,
        {
            proof {
                let longer = sequences@.take(i + 1);
                assert(longer.drop_last() =~= sequences@.take(i as int));
                assert(longer.last() == sequences@[i as int]);
            }
            self.resend_datagram(sequences[i]);
            i += 1;
        }
        proof {
            assert(sequences@.take(i as int) =~= sequences@);
        }
    }

    /// Twenty times the local address.
    fn local_addresses(&self) -> (list: Vec<Address>)
        ensures
            addresses_view(list@) == Seq::new(SYSTEM_ADDRESSES as nat, |i: int| self@.local_address),
    {
        let mut list: Vec<Address> = Vec::new();
        let mut i: usize = 0;
        while i < SYSTEM_ADDRESSES
            invariant
                i <= SYSTEM_ADDRESSES,
                list@.len() == i,
                forall|k: int| 0 <= k < i ==> (#[trigger] list@[k])@ == self.local_address@,
            decreases SYSTEM_ADDRESSES - i,
        {
            list.push(self.local_address.clone());
            i += 1;
        }
        proof {
            assert(addresses_view(list@) =~= Seq::new(
                SYSTEM_ADDRESSES as nat,
                |i: int| self@.local_address,
            ));
        }
        list
    }

    /// The wire form of the answer to an acceptance.
    fn acceptance_reply(&self, server_send_time: i64, now: i64) -> (bytes: Vec<u8>)
        requires
            self.wf(),
        ensures
            bytes@ == self@.acceptance_reply(server_send_time, now).encode(),
            bytes@.len() <= 626,
    {
        proof {
            reveal(Framer::wf);
            lemma_acceptance_reply(self@, server_send_time, now);
        }
        let reply = NewIncommingConnection::new(
            self.server_address.clone(),
            self.local_addresses(),
            now,
            server_send_time,
        );
        assert(reply@ == self@.acceptance_reply(server_send_time, now));
        match reply.serialize() {
            Ok(bytes) => bytes,
            Err(_) => {
                assert(false);
                Vec::new()
            },
        }
    }

    /// Takes in a ping: the consumer is told, and a pong goes out.
    fn answer_ping(&mut self, frame: &Frame, now: i64)
        requires
            old(self).wf(),
        ensures
            final(self).wf(),
            final(self)@ == (match ConnectedPing::decode(frame@.payload) {
                Ok(ping) => old(self)@.emit("connected_ping"@, frame@.payload).send_payload(
                    (ConnectedPong { ping_timestamp: ping.timestamp, pong_timestamp: now }).encode(),
                ),
                Err(_) => old(self)@,
            }),
    {
        match ConnectedPing::deserialize(frame.payload.as_slice()) {
            Ok(ping) => {
                self.emit_event("connected_ping", frame.payload.clone());
                let pong = ConnectedPong::new(ping.timestamp, now);
                proof {
                    lemma_pong_len(pong);
                }
                self.send_payload(pong.serialize());
            },
            Err(_) => {},
        }
    }

    /// Takes in an acceptance: the consumer is told, the acceptance is noted, and the
    /// answer goes out.
    fn answer_acceptance(&mut self, frame: &Frame, now: i64)
        requires
            old(self).wf(),
        ensures
            final(self).wf(),
            final(self)@ == (match ConnectionRequestAcceptedView::decode(frame@.payload) {
                Ok(accepted) => (FramerState {
                    accepted: true,
                    ..old(self)@.emit("connection_request_accepted"@, frame@.payload)
                }).send_payload(
                    old(self)@.acceptance_reply(accepted.server_send_time, now).encode(),
                ),
                Err(_) => old(self)@,
            }),
    {
        match ConnectionRequestAccepted::deserialize(frame.payload.as_slice()) {
            Ok(accepted) => {
                let bytes = self.acceptance_reply(accepted.server_send_time, now);
                self.emit_event("connection_request_accepted", frame.payload.clone());
                let disconnected = self.is_disconnected();
                self.mark(true, disconnected);
                self.send_payload(bytes);
            },
            Err(_) => {},
        }
    }

    /// Takes in an acknowledgement.
    fn take_ack(&mut self, frame: &Frame)
        requires
            old(self).wf(),
        ensures
            final(self).wf(),
            final(self)@ == (match decode_sequences(Ack::ID, frame@.payload) {
                Ok(sequences) => old(self)@.ack_all(sequences),
                Err(_) => old(self)@,
            }),
    {
        match deserialize_sequences(Ack::ID, frame.payload.as_slice()) {
            Ok(sequences) => {
                self.drop_backups(&sequences);
            },
            Err(_) => {},
        }
    }

    /// Takes in a negative acknowledgement.
    fn take_nack(&mut self, frame: &Frame)
        requires
            old(self).wf(),
        ensures
            final(self).wf(),
            final(self)@ == (match decode_sequences(Nack::ID, frame@.payload) {
                Ok(sequences) => old(self)@.nack_all(sequences),
                Err(_) => old(self)@,
            }),
    {
        match deserialize_sequences(Nack::ID, frame.payload.as_slice()) {
            Ok(sequences) => {
                self.resend_datagrams(&sequences);
            },
            Err(_) => {},
        }
    }

    /// Takes in a payload that has passed reassembly and ordering, at the time `now`.
    pub fn handle_packet_at(&mut self, frame: &Frame, now: i64)
        requires
            old(self).wf(),
        ensures
            final(self).wf(),
            final(self)@ == old(self)@.handle_packet(frame@, now),
    {
        if frame.payload.len() == 0 {
            return ;
        }
        let id: u8 = frame.payload[0];
        if id == ConnectedPing::ID {
            self.answer_ping(frame, now);
        } else if id == ConnectedPong::ID {
            self.emit_event("connected_pong", frame.payload.clone());
        } else if id == ConnectionRequestAccepted::ID {
            self.answer_acceptance(frame, now);
        } else if id == Ack::ID {
            self.take_ack(frame);
        } else if id == Nack::ID {
            self.take_nack(frame);
        } else if id == 0xFE {
            self.emit_event("encapsulated", frame.payload.clone());
        } else if id == 0x15 {
            self.emit_event("disconnect", frame.payload.clone());
            let accepted = self.is_accepted();
            self.mark(accepted, true);
        } else {
            self.emit_event("unknown_packet", frame.payload.clone());
        }
    }

    /// Takes in a payload that has passed reassembly and ordering, at the time the
    /// clock shows.
    pub fn handle_packet(&mut self, frame: &Frame)
        requires
            old(self).wf(),
        ensures
            final(self).wf(),
            exists|now: i64| final(self)@ == #[trigger] old(self)@.handle_packet(frame@, now),
    {
        let now: i64 = unix_timestamp();
        self.handle_packet_at(frame, now);
    }

    /// Takes in a sequenced frame at the time `now`.
    pub fn handle_sequenced_frame_at(&mut self, frame: &Frame, now: i64)
        requires
            old(self).wf(),
            frame@.wf(),
            frame@.reliability.spec_is_sequenced(),
        ensures
            final(self).wf(),
            final(self)@ == old(self)@.handle_sequenced_frame(frame@, now),
    {
        let channel: u8 = match frame.order_channel {
            Some(channel) => channel,
            None => 0,
        };
        let index: u32 = match frame.sequence_frame_index {
            Some(index) => index,
            None => 0,
        };
        if self.raise_highest(channel, index) {
            self.handle_packet_at(frame, now);
        }
    }

    /// Raises the highest sequence index of the channel to `index` where that is
    /// higher, and says whether it was.
    fn raise_highest(&mut self, channel: u8, index: u32) -> (raised: bool)
        requires
            old(self).wf(),
            channel < CHANNELS,
            index < INDEX_LIMIT,
        ensures
            final(self).wf(),
            raised == (index > old(self)@.input_highest_sequence_index[channel as int]),
            final(self)@ == (if raised {
                FramerState {
                    input_highest_sequence_index: old(self)@.input_highest_sequence_index.update(
                        channel as int,
                        index,
                    ),
                    ..old(self)@
                }
            } else {
                old(self)@
            }),
    {
        reveal(Framer::wf);
        proof {
            lemma_raise_highest(self@, channel as int, index);
        }
        let c: usize = channel as usize;
        if index > self.input_highest_sequence_index[c] {
            self.input_highest_sequence_index.set(c, index);
            true
        } else {
            false
        }
    }

    /// The ordered index that is due on the channel.
    fn due_index(&self, channel: u8) -> (due: u32)
        requires
            self.wf(),
            channel < CHANNELS,
        ensures
            due == self@.input_order_index[channel as int],
            due < INDEX_LIMIT,
    {
        reveal(Framer::wf);
        self.input_order_index[channel as usize]
    }

    /// Moves the due index of the channel on by one.
    fn advance_due(&mut self, channel: u8)
        requires
            old(self).wf(),
            channel < CHANNELS,
        ensures
            final(self).wf(),
            final(self)@ == (FramerState {
                input_order_index: old(self)@.input_order_index.update(
                    channel as int,
                    next_index(old(self)@.input_order_index[channel as int]),
                ),
                ..old(self)@
            }),
    {
        reveal(Framer::wf);
        let c: usize = channel as usize;
        let next: u32 = next_counter(self.input_order_index[c]);
        proof {
            lemma_move_due(self@, channel as int, next);
        }
        self.input_order_index.set(c, next);
    }

    /// Takes the held-back frame that is due on the channel, where there is one.
    fn take_due(&mut self, channel: u8) -> (frame: Option<Frame>)
        requires
            old(self).wf(),
            channel < CHANNELS,
        ensures
            final(self).wf(),
            ({
                let before = old(self)@;
                let c = channel as int;
                let due = before.input_order_index[c];
                match frame {
                    Some(held) => {
                        &&& before.input_ordering_queue[c].contains_key(due)
                        &&& held@ == before.input_ordering_queue[c][due]
                        &&& held@.wf()
                        &&& final(self)@ == (FramerState {
                            input_ordering_queue: before.input_ordering_queue.update(
                                c,
                                before.input_ordering_queue[c].remove(due),
                            ),
                            ..before
                        })
                    },
                    None => {
                        &&& !before.input_ordering_queue[c].contains_key(due)
                        &&& final(self)@ == before
                    },
                }
            }),
    {
        reveal(Framer::wf);
        let ghost before = self@;
        let c: usize = channel as usize;
        let due: u32 = self.input_order_index[c];
        proof {
            lemma_take_held(before, c as int, due);
        }
        let frame = take_held(&mut self.input_ordering_queue, c, due);
        proof {
            if frame is None {
                assert(before.input_ordering_queue[c as int].remove(due)
                    =~= before.input_ordering_queue[c as int]);
                assert(before.input_ordering_queue.update(
                    c as int,
                    before.input_ordering_queue[c as int],
                ) =~= before.input_ordering_queue);
            }
        }
        frame
    }

    /// Holds an ordered frame back until its turn.
    fn hold(&mut self, channel: u8, index: u32, frame: &Frame)
        requires
            old(self).wf(),
            channel < CHANNELS,
            frame@.wf(),
        ensures
            final(self).wf(),
            final(self)@ == (FramerState {
                input_ordering_queue: old(self)@.input_ordering_queue.update(
                    channel as int,
                    old(self)@.input_ordering_queue[channel as int].insert(index, frame@),
                ),
                ..old(self)@
            }),
    {
        reveal(Framer::wf);
        proof {
            lemma_hold(self@, channel as int, index, frame@);
        }
        hold_back(&mut self.input_ordering_queue, channel as usize, index, frame.clone());
    }

    /// Delivers the held-back frames of the channel that are due, at most `budget`.
    fn drain(&mut self, channel: u8, budget: usize, now: i64)
        requires
            old(self).wf(),
            channel < CHANNELS,
        ensures
            final(self).wf(),
            final(self)@ == old(self)@.drain(channel as int, budget as nat, now),
    {
        let ghost before = self@;
        let mut left: usize = budget;
        let mut more: bool = true;
        while more && left > 0
            invariant
                channel < CHANNELS,
                self.wf(),
                more ==> before.drain(channel as int, budget as nat, now) == self@.drain(
                    channel as int,
                    left as nat,
                    now,
                ),
                !more ==> before.drain(channel as int, budget as nat, now) == self@,
            decreases left, (if more {
                1int
            } else {
                0int
            }),
        {
            let ghost start = self@;
            match self.take_due(channel) {
                Some(frame) => {
                    let ghost taken = self@;
                    self.handle_packet_at(&frame, now);
                    let ghost delivered = self@;
                    proof {
                        reveal(Framer::wf);
                        lemma_handle_packet(taken, frame@, now);
                        assert(delivered.input_order_index == start.input_order_index);
                    }
                    self.advance_due(channel);
                    proof {
                        assert(start.drain(channel as int, left as nat, now) == self@.drain(
                            channel as int,
                            (left - 1) as nat,
                            now,
                        ));
                    }
                    left -= 1;
                },
                None => {
                    proof {
                        assert(start.drain(channel as int, left as nat, now) == start);
                    }
                    more = false;
                },
            }
        }
    }

    /// Takes in an ordered frame at the time `now`.
    pub fn handle_ordered_frame_at(&mut self, frame: &Frame, now: i64)
        requires
            old(self).wf(),
            frame@.wf(),
            frame@.reliability.spec_is_ordered(),
        ensures
            final(self).wf(),
            final(self)@ == old(self)@.handle_ordered_frame(frame@, now),
    {
        let channel: u8 = match frame.order_channel {
            Some(channel) => channel,
            None => 0,
        };
        let index: u32 = match frame.ordered_frame_index {
            Some(index) => index,
            None => 0,
        };
        let due: u32 = self.due_index(channel);
        if index == due {
            self.handle_packet_at(frame, now);
            proof {
                reveal(Framer::wf);
                lemma_handle_packet(old(self)@, frame@, now);
            }
            self.advance_due(channel);
            self.drain(channel, MAX_DRAIN, now);
        } else if index > due {
            self.hold(channel, index, frame);
        }
    }

    /// Takes in a frame that is whole, at the time `now`.
    fn dispatch(&mut self, frame: &Frame, now: i64)
        requires
            old(self).wf(),
            frame@.wf(),
        ensures
            final(self).wf(),
            final(self)@ == old(self)@.dispatch(frame@, now),
    {
        if frame.reliability.is_sequenced() {
            self.handle_sequenced_frame_at(frame, now);
        } else if frame.reliability.is_ordered() {
            self.handle_ordered_frame_at(frame, now);
        } else {
            self.handle_packet_at(frame, now);
        }
    }

    /// Lets the fragment join those of its split, and hands out the whole frame where
    /// it completes them; else the fragments wait in the table.
    fn join_fragment(&mut self, frame: &Frame) -> (whole: Option<Frame>)
        requires
            old(self).wf(),
            frame@.wf(),
            frame@.is_split(),
        ensures
            final(self).wf(),
            ({
                let before = old(self)@;
                let id = frame@.split_id->Some_0;
                let count = frame@.split_size->Some_0;
                let fragments = before.fragments_with(frame@);
                match whole {
                    Some(built) => {
                        &&& fragments_complete(fragments, count)
                        &&& built@ == FramerState::reassemble(fragments, count)
                        &&& built@.wf()
                        &&& final(self)@ == (FramerState {
                            fragments_queue: before.fragments_queue.remove(id),
                            ..before
                        })
                    },
                    None => {
                        &&& !fragments_complete(fragments, count)
                        &&& final(self)@ == (FramerState {
                            fragments_queue: before.fragments_queue.insert(id, fragments),
                            ..before
                        })
                    },
                }
            }),
    {
        reveal(Framer::wf);
        let ghost before = self@;
        let id: u16 = match frame.split_id {
            Some(id) => id,
            None => 0,
        };
        let index: u32 = match frame.split_frame_index {
            Some(index) => index,
            None => 0,
        };
        let count: u32 = match frame.split_size {
            Some(count) => count,
            None => 0,
        };
        proof {
            lemma_fragments_with(before, frame@);
            lemma_clear_split(before, id);
            lemma_store_split(before, id, before.fragments_with(frame@));
        }
        let mut fragments = take_fragments(&mut self.fragments_queue, id);
        if !fragments.contains_key(&index) {
            let ghost so_far = fragments@;
            let _ = fragments.insert(index, frame.clone());
            proof {
                assert(frame_map_view(fragments@) =~= frame_map_view(so_far).insert(index, frame@));
            }
        }
        assert(frame_map_view(fragments@) == before.fragments_with(frame@));
        if all_fragments_there(&fragments, count) {
            proof {
                lemma_reassemble(before.fragments_with(frame@), count);
            }
            Some(reassemble(&fragments, count))
        } else {
            let ghost cleared = self.fragments_queue@;
            put_fragments(&mut self.fragments_queue, id, fragments);
            proof {
                assert(before.fragments_queue.remove(id).insert(id, before.fragments_with(frame@))
                    =~= before.fragments_queue.insert(id, before.fragments_with(frame@)));
            }
            None
        }
    }

    /// Takes in a fragment at the time `now`.
    pub fn handle_split_frame_at(&mut self, frame: &Frame, now: i64)
        requires
            old(self).wf(),
            frame@.wf(),
            frame@.is_split(),
        ensures
            final(self).wf(),
            final(self)@ == old(self)@.handle_split_frame(frame@, now),
    {
        match self.join_fragment(frame) {
            Some(whole) => {
                self.dispatch(&whole, now);
            },
            None => {},
        }
    }

    /// Takes in one frame of a datagram at the time `now`.
    pub fn handle_frame_at(&mut self, frame: &Frame, now: i64)
        requires
            old(self).wf(),
            frame@.wf(),
        ensures
            final(self).wf(),
            final(self)@ == old(self)@.handle_frame(frame@, now),
    {
        if frame.is_split() {
            self.handle_split_frame_at(frame, now);
        } else {
            self.dispatch(frame, now);
        }
    }

    /// Notes the arrival of datagram `sequence` and says whether its frames are to
    /// be taken in.
    fn note_arrival(&mut self, sequence: u32) -> (fresh: bool)
        requires
            old(self).wf(),
            sequence < INDEX_LIMIT,
        ensures
            final(self).wf(),
            ({
                let before = old(self)@;
                let received = before.received.insert(sequence);
                if before.received.contains(sequence) {
                    !fresh && final(self)@ == before
                } else if sequence <= before.last_input_sequence {
                    !fresh && final(self)@ == (FramerState {
                        lost: before.lost.remove(sequence),
                        ..before
                    })
                } else {
                    fresh && final(self)@ == (FramerState {
                        received,
                        lost: before.lost.remove(sequence).union(
                            Set::new(
                                |g: u32|
                                    before.last_input_sequence < g < sequence && !received.contains(
                                        g,
                                    ),
                            ),
                        ),
                        last_input_sequence: sequence as int,
                        ..before
                    })
                }
            }),
    {
        reveal(Framer::wf);
        let ghost before = self@;
        if self.received_frame_sequences.contains(&sequence) {
            return false;
        }
        let _ = self.lost_frame_sequences.remove(&sequence);
        if sequence as i32 <= self.last_input_sequence {
            proof {
                assert(self@.input_wf());
            }
            return false;
        }
        let last: i32 = self.last_input_sequence;
        let _ = self.received_frame_sequences.insert(sequence);
        note_missing(
            &mut self.lost_frame_sequences,
            &self.received_frame_sequences,
            (last + 1) as u32,
            sequence,
        );
        self.last_input_sequence = sequence as i32;
        proof {
            let received = before.received.insert(sequence);
            let gaps = Set::new(
                |g: u32| before.last_input_sequence < g < sequence && !received.contains(g),
            );
            assert(gaps =~= Set::new(
                |g: u32| (last + 1) as u32 <= g < sequence && !received.contains(g),
            ));
            assert(self@.lost =~= before.lost.remove(sequence).union(gaps));
            assert(self@.input_wf());
        }
        true
    }

    /// Takes in a datagram at the time `now`.
    pub fn on_frameset_at(&mut self, frameset: &FrameSet, now: i64)
        requires
            old(self).wf(),
            frameset@.wf(),
        ensures
            final(self).wf(),
            final(self)@ == old(self)@.on_frameset(frameset@, now),
    {
        if !self.note_arrival(frameset.sequence) {
            return ;
        }
        let ghost noted = self@;
        let ghost views = frameset@.frames;
        let mut i: usize = 0;
        proof {
            assert(views.take(0) =~= Seq::<FrameView>::empty());
        }
        while i < frameset.frames.len()
            invariant
                i <= frameset.frames@.len(),
                views == frameset@.frames,
                views.len() == frameset.frames@.len(),
                forall|k: int| 0 <= k < views.len() ==> (#[trigger] views[k]).wf(),
                self.wf(),
                self@ == noted.handle_frames(views.take(i as int), now),
            decreases frameset.frames@.len() - i,
        {
            proof {
                let longer = views.take(i + 1);
                assert(longer.drop_last() =~= views.take(i as int));
                assert(longer.last() == views[i as int]);
                assert(views[i as int].wf());
                assert(frameset.frames@[i as int]@ == views[i as int]);
            }
            self.handle_frame_at(&frameset.frames[i], now);
            i += 1;
        }
        proof {
            assert(views.take(i as int) =~= views);
        }
    }

    /// Takes in a datagram at the time the clock shows.
    pub fn on_frameset(&mut self, frameset: &FrameSet)
        requires
            old(self).wf(),
            frameset@.wf(),
        ensures
            final(self).wf(),
            exists|now: i64| final(self)@ == #[trigger] old(self)@.on_frameset(frameset@, now),
    {
        let now: i64 = unix_timestamp();
        self.on_frameset_at(frameset, now);
    }

    /// Takes in one frame of a datagram at the time the clock shows.
    pub fn handle_frame(&mut self, frame: &Frame)
        requires
            old(self).wf(),
            frame@.wf(),
        ensures
            final(self).wf(),
            exists|now: i64| final(self)@ == #[trigger] old(self)@.handle_frame(frame@, now),
    {
        let now: i64 = unix_timestamp();
        self.handle_frame_at(frame, now);
    }

    /// Takes in a fragment at the time the clock shows.
    pub fn handle_split_frame(&mut self, frame: &Frame)
        requires
            old(self).wf(),
            frame@.wf(),
            frame@.is_split(),
        ensures
            final(self).wf(),
            exists|now: i64| final(self)@ == #[trigger] old(self)@.handle_split_frame(frame@, now),
    {
        let now: i64 = unix_timestamp();
        self.handle_split_frame_at(frame, now);
    }

    /// Takes in a sequenced frame at the time the clock shows.
    pub fn handle_sequenced_frame(&mut self, frame: &Frame)
        requires
            old(self).wf(),
            frame@.wf(),
            frame@.reliability.spec_is_sequenced(),
        ensures
            final(self).wf(),
            exists|now: i64|
                final(self)@ == #[trigger] old(self)@.handle_sequenced_frame(frame@, now),
    {
        let now: i64 = unix_timestamp();
        self.handle_sequenced_frame_at(frame, now);
    }

    /// Takes in an ordered frame at the time the clock shows.
    pub fn handle_ordered_frame(&mut self, frame: &Frame)
        requires
            old(self).wf(),
            frame@.wf(),
            frame@.reliability.spec_is_ordered(),
        ensures
            final(self).wf(),
            exists|now: i64| final(self)@ == #[trigger] old(self)@.handle_ordered_frame(frame@, now),
    {
        let now: i64 = unix_timestamp();
        self.handle_ordered_frame_at(frame, now);
    }
}

} // verus!
