//! The outbound path: indices, fragments, batches and the periodic work.

use crate::ack::{serialize_sequences, Ack, Nack};
use crate::client::framer::tables::listed;
use crate::client::framer::{backup_view, datagrams_view, next_counter, Framer};
use crate::client::invariants::{
    lemma_assign_order, lemma_assign_reliable_queue, lemma_connection_request_len, lemma_flush,
    lemma_fragment, lemma_fragment_count, lemma_fragment_count_exact, lemma_join_frame,
    lemma_payload_frame, lemma_queue_frame, lemma_send_fragments, lemma_send_frame,
    lemma_size_bound,
};
use crate::client::model::{
    fragment_count, payload_frame, pending_size, priority_or_normal, sendable, FramerState,
    Priority, FRAME_SET_HEADER, HEADER_ROOM,
};
use crate::clock::unix_timestamp;
use crate::frame::{frames_view, Frame, FrameView, INDEX_LIMIT};
use crate::frameset::FrameSet;
use crate::proto::connection_request::ConnectionRequest;
use crate::reliability::Reliability;
use vstd::prelude::*;

verus! {

broadcast use vstd::std_specs::hash::group_hash_axioms;

/// The bytes that the frames take in a datagram, header included.
pub(super) fn batch_size(frames: &Vec<Frame>) -> (size: usize)
    requires
        pending_size(frames_view(frames@)) <= usize::MAX,
    ensures
        size == pending_size(frames_view(frames@)),
{
    let ghost views = frames_view(frames@);
    let mut size: usize = FRAME_SET_HEADER;
    let mut i: usize = 0;
    proof {
        assert(views.take(0) =~= Seq::<FrameView>::empty());
    }
    while i < frames.len()
        invariant
            i <= frames@.len(),
            views == frames_view(frames@),
            pending_size(views) <= usize::MAX,
            size == pending_size(views.take(i as int)),
        decreases frames@.len() - i,
    {
        proof {
            let longer = views.take(i + 1);
            assert(longer.drop_last() =~= views.take(i as int));
            assert(longer.last() == views[i as int]);
            lemma_pending_size_prefix(views, i + 1);
        }
        size = size + frames[i].get_size();
        i += 1;
    }
    proof {
        assert(views.take(i as int) =~= views);
    }
    size
}

/// A batch takes at least as much as each of its prefixes.
pub proof fn lemma_pending_size_prefix(frames: Seq<FrameView>, count: int)
    requires
        0 <= count <= frames.len(),
    ensures
        pending_size(frames.take(count)) <= pending_size(frames),
    decreases frames.len(),
{
    if count == frames.len() {
        assert(frames.take(count) =~= frames);
    } else {
        lemma_pending_size_prefix(frames.drop_last(), count);
        assert(frames.drop_last().take(count) =~= frames.take(count));
    }
}

/// Whether a frame with the values of `frame` is among `frames`.
pub(super) fn holds_frame(frames: &Vec<Frame>, frame: &Frame) -> (found: bool)
    ensures
        found == frames_view(frames@).contains(frame@),
{
    let mut i: usize = 0;
    while i < frames.len()
        invariant
            i <= frames@.len(),
            forall|k: int| 0 <= k < i ==> frames_view(frames@)[k] != frame@,
        decreases frames@.len() - i,
    {
        if frames[i].same_as(frame) {
            assert(frames_view(frames@)[i as int] == frame@);
            return true;
        }
        i += 1;
    }
    false
}

/// The bytes of `source` from `start` up to `end`.
pub(super) fn copy_bytes(source: &Vec<u8>, start: usize, end: usize) -> (bytes: Vec<u8>)
    requires
        start <= end <= source@.len(),
    ensures
        bytes@ == source@.subrange(start as int, end as int),
{
    let mut bytes: Vec<u8> = Vec::new();
    let mut i: usize = start;
    while i < end
        invariant
            start <= i <= end <= source@.len(),
            bytes@ == source@.subrange(start as int, i as int),
        decreases end - i,
    {
        bytes.push(source[i]);
        proof {
            assert(bytes@ =~= source@.subrange(start as int, i + 1));
        }
        i += 1;
    }
    bytes
}

impl Framer {
    /// Sends up to `size` of the waiting frames as one datagram.
    pub fn send_queue(&mut self, size: usize)
        requires
            old(self).wf(),
        ensures
            final(self).wf(),
            final(self)@ == old(self)@.flush(size as nat),
    {
        reveal(Framer::wf);
        let len: usize = self.output_frames.len();
        if len == 0 {
            return ;
        }
        let ghost before = self@;
        let taken: usize = if size < len {
            size
        } else {
            len
        };
        let mut batch = self.output_frames.split_off(taken);
        core::mem::swap(&mut batch, &mut self.output_frames);
        let sequence: u32 = self.output_sequence;
        let frameset = FrameSet::new(sequence, batch);
        proof {
            assert(frameset@.frames =~= before.output_frames.take(taken as int));
            assert(frames_view(self.output_frames@) =~= before.output_frames.skip(taken as int));
            assert forall|i: int| 0 <= i < frameset@.frames.len() implies (
            #[trigger] frameset@.frames[i]).encodable() by {
                assert(frameset@.frames[i] == before.output_frames[i]);
            }
        }
        match frameset.serialize() {
            Ok(bytes) => {
                let ghost boxed = self.outbox@;
                self.outbox.push(bytes);
                proof {
                    assert(datagrams_view(self.outbox@) =~= datagrams_view(boxed).push(bytes@));
                }
            },
            Err(_) => {
                assert(false);
            },
        }
        let ghost kept = self.output_backup@;
        let ghost frames = frameset.frames;
        self.output_backup.insert(sequence, frameset.frames);
        proof {
            assert(self.output_backup@ == kept.insert(sequence, frames));
            assert(backup_view(self.output_backup@) =~= backup_view(kept).insert(
                sequence,
                frames_view(frames@),
            ));
            assert(frames_view(frames@) =~= before.output_frames.take(taken as int));
        }
        self.output_sequence = next_counter(sequence);
        proof {
            lemma_flush(before, size as nat);
            assert(self@ == before.flush(size as nat));
        }
    }

    /// Puts a frame that fits one datagram into the waiting batch, and sends as the
    /// room and the priority call for. Without a priority the normal one is taken.
    pub fn queue_frame(&mut self, frame: &Frame, priority: Option<Priority>)
        requires
            old(self).wf(),
            frame@.wf(),
            frame@.payload.len() <= old(self)@.max_body(),
        ensures
            final(self).wf(),
            final(self)@ == old(self)@.queue_frame(frame@, priority_or_normal(priority)),
    {
        reveal(Framer::wf);
        let ghost before = self@;
        let priority = match priority {
            Some(priority) => priority,
            None => Priority::Normal,
        };
        proof {
            lemma_size_bound(frame@);
            lemma_queue_frame(before, frame@, priority);
            lemma_flush(before, before.output_frames.len());
        }
        let length: usize = batch_size(&self.output_frames);
        let max_body: usize = (self.mtu_size - HEADER_ROOM) as usize;
        if length + frame.get_size() > max_body {
            let waiting: usize = self.output_frames.len();
            self.send_queue(waiting);
        }
        let ghost room = self@;
        proof {
            lemma_join_frame(room, frame@);
        }
        if !holds_frame(&self.output_frames, frame) {
            let ghost frames = self.output_frames@;
            self.output_frames.push(frame.clone());
            proof {
                assert(frames_view(self.output_frames@) =~= frames_view(frames).push(frame@));
            }
        }
        let ghost joined = self@;
        proof {
            assert(joined == (FramerState {
                output_frames: if room.output_frames.contains(frame@) {
                    room.output_frames
                } else {
                    room.output_frames.push(frame@)
                },
                ..room
            }));
        }
        match priority {
            Priority::Immediate => {
                self.send_queue(1);
            },
            Priority::Normal => {},
        }
    }

    /// Gives the frame its ordering indices and moves the counters of its channel on.
    fn stamp_order(&mut self, frame: &mut Frame)
        requires
            old(self).wf(),
            sendable(old(frame)@),
        ensures
            final(self).wf(),
            final(self)@ == old(self)@.assign_order(old(frame)@).0,
            final(frame)@ == old(self)@.assign_order(old(frame)@).1,
    {
        reveal(Framer::wf);
        let ghost before = self@;
        proof {
            lemma_assign_order(before, frame@);
        }
        let channel: u8 = match frame.order_channel {
            Some(channel) => channel,
            None => 0,
        };
        let c: usize = channel as usize;
        if frame.reliability.is_sequenced() {
            frame.ordered_frame_index = Some(self.output_order_index[c]);
            frame.sequence_frame_index = Some(self.output_sequence_index[c]);
            frame.order_channel = Some(channel);
            let next: u32 = next_counter(self.output_sequence_index[c]);
            self.output_sequence_index.set(c, next);
        } else if frame.reliability.is_ordered() {
            frame.ordered_frame_index = Some(self.output_order_index[c]);
            frame.order_channel = Some(channel);
            let next: u32 = next_counter(self.output_order_index[c]);
            self.output_order_index.set(c, next);
            self.output_sequence_index.set(c, 0);
        }
    }

    /// Gives the frame the next reliable index, where it is reliable.
    fn stamp_reliable(&mut self, frame: &mut Frame)
        requires
            old(self).wf(),
        ensures
            final(self)@ == old(self)@.assign_reliable(old(frame)@).0,
            final(frame)@ == old(self)@.assign_reliable(old(frame)@).1,
            final(self).wf(),
    {
        reveal(Framer::wf);
        if frame.reliability.is_reliable() {
            frame.reliable_frame_index = Some(self.output_reliable_index);
            self.output_reliable_index = next_counter(self.output_reliable_index);
        }
    }

    /// Submits a frame: it is given its indices and queued, whole where its payload
    /// fits one frame, else in fragments. The frame is left with the indices it was
    /// given. Without a priority the normal one is taken.
    pub fn send_frame(&mut self, frame: &mut Frame, priority: Option<Priority>)
        requires
            old(self).wf(),
            sendable(old(frame)@),
        ensures
            final(self).wf(),
            final(self)@ == old(self)@.send_frame(old(frame)@, priority_or_normal(priority)),
            final(frame)@ == old(self)@.stamped(old(frame)@),
    {
        reveal(Framer::wf);
        let ghost before = self@;
        let ghost given = frame@;
        let ghost wanted = priority_or_normal(priority);
        proof {
            lemma_assign_order(before, given);
        }
        self.stamp_order(frame);
        let ghost ordered = self@;
        let ghost indexed = frame@;
        let max_body: usize = (self.mtu_size - HEADER_ROOM) as usize;
        let len: usize = frame.payload.len();
        if len <= max_body {
            proof {
                lemma_assign_reliable_queue(ordered, indexed, wanted);
            }
            self.stamp_reliable(frame);
            self.queue_frame(frame, priority);
        } else {
            proof {
                lemma_fragment_count(len as nat, max_body as nat);
                lemma_fragment_count_exact(len as nat, max_body as nat);
            }
            let count: usize = len / max_body + if len % max_body == 0 {
                0
            } else {
                1
            };
            let id: u16 = (self.output_split_index % 0x1_0000) as u16;
            self.output_split_index = if self.output_split_index == u32::MAX {
                0
            } else {
                self.output_split_index + 1
            };
            let ghost started = self@;
            let mut i: usize = 0;
            while i < count
                invariant
                    i <= count,
                    count == fragment_count(len as nat, max_body as nat),
                    2 <= count <= u32::MAX,
                    (count - 1) * max_body < len,
                    len == indexed.payload.len(),
                    frame@ == indexed,
                    max_body == started.max_body(),
                    wanted == priority_or_normal(priority),
                    sendable(indexed),
                    indexed.reliability.spec_is_sequenced() ==> indexed.sequence_frame_index
                        is Some,
                    indexed.reliability.spec_is_ordered() ==> indexed.ordered_frame_index is Some
                        && indexed.order_channel is Some,
                    started.base_wf(),
                    started.output_wf(),
                    self.wf(),
                    self@ == started.send_fragments(indexed, id, count as nat, i as nat, wanted),
                decreases count - i,
            {
                let ghost so_far = self@;
                proof {
                    lemma_send_fragments(started, indexed, id, count as nat, i as nat, wanted);
                    assert(i * max_body <= (count - 1) * max_body) by (nonlinear_arith)
                        requires
                            i < count,
                            max_body > 0,
                    ;
                    lemma_fragment(so_far, indexed, id, i as nat, count as nat);
                }
                let start: usize = i * max_body;
                let end: usize = if len - start > max_body {
                    start + max_body
                } else {
                    len
                };
                let mut piece = Frame {
                    reliable_frame_index: None,
                    sequence_frame_index: frame.sequence_frame_index,
                    ordered_frame_index: frame.ordered_frame_index,
                    order_channel: frame.order_channel,
                    reliability: frame.reliability,
                    payload: copy_bytes(&frame.payload, start, end),
                    split_frame_index: Some(i as u32),
                    split_id: Some(id),
                    split_size: Some(count as u32),
                };
                assert(piece@ == so_far.fragment(indexed, id, i as nat, count as nat));
                proof {
                    lemma_assign_reliable_queue(so_far, piece@, wanted);
                }
                self.stamp_reliable(&mut piece);
                self.queue_frame(&piece, priority);
                i += 1;
            }
        }
        proof {
            lemma_send_frame(before, given, wanted);
        }
    }

    /// The frame that carries a payload of the framer's own: reliable and ordered on
    /// channel 0, with no index assigned yet.
    pub fn pls_frame(&mut self, payload: Vec<u8>) -> (frame: Frame)
        ensures
            frame@ == payload_frame(payload@),
            *final(self) == *old(self),
    {
        let mut frame = Frame::new();
        frame.reliability = Reliability::ReliableOrdered;
        frame.order_channel = Some(0);
        frame.payload = payload;
        frame
    }

    /// Submits a payload as a reliable ordered frame on channel 0, to leave at once.
    pub fn send_payload(&mut self, payload: Vec<u8>)
        requires
            old(self).wf(),
            payload@.len() <= 0xFFFF_FFFF,
        ensures
            final(self).wf(),
            final(self)@ == old(self)@.send_payload(payload@),
    {
        proof {
            lemma_payload_frame(payload@);
        }
        let mut frame = self.pls_frame(payload);
        self.send_frame(&mut frame, Some(Priority::Immediate));
    }

    /// Sends the report of the numbers noted as received, or as missing, and
    /// forgets them.
    fn report(&mut self, missing: bool)
        requires
            old(self).wf(),
        ensures
            final(self).wf(),
            final(self)@ == (if missing {
                FramerState {
                    lost: Set::empty(),
                    ..old(self)@.send_report(Nack::ID, old(self)@.lost)
                }
            } else {
                FramerState {
                    received: Set::empty(),
                    ..old(self)@.send_report(Ack::ID, old(self)@.received)
                }
            }),
    {
        reveal(Framer::wf);
        let ghost before = self@;
        let list: Vec<u32> = if missing {
            listed(&self.lost_frame_sequences)
        } else {
            listed(&self.received_frame_sequences)
        };
        if missing {
            self.lost_frame_sequences.clear();
        } else {
            self.received_frame_sequences.clear();
        }
        let id: u8 = if missing {
            Nack::ID
        } else {
            Ack::ID
        };
        let ghost set = list@.to_set();
        proof {
            assert(set == if missing {
                before.lost
            } else {
                before.received
            });
            assert forall|k: int| 0 <= k < list@.len() implies list@[k] < INDEX_LIMIT by {
                assert(list@.contains(list@[k]));
                assert(set.contains(list@[k]));
            }
            if list@.len() > 0 {
                assert(list@.contains(list@[0]));
                assert(set.contains(list@[0]));
                assert(set != Set::<u32>::empty());
            } else {
                assert(set =~= Set::<u32>::empty());
            }
        }
        if list.len() > 0 {
            match serialize_sequences(id, &list) {
                Ok(bytes) => {
                    let ghost boxed = self.outbox@;
                    self.outbox.push(bytes);
                    proof {
                        assert(datagrams_view(self.outbox@) =~= datagrams_view(boxed).push(bytes@));
                    }
                },
                Err(_) => {},
            }
        }
        proof {
            assert(self@.input_wf());
            assert(self@.output_wf());
        }
    }

    /// The periodic work: acknowledge what was received, report what is missing, and
    /// send what waits.
    pub fn tick(&mut self)
        requires
            old(self).wf(),
        ensures
            final(self).wf(),
            final(self)@ == old(self)@.tick(),
    {
        self.report(false);
        self.report(true);
        let waiting: usize = self.pending_frames();
        self.send_queue(waiting);
    }

    /// Asks the peer to open the connection proper, with the time `now`.
    pub fn send_connect_at(&mut self, now: i64)
        requires
            old(self).wf(),
        ensures
            final(self).wf(),
            final(self)@ == old(self)@.send_connect(now),
    {
        let request = ConnectionRequest::new(self.guid, now, false);
        proof {
            lemma_connection_request_len(request);
        }
        self.send_payload(request.serialize());
    }

    /// Asks the peer to open the connection proper, with the time the clock shows.
    pub fn send_connect(&mut self)
        requires
            old(self).wf(),
        ensures
            final(self).wf(),
            exists|now: i64| final(self)@ == #[trigger] old(self)@.send_connect(now),
    {
        let now: i64 = unix_timestamp();
        self.send_connect_at(now);
    }
}

} // verus!
