//! What a framer lets be seen and taken away.

use crate::ack::{ascending, sorted_distinct};
use crate::client::framer::tables::listed;
use crate::address::Address;
use crate::client::framer::{
    backup_view, datagrams_view, events_view, fragments_view, frame_map_view, Event, Framer,
};
use crate::client::invariants::lemma_take_away;
use crate::client::model::{EventView, FramerState};
use crate::frame::CHANNELS;
use vstd::prelude::*;

verus! {

broadcast use vstd::std_specs::hash::group_hash_axioms;

impl Framer {
    /// Whether the peer has accepted the connection.
    pub fn is_accepted(&self) -> (accepted: bool)
        ensures
            accepted == self@.accepted,
    {
        self.accepted
    }

    /// Whether the peer has closed the connection.
    pub fn is_disconnected(&self) -> (disconnected: bool)
        ensures
            disconnected == self@.disconnected,
    {
        self.disconnected
    }

    /// How many frames wait for the next datagram.
    pub fn pending_frames(&self) -> (count: usize)
        ensures
            count == self@.output_frames.len(),
    {
        self.output_frames.len()
    }

    /// Hands out the datagrams that are to be sent, oldest first, and forgets them.
    pub fn take_outbox(&mut self) -> (datagrams: Vec<Vec<u8>>)
        requires
            old(self).wf(),
        ensures
            final(self).wf(),
            datagrams_view(datagrams@) == old(self)@.outbox,
            final(self)@ == (FramerState { outbox: Seq::empty(), ..old(self)@ }),
    {
        reveal(Framer::wf);
        proof {
            lemma_take_away(self@);
        }
        let mut datagrams: Vec<Vec<u8>> = Vec::new();
        core::mem::swap(&mut datagrams, &mut self.outbox);
        proof {
            assert(datagrams_view(self.outbox@) =~= Seq::<Seq<u8>>::empty());
        }
        datagrams
    }

    /// Hands out what is to be told to the consumer, oldest first, and forgets it.
    pub fn take_events(&mut self) -> (events: Vec<Event>)
        requires
            old(self).wf(),
        ensures
            final(self).wf(),
            events_view(events@) == old(self)@.events,
            final(self)@ == (FramerState { events: Seq::empty(), ..old(self)@ }),
    {
        reveal(Framer::wf);
        proof {
            lemma_take_away(self@);
        }
        let mut events: Vec<Event> = Vec::new();
        core::mem::swap(&mut events, &mut self.events);
        proof {
            assert(events_view(self.events@) =~= Seq::<EventView>::empty());
        }
        events
    }

    pub fn mtu_size(&self) -> (mtu_size: u16)
        ensures
            mtu_size == self@.mtu_size,
    {
        self.mtu_size
    }

    pub fn guid(&self) -> (guid: i64)
        ensures
            guid == self@.guid,
    {
        self.guid
    }

    /// The sequence number of the newest datagram taken in; -1 before the first.
    pub fn last_input_sequence(&self) -> (sequence: i32)
        ensures
            sequence == self@.last_input_sequence,
    {
        self.last_input_sequence
    }

    /// The datagrams taken in and not acknowledged yet, in rising order.
    pub fn received_frame_sequences(&self) -> (sequences: Vec<u32>)
        requires
            self.wf(),
        ensures
            sequences@ == ascending(self@.received),
    {
        sorted_distinct(&listed(&self.received_frame_sequences))
    }

    /// The datagrams skipped over and not reported yet, in rising order.
    pub fn lost_frame_sequences(&self) -> (sequences: Vec<u32>)
        requires
            self.wf(),
        ensures
            sequences@ == ascending(self@.lost),
    {
        sorted_distinct(&listed(&self.lost_frame_sequences))
    }

    /// The ordered index that is due next on the channel.
    pub fn input_order_index(&self, channel: u8) -> (index: u32)
        requires
            self.wf(),
            channel < CHANNELS,
        ensures
            index == self@.input_order_index[channel as int],
    {
        reveal(Framer::wf);
        self.input_order_index[channel as usize]
    }

    /// The highest sequence index delivered on the channel.
    pub fn input_highest_sequence_index(&self, channel: u8) -> (index: u32)
        requires
            self.wf(),
            channel < CHANNELS,
        ensures
            index == self@.input_highest_sequence_index[channel as int],
    {
        reveal(Framer::wf);
        self.input_highest_sequence_index[channel as usize]
    }

    /// How many ordered frames of the channel wait for their turn.
    pub fn held_back(&self, channel: u8) -> (count: usize)
        requires
            self.wf(),
            channel < CHANNELS,
        ensures
            count == self@.input_ordering_queue[channel as int].len(),
    {
        reveal(Framer::wf);
        proof {
            assert(frame_map_view(self.input_ordering_queue@[channel as int]@).dom()
                =~= self.input_ordering_queue@[channel as int]@.dom());
        }
        self.input_ordering_queue[channel as usize].len()
    }

    /// How many splits wait for fragments.
    pub fn open_splits(&self) -> (count: usize)
        ensures
            count == self@.fragments_queue.len(),
    {
        proof {
            assert(fragments_view(self.fragments_queue@).dom() =~= self.fragments_queue@.dom());
        }
        self.fragments_queue.len()
    }

    /// The sequence number that the next datagram of frames will take.
    pub fn output_sequence(&self) -> (sequence: u32)
        ensures
            sequence == self@.output_sequence,
    {
        self.output_sequence
    }

    /// The reliable index that the next reliable frame will take.
    pub fn output_reliable_index(&self) -> (index: u32)
        ensures
            index == self@.output_reliable_index,
    {
        self.output_reliable_index
    }

    /// How many datagrams are kept for a repeat.
    pub fn backup_len(&self) -> (count: usize)
        ensures
            count == self@.output_backup.len(),
    {
        proof {
            assert(backup_view(self.output_backup@).dom() =~= self.output_backup@.dom());
        }
        self.output_backup.len()
    }

    /// Whether datagram `sequence` is kept for a repeat.
    pub fn has_backup(&self, sequence: u32) -> (kept: bool)
        ensures
            kept == self@.output_backup.contains_key(sequence),
    {
        self.output_backup.contains_key(&sequence)
    }

    /// A copy of the peer's address.
    pub fn server_address(&self) -> (address: Address)
        ensures
            address@ == self@.server_address,
    {
        self.server_address.clone()
    }
}

} // verus!
