//! The reliability engine of one peer.
//!
//! A [`Framer`] takes in the datagrams of the peer and the payloads of the consumer
//! and decides what is delivered, what is sent and what is kept for a repeat. It
//! never touches a socket: the datagrams it wants sent collect in its outbox and the
//! deliveries in its event list, and whoever drives it takes both away.

use crate::address::Address;
use crate::client::invariants::{lemma_emit, lemma_mark, lemma_send_raw};
use crate::client::model::{
    next_index, pending_size, sendable, EventView, FramerState, FRAME_SET_HEADER, MAX_MTU, MIN_MTU,
};
use crate::frame::{frames_view, Frame, FrameView, CHANNELS, INDEX_LIMIT};
use std::collections::{HashMap, HashSet};
use vstd::prelude::*;
use vstd::string::*;

mod accessors;
mod inbound;
mod outbound;
mod tables;

verus! {

broadcast use vstd::std_specs::hash::group_hash_axioms;

/// Something the consumer is told: a name and the bytes it is about.
#[derive(Debug)]
pub struct Event {
    pub name: String,
    pub data: Vec<u8>,
}

impl View for Event {
    type V = EventView;

    open spec fn view(&self) -> EventView {
        EventView { name: self.name@, data: self.data@ }
    }
}

impl Clone for Event {
    fn clone(&self) -> (copy: Event)
        ensures
            copy@ == self@,
    {
        Event { name: self.name.clone(), data: self.data.clone() }
    }
}

/// The bookkeeping of one peer: what has arrived, what waits for its turn, what
/// waits to be sent, and what was sent and may have to be sent again.
pub struct Framer {
    mtu_size: u16,
    guid: i64,
    server_address: Address,
    local_address: Address,
    last_input_sequence: i32,
    received_frame_sequences: HashSet<u32>,
    lost_frame_sequences: HashSet<u32>,
    input_highest_sequence_index: Vec<u32>,
    input_order_index: Vec<u32>,
    input_ordering_queue: Vec<HashMap<u32, Frame>>,
    fragments_queue: HashMap<u16, HashMap<u32, Frame>>,
    output_order_index: Vec<u32>,
    output_sequence_index: Vec<u32>,
    output_reliable_index: u32,
    output_split_index: u32,
    output_sequence: u32,
    output_frames: Vec<Frame>,
    output_backup: HashMap<u32, Vec<Frame>>,
    outbox: Vec<Vec<u8>>,
    events: Vec<Event>,
    accepted: bool,
    disconnected: bool,
}

/// The datagrams as sequences of bytes.
pub open spec fn datagrams_view(datagrams: Seq<Vec<u8>>) -> Seq<Seq<u8>> {
    Seq::new(datagrams.len(), |i: int| datagrams[i]@)
}

/// The events as mathematical values.
pub open spec fn events_view(events: Seq<Event>) -> Seq<EventView> {
    Seq::new(events.len(), |i: int| events[i]@)
}

/// A table of frames as a map of their views.
pub open spec fn frame_map_view(frames: Map<u32, Frame>) -> Map<u32, FrameView> {
    frames.map_values(|f: Frame| f@)
}

/// The held-back frames of all channels as maps of their views.
pub open spec fn holdback_view(queue: Seq<HashMap<u32, Frame>>) -> Seq<Map<u32, FrameView>> {
    Seq::new(queue.len(), |c: int| frame_map_view(queue[c]@))
}

/// The fragments of all splits as maps of their views.
pub open spec fn fragments_view(table: Map<u16, HashMap<u32, Frame>>) -> Map<
    u16,
    Map<u32, FrameView>,
> {
    table.map_values(|fragments: HashMap<u32, Frame>| frame_map_view(fragments@))
}

/// The backup of all datagrams as sequences of views.
pub open spec fn backup_view(backup: Map<u32, Vec<Frame>>) -> Map<u32, Seq<FrameView>> {
    backup.map_values(|frames: Vec<Frame>| frames_view(frames@))
}

impl View for Framer {
    type V = FramerState;

    closed spec fn view(&self) -> FramerState {
        FramerState {
            mtu_size: self.mtu_size,
            guid: self.guid,
            server_address: self.server_address@,
            local_address: self.local_address@,
            last_input_sequence: self.last_input_sequence as int,
            received: self.received_frame_sequences@,
            lost: self.lost_frame_sequences@,
            input_highest_sequence_index: self.input_highest_sequence_index@,
            input_order_index: self.input_order_index@,
            input_ordering_queue: holdback_view(self.input_ordering_queue@),
            fragments_queue: fragments_view(self.fragments_queue@),
            output_order_index: self.output_order_index@,
            output_sequence_index: self.output_sequence_index@,
            output_reliable_index: self.output_reliable_index,
            output_split_index: self.output_split_index,
            output_sequence: self.output_sequence,
            output_frames: frames_view(self.output_frames@),
            output_backup: backup_view(self.output_backup@),
            outbox: datagrams_view(self.outbox@),
            events: events_view(self.events@),
            accepted: self.accepted,
            disconnected: self.disconnected,
        }
    }
}

/// The successor of a 24-bit counter.
pub(super) fn next_counter(index: u32) -> (next: u32)
    ensures
        next == next_index(index),
{
    if index >= INDEX_LIMIT - 1 {
        0
    } else {
        index + 1
    }
}

/// A table of 64 zeros.
pub(super) fn zeroed_channels() -> (table: Vec<u32>)
    ensures
        table@ == Seq::new(CHANNELS as nat, |i: int| 0u32),
{
    let mut table: Vec<u32> = Vec::new();
    let mut i: u8 = 0;
    while i < CHANNELS
        invariant
            i <= CHANNELS,
            table@ == Seq::new(i as nat, |k: int| 0u32),
        decreases CHANNELS - i,
    {
        table.push(0);
        proof {
            assert(table@ =~= Seq::new((i + 1) as nat, |k: int| 0u32));
        }
        i += 1;
    }
    table
}

/// For each of the 64 channels an empty table of frames.
pub(super) fn empty_holdback() -> (queue: Vec<HashMap<u32, Frame>>)
    ensures
        holdback_view(queue@) == Seq::new(CHANNELS as nat, |i: int| Map::<u32, FrameView>::empty()),
{
    let mut queue: Vec<HashMap<u32, Frame>> = Vec::new();
    let mut i: u8 = 0;
    while i < CHANNELS
        invariant
            i <= CHANNELS,
            queue@.len() == i,
            forall|k: int| 0 <= k < i ==> (#[trigger] queue@[k])@ == Map::<u32, Frame>::empty(),
        decreases CHANNELS - i,
    {
        queue.push(HashMap::new());
        i += 1;
    }
    proof {
        assert forall|k: int| 0 <= k < CHANNELS implies #[trigger] holdback_view(queue@)[k]
            == Map::<u32, FrameView>::empty() by {
            assert(queue@[k]@ == Map::<u32, Frame>::empty());
            assert(frame_map_view(queue@[k]@) =~= Map::<u32, FrameView>::empty());
        }
        assert(holdback_view(queue@) =~= Seq::new(
            CHANNELS as nat,
            |i: int| Map::<u32, FrameView>::empty(),
        ));
    }
    queue
}

/// Whether a payload of the given length is short enough for its fragments to be
/// counted in 32 bits.
pub(super) fn fits_counting(len: usize) -> (fits: bool)
    ensures
        fits == (len <= 0xFFFF_FFFF),
{
    if usize::BITS > 32 {
        len as u64 <= 0xFFFF_FFFFu64
    } else {
        true
    }
}

impl Framer {
    /// The invariants of a framer: those of its state.
    #[verifier::opaque]
    pub closed spec fn wf(&self) -> bool {
        self@.wf()
    }

    /// A framer that has neither sent nor received. The MTU must lie within the
    /// bounds of normal operation, and both addresses must have a wire form.
    pub fn new(mtu_size: u16, guid: i64, server_address: Address, local_address: Address) -> (framer:
        Framer)
        requires
            MIN_MTU <= mtu_size <= MAX_MTU,
            server_address@.encodable(),
            local_address@.encodable(),
        ensures
            framer.wf(),
            framer@ == FramerState::initial(mtu_size, guid, server_address@, local_address@),
    {
        reveal(Framer::wf);
        let framer = Framer {
            mtu_size,
            guid,
            server_address,
            local_address,
            last_input_sequence: -1,
            received_frame_sequences: HashSet::new(),
            lost_frame_sequences: HashSet::new(),
            input_highest_sequence_index: zeroed_channels(),
            input_order_index: zeroed_channels(),
            input_ordering_queue: empty_holdback(),
            fragments_queue: HashMap::new(),
            output_order_index: zeroed_channels(),
            output_sequence_index: zeroed_channels(),
            output_reliable_index: 0,
            output_split_index: 0,
            output_sequence: 0,
            output_frames: Vec::new(),
            output_backup: HashMap::new(),
            outbox: Vec::new(),
            events: Vec::new(),
            accepted: false,
            disconnected: false,
        };
        proof {
            let initial = FramerState::initial(mtu_size, guid, server_address@, local_address@);
            assert(framer@.received =~= initial.received);
            assert(framer@.lost =~= initial.lost);
            assert(framer@.fragments_queue =~= initial.fragments_queue);
            assert(framer@.output_frames =~= initial.output_frames);
            assert(framer@.output_backup =~= initial.output_backup);
            assert(framer@.outbox =~= initial.outbox);
            assert(framer@.events =~= initial.events);
            assert(pending_size(initial.output_frames) == FRAME_SET_HEADER);
        }
        framer
    }

    /// Tells the consumer `name` about `data`.
    pub fn emit_event(&mut self, name: &str, data: Vec<u8>)
        requires
            old(self).wf(),
        ensures
            final(self).wf(),
            final(self)@ == old(self)@.emit(name@, data@),
    {
        reveal(Framer::wf);
        let ghost before = self@;
        let ghost told = self.events@;
        let event = Event { name: String::from_str(name), data };
        self.events.push(event);
        proof {
            assert(events_view(self.events@) =~= events_view(told).push(
                EventView { name: name@, data: data@ },
            ));
            lemma_emit(before, name@, data@);
            assert(self@ == before.emit(name@, data@));
        }
    }

    /// Notes what the peer has said of the connection.
    fn mark(&mut self, accepted: bool, disconnected: bool)
        requires
            old(self).wf(),
        ensures
            final(self).wf(),
            final(self)@ == (FramerState { accepted, disconnected, ..old(self)@ }),
    {
        reveal(Framer::wf);
        proof {
            lemma_mark(self@, accepted, disconnected);
        }
        self.accepted = accepted;
        self.disconnected = disconnected;
    }

    /// Forgets what the peer has said of the connection.
    pub fn forget_link(&mut self)
        requires
            old(self).wf(),
        ensures
            final(self).wf(),
            final(self)@ == old(self)@.forget_link(),
    {
        self.mark(false, false);
    }

    /// Whether the frame may be handed to the framer for sending.
    pub fn is_sendable(frame: &Frame) -> (fit: bool)
        ensures
            fit == sendable(frame@),
    {
        let reliable_fits = match frame.reliable_frame_index {
            Some(i) => i < INDEX_LIMIT,
            None => true,
        };
        let sequence_fits = match frame.sequence_frame_index {
            Some(i) => i < INDEX_LIMIT,
            None => true,
        };
        let ordered_fits = match frame.ordered_frame_index {
            Some(i) => i < INDEX_LIMIT,
            None => true,
        };
        let channel_fits = match frame.order_channel {
            Some(c) => c < CHANNELS,
            None => true,
        };
        let split_fits = match (frame.split_size, frame.split_id, frame.split_frame_index) {
            (Some(size), Some(_), Some(index)) => size == 0 || index < size,
            (Some(size), _, _) => size == 0,
            _ => true,
        };
        self::fits_counting(frame.payload.len()) && reliable_fits && sequence_fits && ordered_fits
            && channel_fits && split_fits
    }

    /// Puts a datagram that was made elsewhere into the outbox.
    pub fn send_raw(&mut self, datagram: Vec<u8>)
        requires
            old(self).wf(),
        ensures
            final(self).wf(),
            final(self)@ == old(self)@.send_raw(datagram@),
    {
        reveal(Framer::wf);
        proof {
            lemma_send_raw(self@, datagram@);
        }
        let ghost boxed = self.outbox@;
        self.outbox.push(datagram);
        proof {
            assert(datagrams_view(self.outbox@) =~= datagrams_view(boxed).push(datagram@));
        }
    }

    /// The invariants of the state hold of a framer that keeps its own.
    pub proof fn lemma_wf_state(&self)
        requires
            self.wf(),
        ensures
            self@.wf(),
    {
        reveal(Framer::wf);
    }
}

} // verus!
