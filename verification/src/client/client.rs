//! The handshake and the facade over the framer.
//!
//! A [`Client`] walks one connection from the first probe of the path to the
//! established state. Like the framer it never touches a socket: every datagram it
//! wants sent goes to the outbox of its framer, every delivery to the event list.

use crate::ack::{Ack, Nack};
use crate::address::{Address, AddressView};
use crate::client::framer::{datagrams_view, events_view, Event, Framer};
use crate::client::invariants::{
    lemma_acceptance_reply, lemma_connection_request_len, lemma_send_payload,
};
use crate::client::laws::{
    lemma_handle_packet_keeps_word, lemma_on_frameset_keeps_word, lemma_send_payload_alone,
    lemma_tick_keeps_word, lone_datagram,
};
use crate::client::model::{
    next_index, payload_frame, EventView, FramerState, MAX_DRAIN, MAX_MTU, MIN_MTU,
};
use crate::clock::unix_timestamp;
use crate::frame::FrameView;
use crate::frameset::{FrameSet, FrameSetView};
use crate::packet::PacketError;
use crate::proto::connection_reply_one::ConnectionReplyOne;
use crate::proto::connection_reply_two::{ConnectionReplyTwo, ConnectionReplyTwoView};
use crate::proto::connection_request::ConnectionRequest;
use crate::proto::connection_request_accepted::ConnectionRequestAcceptedView;
use crate::proto::connection_request_one::{ConnectionRequestOne, UDP_OVERHEAD};
use crate::proto::connection_request_two::{ConnectionRequestTwo, ConnectionRequestTwoView};
use crate::proto::unconnected_ping::UnconnectedPing;
use crate::proto::unconnected_pong::UnconnectedPong;
use crate::reliability::Reliability;
use vstd::prelude::*;
use vstd::string::*;

verus! {

/// Where a connection stands.
#[derive(Debug, Clone, Copy, PartialEq, Eq, Hash, Structural)]
pub enum ConnectionState {
    /// Nothing was sent yet.
    Offline,
    /// The first request is out.
    AwaitingReplyOne,
    /// The second request is out.
    AwaitingReplyTwo,
    /// The connection request is out.
    Connecting,
    /// The peer has accepted.
    Established,
    /// The peer has closed the connection.
    Disconnected,
}

/// The protocol version that the first request names.
pub const PROTOCOL_VERSION: u8 = 11;

/// The id under which the client introduces itself.
pub const CLIENT_GUID: i64 = 4124124124124;

/// The MTU that the probe of the given step tries: 1492, then 1200, then 576.
pub open spec fn mtu_candidate(step: u8) -> u16 {
    if step == 0 {
        1492
    } else if step == 1 {
        1200
    } else {
        576
    }
}

/// The step after the given one; the last stays.
pub open spec fn next_step(step: u8) -> u8 {
    if step >= 2 {
        2
    } else {
        (step + 1) as u8
    }
}

/// A client as a mathematical value.
pub struct ClientState {
    pub guid: i64,
    /// The MTU of the last probe.
    pub mtu_size: u16,
    /// Which candidate the last probe tried.
    pub step: u8,
    pub state: ConnectionState,
    pub framer: FramerState,
}

impl ClientState {
    /// The invariants of a client: those of its framer; its MTU is the candidate of
    /// its step; while the connection is established the peer has accepted it and
    /// has not closed it since; and while the connection request is out the peer has
    /// said neither.
    pub open spec fn wf(self) -> bool {
        &&& self.sound()
        &&& self.state == ConnectionState::Established ==> self.framer.accepted
            && !self.framer.disconnected
        &&& self.state == ConnectionState::Connecting ==> !self.framer.accepted
            && !self.framer.disconnected
    }

    /// The invariants that hold in the middle of a step too: those of the framer, and
    /// that the MTU is the candidate of the step.
    pub open spec fn sound(self) -> bool {
        &&& self.framer.wf()
        &&& self.step <= 2
        &&& self.mtu_size == mtu_candidate(self.step)
    }

    /// A client that has not sent anything.
    pub open spec fn initial(server_address: AddressView, local_address: AddressView) -> ClientState {
        ClientState {
            guid: CLIENT_GUID,
            mtu_size: mtu_candidate(0),
            step: 0,
            state: ConnectionState::Offline,
            framer: FramerState::initial(
                mtu_candidate(0),
                CLIENT_GUID,
                server_address,
                local_address,
            ),
        }
    }

    /// Asks the server whether it is there.
    pub open spec fn ping(self, now: i64) -> ClientState {
        ClientState {
            framer: self.framer.send_raw((UnconnectedPing { timestamp: now, guid: self.guid }).encode()),
            ..self
        }
    }

    /// Starts the handshake, or starts it over: a client that has not started, or
    /// whose peer has closed the connection, probes with its current candidate; any
    /// other moves on to the next smaller candidate first. What the peer has said of
    /// the connection so far is forgotten. A ping and the first request go out, the
    /// request padded to the MTU under test.
    pub open spec fn connect(self, now: i64) -> ClientState {
        let step = if self.state == ConnectionState::Offline || self.state
            == ConnectionState::Disconnected {
            self.step
        } else {
            next_step(self.step)
        };
        let mtu_size = mtu_candidate(step);
        ClientState {
            step,
            mtu_size,
            state: ConnectionState::AwaitingReplyOne,
            framer: self.framer.forget_link().send_raw(
                (UnconnectedPing { timestamp: now, guid: self.guid }).encode(),
            ).send_raw((ConnectionRequestOne { protocol: PROTOCOL_VERSION, mtu_size }).encode()),
            ..self
        }
    }

    /// Where the connection stands once the framer has taken in a datagram of frames.
    /// It is closed where the peer has closed it in that datagram. It is established
    /// where the peer has accepted it in that datagram and the connection request was
    /// out. Else it stands where it stood: what the peer had said before the datagram
    /// moves nothing.
    pub open spec fn settled(self, accepted_before: bool, disconnected_before: bool)
        -> ClientState {
        ClientState {
            state: if self.framer.disconnected && !disconnected_before {
                ConnectionState::Disconnected
            } else if self.framer.accepted && !accepted_before && self.state
                == ConnectionState::Connecting {
                ConnectionState::Established
            } else {
                self.state
            },
            ..self
        }
    }

    /// Takes in a first reply: what the peer has said of the connection so far is
    /// forgotten, the second request goes out with the MTU that the server offers, and
    /// where that MTU lies outside the bounds of normal operation the handshake starts
    /// over.
    pub open spec fn on_reply_one(self, reply: ConnectionReplyOne, binary: Seq<u8>, now: i64)
        -> ClientState {
        let asked = ClientState {
            state: ConnectionState::AwaitingReplyTwo,
            framer: self.framer.forget_link().emit("connection_reply_one"@, binary).send_raw(
                (ConnectionRequestTwoView {
                    address: self.framer.server_address,
                    mtu_size: reply.mtu_size,
                    guid: self.guid,
                }).encode(),
            ),
            ..self
        };
        if reply.mtu_size > MAX_MTU || reply.mtu_size < MIN_MTU {
            asked.connect(now)
        } else {
            asked
        }
    }

    /// Takes in a datagram, going by its leading byte. One that does not read as
    /// what its leading byte announces is dropped; so is an empty one. The second
    /// reply and the disconnect, like every step of the handshake, forget what the
    /// peer has said of the connection so far.
    pub open spec fn handle_packet(self, binary: Seq<u8>, now: i64) -> ClientState {
        if binary.len() == 0 {
            self
        } else if binary[0] / 16 == 8 {
            match FrameSetView::decode(binary) {
                Ok(set) => (ClientState {
                    framer: self.framer.on_frameset(set, now).emit("frame_set"@, binary),
                    ..self
                }).settled(self.framer.accepted, self.framer.disconnected),
                Err(_) => self,
            }
        } else if binary[0] == UnconnectedPong::ID {
            ClientState { framer: self.framer.emit("unconnected_pong"@, binary), ..self }
        } else if binary[0] == ConnectionReplyOne::ID {
            match ConnectionReplyOne::decode(binary) {
                Ok(reply) => self.on_reply_one(reply, binary, now),
                Err(_) => self,
            }
        } else if binary[0] == ConnectionReplyTwo::ID {
            match ConnectionReplyTwoView::decode(binary) {
                Ok(_) => ClientState {
                    state: ConnectionState::Connecting,
                    framer: self.framer.forget_link().emit(
                        "connection_reply_two"@,
                        binary,
                    ).send_connect(now),
                    ..self
                },
                Err(_) => self,
            }
        } else if binary[0] == Ack::ID {
            ClientState {
                framer: self.framer.emit("ack"@, binary).handle_packet(payload_frame(binary), now),
                ..self
            }
        } else if binary[0] == Nack::ID {
            ClientState {
                framer: self.framer.emit("nack"@, binary).handle_packet(payload_frame(binary), now),
                ..self
            }
        } else if binary[0] == 0x15 {
            ClientState {
                state: ConnectionState::Disconnected,
                framer: self.framer.forget_link().emit("disconnect"@, binary),
                ..self
            }
        } else {
            ClientState {
                framer: self.framer.emit("unknown_packet"@, seq![binary[0]]),
                ..self
            }
        }
    }
}

/// The candidates for the MTU fall from step to step, and every one of them leaves
/// room for the head of the first request.
pub proof fn lemma_candidates_fall(step: u8)
    ensures
        mtu_candidate(next_step(step)) <= mtu_candidate(step),
        MIN_MTU <= mtu_candidate(step) <= MAX_MTU,
        (ConnectionRequestOne { protocol: PROTOCOL_VERSION, mtu_size: mtu_candidate(step) }).encodable(),
{
}

/// A first reply that offers an MTU within the bounds of normal operation leaves the
/// client waiting for the second reply, with its candidate unchanged. One that offers
/// an MTU outside them starts the handshake over: the client waits for a first reply
/// again, with the next smaller candidate, and the last datagram it wants sent is the
/// first request padded to that candidate.
pub proof fn lemma_mtu_backoff(state: ClientState, reply: ConnectionReplyOne, binary: Seq<u8>, now: i64)
    ensures
        ({
            let after = state.on_reply_one(reply, binary, now);
            if MIN_MTU <= reply.mtu_size <= MAX_MTU {
                &&& after.state == ConnectionState::AwaitingReplyTwo
                &&& after.step == state.step
                &&& after.mtu_size == state.mtu_size
                &&& after.framer.outbox.len() == state.framer.outbox.len() + 1
            } else {
                &&& after.state == ConnectionState::AwaitingReplyOne
                &&& after.step == next_step(state.step)
                &&& after.mtu_size == mtu_candidate(next_step(state.step))
                &&& after.framer.outbox.len() == state.framer.outbox.len() + 3
                &&& after.framer.outbox.last() == (ConnectionRequestOne {
                    protocol: PROTOCOL_VERSION,
                    mtu_size: after.mtu_size,
                }).encode()
                &&& after.framer.outbox.last().len() == after.mtu_size - UDP_OVERHEAD
            }
        }),
{
    lemma_candidates_fall(next_step(state.step));
    lemma_candidates_fall(state.step);
}

/// What one datagram can do to where the connection stands.
///
/// The connection becomes established only while the connection request is out, and
/// only by a datagram of frames in which the peer accepts it. A closed connection
/// stays closed until a reply of the handshake comes. A disconnect closes the
/// connection, and what the peer had said is forgotten with it. An established
/// connection stays established unless the peer closes it or a reply of the handshake
/// comes. A second reply leaves the connection request out and the connection not
/// yet established.
pub proof fn lemma_connection_steps(state: ClientState, binary: Seq<u8>, now: i64)
    requires
        state.wf(),
    ensures
        ({
            let after = state.handle_packet(binary, now);
            let reply = binary.len() > 0 && (binary[0] == ConnectionReplyOne::ID || binary[0]
                == ConnectionReplyTwo::ID);
            let frames = binary.len() > 0 && binary[0] / 16 == 8;
            &&& after.state == ConnectionState::Established && state.state
                != ConnectionState::Established ==> {
                &&& state.state == ConnectionState::Connecting
                &&& frames
                &&& after.framer.accepted
                &&& !state.framer.accepted
            }
            &&& state.state == ConnectionState::Disconnected && after.state
                != ConnectionState::Disconnected ==> reply
            &&& binary.len() > 0 && binary[0] == 0x15 ==> {
                &&& after.state == ConnectionState::Disconnected
                &&& !after.framer.accepted
                &&& !after.framer.disconnected
            }
            &&& state.state == ConnectionState::Established && after.state
                != ConnectionState::Established ==> {
                ||| reply
                ||| binary[0] == 0x15
                ||| (frames && after.state == ConnectionState::Disconnected
                    && after.framer.disconnected)
            }
            &&& binary.len() > 0 && binary[0] == ConnectionReplyTwo::ID
                && ConnectionReplyTwoView::decode(binary) is Ok ==> {
                &&& after.state == ConnectionState::Connecting
                &&& !after.framer.accepted
            }
        }),
{
    if binary.len() > 0 && binary[0] == ConnectionReplyTwo::ID {
        let heard = state.framer.forget_link().emit("connection_reply_two"@, binary);
        let request = ConnectionRequest { guid: heard.guid, timestamp: now, security: false };
        lemma_connection_request_len(request);
        lemma_send_payload(heard, request.encode());
    }
}

/// Starting the handshake leaves the client waiting for the first reply, with nothing
/// said by the peer yet: no datagram of frames establishes the connection before the
/// second reply has come.
pub proof fn lemma_connect_starts_over(state: ClientState, now: i64)
    ensures
        state.connect(now).state == ConnectionState::AwaitingReplyOne,
        !state.connect(now).framer.accepted,
        !state.connect(now).framer.disconnected,
{
}

/// A second reply that comes while no frame waits is answered in one datagram of one
/// frame: the consumer is told, the connection request goes out, reliable and
/// ordered on channel 0, with the client's id, the time and no security, it is kept
/// for a repeat, and the connection request is out.
pub proof fn lemma_second_reply_sends_the_request(state: ClientState, binary: Seq<u8>, now: i64)
    requires
        state.wf(),
        state.framer.output_frames.len() == 0,
        binary.len() > 0,
        binary[0] == ConnectionReplyTwo::ID,
        ConnectionReplyTwoView::decode(binary) is Ok,
    ensures
        ({
            let request = ConnectionRequest {
                guid: state.framer.guid,
                timestamp: now,
                security: false,
            };
            let sent = FrameView {
                reliable_frame_index: Some(state.framer.output_reliable_index),
                ordered_frame_index: Some(state.framer.output_order_index[0]),
                ..payload_frame(request.encode())
            };
            let after = state.handle_packet(binary, now);
            &&& after.state == ConnectionState::Connecting
            &&& after.framer.events == state.framer.events.push(
                EventView { name: "connection_reply_two"@, data: binary },
            )
            &&& after.framer.outbox == state.framer.outbox.push(
                lone_datagram(state.framer.output_sequence, sent),
            )
            &&& after.framer.output_backup == state.framer.output_backup.insert(
                state.framer.output_sequence,
                seq![sent],
            )
            &&& sent.payload[0] == ConnectionRequest::ID
            &&& sent.reliability == Reliability::ReliableOrdered
            &&& sent.order_channel == Some(0u8)
        }),
{
    let heard = state.framer.forget_link().emit("connection_reply_two"@, binary);
    let request = ConnectionRequest { guid: heard.guid, timestamp: now, security: false };
    lemma_connection_request_len(request);
    lemma_send_payload_alone(heard, request.encode());
}

/// The acceptance establishes the connection. While the connection request is out, a
/// datagram that is new to the framer and holds one frame, whole, reliable and
/// ordered, due on its channel with no held-back frame to follow it, and carrying an
/// acceptance that reads, leaves the connection established.
pub proof fn lemma_acceptance_establishes(state: ClientState, binary: Seq<u8>, now: i64)
    requires
        state.wf(),
        state.state == ConnectionState::Connecting,
        binary.len() > 0,
        binary[0] / 16 == 8,
        FrameSetView::decode(binary) is Ok,
        ({
            let set = FrameSetView::decode(binary)->Ok_0;
            let frame = set.frames[0];
            let c = frame.channel() as int;
            let due = state.framer.input_order_index[c];
            &&& !state.framer.received.contains(set.sequence)
            &&& set.sequence > state.framer.last_input_sequence
            &&& set.frames.len() == 1
            &&& frame.wf()
            &&& !frame.is_split()
            &&& frame.reliability == Reliability::ReliableOrdered
            &&& frame.ordered_frame_index == Some(due)
            &&& !state.framer.input_ordering_queue[c].contains_key(next_index(due))
            &&& frame.payload.len() > 0
            &&& frame.payload[0] == 0x10
            &&& ConnectionRequestAcceptedView::decode(frame.payload) is Ok
        }),
    ensures
        state.handle_packet(binary, now).state == ConnectionState::Established,
        state.handle_packet(binary, now).framer.accepted,
        !state.handle_packet(binary, now).framer.disconnected,
{
    let set = FrameSetView::decode(binary)->Ok_0;
    let frame = set.frames[0];
    let c = frame.channel() as int;
    let due = state.framer.input_order_index[c];
    let received = state.framer.received.insert(set.sequence);
    let noted = FramerState {
        received,
        lost: state.framer.lost.remove(set.sequence).union(
            Set::new(
                |g: u32|
                    state.framer.last_input_sequence < g < set.sequence && !received.contains(g),
            ),
        ),
        last_input_sequence: set.sequence as int,
        ..state.framer
    };
    assert(set.frames.drop_last() =~= Seq::<FrameView>::empty());
    assert(noted.handle_frames(set.frames.drop_last(), now) == noted);
    assert(set.frames.last() == frame);
    assert(noted.handle_frames(set.frames, now) == noted.handle_ordered_frame(frame, now));
    let accepted = ConnectionRequestAcceptedView::decode(frame.payload)->Ok_0;
    let told = FramerState {
        accepted: true,
        ..noted.emit("connection_request_accepted"@, frame.payload)
    };
    let reply = told.acceptance_reply(accepted.server_send_time, now).encode();
    lemma_acceptance_reply(told, accepted.server_send_time, now);
    lemma_send_payload(told, reply);
    let delivered = noted.handle_packet(frame, now);
    assert(delivered == told.send_payload(reply));
    let moved = FramerState {
        input_order_index: delivered.input_order_index.update(c, next_index(due)),
        ..delivered
    };
    assert(moved.drain(c, MAX_DRAIN as nat, now) == moved);
}

/// One connection, from the first probe of the path to its end.
pub struct Client {
    guid: i64,
    mtu_size: u16,
    step: u8,
    state: ConnectionState,
    framer: Framer,
}

impl View for Client {
    type V = ClientState;

    closed spec fn view(&self) -> ClientState {
        ClientState {
            guid: self.guid,
            mtu_size: self.mtu_size,
            step: self.step,
            state: self.state,
            framer: self.framer@,
        }
    }
}

/// The MTU that the probe of the given step tries.
fn candidate(step: u8) -> (mtu_size: u16)
    ensures
        mtu_size == mtu_candidate(step),
{
    if step == 0 {
        1492
    } else if step == 1 {
        1200
    } else {
        576
    }
}

impl Client {
    /// The invariants of a client: those of its framer and of its state.
    #[verifier::opaque]
    pub closed spec fn wf(&self) -> bool {
        &&& self.framer.wf()
        &&& self@.wf()
    }

    /// The invariants of a client in the middle of a step.
    #[verifier::opaque]
    pub closed spec fn sound(&self) -> bool {
        &&& self.framer.wf()
        &&& self@.sound()
    }

    /// The local address as the handshake names it: the loopback address with the
    /// port of the local socket.
    pub open spec fn local_address(local_port: u16) -> AddressView {
        AddressView { version: 4, address: "127.0.0.1"@, port: local_port }
    }

    /// The server's address as the handshake names it: an IPv4 address.
    pub open spec fn server_address(host: Seq<char>, port: u16) -> AddressView {
        AddressView { version: 4, address: host, port }
    }

    /// A client for the server at `host` and `port` that has sent nothing yet. A host
    /// that is no IPv4 address in dotted notation is refused.
    pub fn new(host: String, port: u16, local_port: u16) -> (result: Result<Client, PacketError>)
        ensures
            match result {
                Ok(client) => {
                    &&& client.wf()
                    &&& Client::server_address(host@, port).encodable()
                    &&& Client::local_address(local_port).encodable()
                    &&& client@ == ClientState::initial(
                        Client::server_address(host@, port),
                        Client::local_address(local_port),
                    )
                },
                Err(e) => {
                    &&& e == PacketError::SerializationError
                    &&& !Client::server_address(host@, port).encodable()
                        || !Client::local_address(local_port).encodable()
                },
            },
    {
        reveal(Client::wf);
        let server = Address::new(4, host, port);
        let local = Address::new(4, String::from_str("127.0.0.1"), local_port);
        if !server.is_encodable() || !local.is_encodable() {
            return Err(PacketError::SerializationError);
        }
        let framer = Framer::new(candidate(0), CLIENT_GUID, server, local);
        proof {
            framer.lemma_wf_state();
        }
        Ok(Client { guid: CLIENT_GUID, mtu_size: candidate(0), step: 0, state: ConnectionState::Offline, framer })
    }

    /// Asks the server whether it is there, with the time `now`.
    pub fn ping_at(&mut self, now: i64)
        requires
            old(self).wf(),
        ensures
            final(self).wf(),
            final(self)@ == old(self)@.ping(now),
    {
        reveal(Client::wf);
        let ping = UnconnectedPing::new(now, self.guid);
        self.framer.send_raw(ping.serialize());
        proof {
            self.framer.lemma_wf_state();
        }
    }

    /// Asks the server whether it is there, with the time the clock shows.
    pub fn ping(&mut self)
        requires
            old(self).wf(),
        ensures
            final(self).wf(),
            exists|now: i64| final(self)@ == #[trigger] old(self)@.ping(now),
    {
        let now: i64 = unix_timestamp();
        self.ping_at(now);
    }

    /// Starts the handshake, or starts it over, with the time `now`.
    pub fn connect_at(&mut self, now: i64)
        requires
            old(self).wf(),
        ensures
            final(self).wf(),
            final(self)@ == old(self)@.connect(now),
    {
        reveal(Client::wf);
        let fresh: bool = match self.state {
            ConnectionState::Offline => true,
            ConnectionState::Disconnected => true,
            _ => false,
        };
        if !fresh && self.step < 2 {
            self.step = self.step + 1;
        }
        self.mtu_size = candidate(self.step);
        self.state = ConnectionState::AwaitingReplyOne;
        self.framer.forget_link();
        let ping = UnconnectedPing::new(now, self.guid);
        self.framer.send_raw(ping.serialize());
        let request = ConnectionRequestOne::new(PROTOCOL_VERSION, self.mtu_size);
        match request.serialize() {
            Ok(bytes) => {
                self.framer.send_raw(bytes);
            },
            Err(_) => {
                assert(false);
            },
        }
        proof {
            self.framer.lemma_wf_state();
        }
    }

    /// Starts the handshake, or starts it over, with the time the clock shows.
    pub fn connect(&mut self)
        requires
            old(self).wf(),
        ensures
            final(self).wf(),
            exists|now: i64| final(self)@ == #[trigger] old(self)@.connect(now),
    {
        let now: i64 = unix_timestamp();
        self.connect_at(now);
    }

    /// The periodic work of the framer.
    pub fn tick(&mut self)
        requires
            old(self).wf(),
        ensures
            final(self).wf(),
            final(self)@ == (ClientState { framer: old(self)@.framer.tick(), ..old(self)@ }),
    {
        reveal(Client::wf);
        proof {
            lemma_tick_keeps_word(self@.framer);
        }
        self.framer.tick();
        proof {
            self.framer.lemma_wf_state();
        }
    }

    /// Puts a datagram that was made elsewhere into the outbox.
    pub fn send(&mut self, data: Vec<u8>)
        requires
            old(self).wf(),
        ensures
            final(self).wf(),
            final(self)@ == (ClientState {
                framer: old(self)@.framer.send_raw(data@),
                ..old(self)@
            }),
    {
        reveal(Client::wf);
        self.framer.send_raw(data);
        proof {
            self.framer.lemma_wf_state();
        }
    }

    /// Tells the consumer `name` about `data`.
    pub fn emit_event(&mut self, name: &str, data: Vec<u8>)
        requires
            old(self).wf(),
        ensures
            final(self).wf(),
            final(self)@ == (ClientState {
                framer: old(self)@.framer.emit(name@, data@),
                ..old(self)@
            }),
    {
        reveal(Client::wf);
        self.framer.emit_event(name, data);
        proof {
            self.framer.lemma_wf_state();
        }
    }

    /// Submits a payload as a reliable ordered frame on channel 0, to leave at once.
    /// The payload must be short enough for its fragments to be counted in 32 bits.
    pub fn frame_and_send(&mut self, data: Vec<u8>)
        requires
            old(self).wf(),
            data@.len() <= 0xFFFF_FFFF,
        ensures
            final(self).wf(),
            final(self)@ == (ClientState {
                framer: old(self)@.framer.send_payload(data@),
                ..old(self)@
            }),
    {
        reveal(Client::wf);
        proof {
            lemma_send_payload(self@.framer, data@);
        }
        self.framer.send_payload(data);
        proof {
            self.framer.lemma_wf_state();
        }
    }

    /// Whether the connection is established.
    pub fn is_connected(&self) -> (connected: bool)
        ensures
            connected == (self@.state == ConnectionState::Established),
    {
        match self.state {
            ConnectionState::Established => true,
            _ => false,
        }
    }

    /// Where the connection stands.
    pub fn state(&self) -> (state: ConnectionState)
        ensures
            state == self@.state,
    {
        self.state
    }

    /// The MTU of the last probe.
    pub fn mtu_size(&self) -> (mtu_size: u16)
        ensures
            mtu_size == self@.mtu_size,
    {
        self.mtu_size
    }

    /// Which candidate the last probe tried.
    pub fn step(&self) -> (step: u8)
        ensures
            step == self@.step,
    {
        self.step
    }

    /// The framer of the connection.
    pub fn framer(&self) -> (framer: &Framer)
        ensures
            framer@ == self@.framer,
    {
        &self.framer
    }

    /// Hands out the datagrams that are to be sent, oldest first, and forgets them.
    pub fn take_outbox(&mut self) -> (datagrams: Vec<Vec<u8>>)
        requires
            old(self).wf(),
        ensures
            final(self).wf(),
            datagrams_view(datagrams@) == old(self)@.framer.outbox,
            final(self)@ == (ClientState {
                framer: FramerState { outbox: Seq::empty(), ..old(self)@.framer },
                ..old(self)@
            }),
    {
        reveal(Client::wf);
        let datagrams = self.framer.take_outbox();
        proof {
            self.framer.lemma_wf_state();
        }
        datagrams
    }

    /// Hands out what is to be told to the consumer, oldest first, and forgets it.
    pub fn take_events(&mut self) -> (events: Vec<Event>)
        requires
            old(self).wf(),
        ensures
            final(self).wf(),
            events_view(events@) == old(self)@.framer.events,
            final(self)@ == (ClientState {
                framer: FramerState { events: Seq::empty(), ..old(self)@.framer },
                ..old(self)@
            }),
    {
        reveal(Client::wf);
        let events = self.framer.take_events();
        proof {
            self.framer.lemma_wf_state();
        }
        events
    }

    /// Settles where the connection stands by what the framer has heard since it said
    /// what is given.
    fn settle(&mut self, accepted_before: bool, disconnected_before: bool)
        requires
            old(self).sound(),
        ensures
            final(self).sound(),
            final(self)@ == old(self)@.settled(accepted_before, disconnected_before),
    {
        reveal(Client::sound);
        let connecting: bool = match self.state {
            ConnectionState::Connecting => true,
            _ => false,
        };
        if self.framer.is_disconnected() && !disconnected_before {
            self.state = ConnectionState::Disconnected;
        } else if self.framer.is_accepted() && !accepted_before && connecting {
            self.state = ConnectionState::Established;
        }
    }

    /// Forgets what the peer has said of the connection.
    fn forget_link(&mut self)
        requires
            old(self).sound(),
        ensures
            final(self).sound(),
            final(self)@ == (ClientState {
                framer: old(self)@.framer.forget_link(),
                ..old(self)@
            }),
    {
        reveal(Client::sound);
        self.framer.forget_link();
        proof {
            self.framer.lemma_wf_state();
        }
    }

    /// Sets where the connection stands.
    fn enter(&mut self, state: ConnectionState)
        requires
            old(self).sound(),
        ensures
            final(self).sound(),
            final(self)@ == (ClientState { state, ..old(self)@ }),
    {
        reveal(Client::sound);
        self.state = state;
    }

    /// Takes in a datagram of frames.
    fn take_frameset(&mut self, binary: &[u8], now: i64)
        requires
            old(self).wf(),
        ensures
            final(self).wf(),
            final(self)@ == (match FrameSetView::decode(binary@) {
                Ok(set) => (ClientState {
                    framer: old(self)@.framer.on_frameset(set, now).emit("frame_set"@, binary@),
                    ..old(self)@
                }).settled(old(self)@.framer.accepted, old(self)@.framer.disconnected),
                Err(_) => old(self)@,
            }),
    {
        match FrameSet::deserialize(binary) {
            Ok(set) => {
                proof {
                    reveal(Client::wf);
                    reveal(Client::sound);
                    lemma_on_frameset_keeps_word(self@.framer, set@, now);
                }
                let accepted: bool = self.framer.is_accepted();
                let disconnected: bool = self.framer.is_disconnected();
                self.framer.on_frameset_at(&set, now);
                self.framer.emit_event("frame_set", vstd::slice::slice_to_vec(binary));
                proof {
                    self.framer.lemma_wf_state();
                }
                self.settle(accepted, disconnected);
            },
            Err(_) => {},
        }
    }

    /// Takes in a first reply.
    fn take_reply_one(&mut self, binary: &[u8], now: i64)
        requires
            old(self).wf(),
        ensures
            final(self).wf(),
            final(self)@ == (match ConnectionReplyOne::decode(binary@) {
                Ok(reply) => old(self)@.on_reply_one(reply, binary@, now),
                Err(_) => old(self)@,
            }),
    {
        match ConnectionReplyOne::deserialize(binary) {
            Ok(reply) => {
                proof {
                    reveal(Client::wf);
                    reveal(Client::sound);
                    self.framer.lemma_wf_state();
                }
                self.framer.forget_link();
                self.framer.emit_event("connection_reply_one", vstd::slice::slice_to_vec(binary));
                let request = ConnectionRequestTwo::new(
                    self.framer.server_address(),
                    reply.mtu_size,
                    self.guid,
                );
                match request.serialize() {
                    Ok(bytes) => {
                        self.framer.send_raw(bytes);
                    },
                    Err(_) => {
                        assert(false);
                    },
                }
                proof {
                    self.framer.lemma_wf_state();
                }
                self.enter(ConnectionState::AwaitingReplyTwo);
                if reply.mtu_size > MAX_MTU || reply.mtu_size < MIN_MTU {
                    self.connect_at(now);
                }
            },
            Err(_) => {},
        }
    }

    /// Takes in a second reply.
    fn take_reply_two(&mut self, binary: &[u8], now: i64)
        requires
            old(self).wf(),
        ensures
            final(self).wf(),
            final(self)@ == (match ConnectionReplyTwoView::decode(binary@) {
                Ok(_) => ClientState {
                    state: ConnectionState::Connecting,
                    framer: old(self)@.framer.forget_link().emit(
                        "connection_reply_two"@,
                        binary@,
                    ).send_connect(now),
                    ..old(self)@
                },
                Err(_) => old(self)@,
            }),
    {
        match ConnectionReplyTwo::deserialize(binary) {
            Ok(_) => {
                proof {
                    reveal(Client::wf);
                    reveal(Client::sound);
                }
                self.framer.forget_link();
                self.framer.emit_event("connection_reply_two", vstd::slice::slice_to_vec(binary));
                proof {
                    self.framer.lemma_wf_state();
                    let request = ConnectionRequest {
                        guid: self@.framer.guid,
                        timestamp: now,
                        security: false,
                    };
                    lemma_connection_request_len(request);
                    lemma_send_payload(self@.framer, request.encode());
                }
                self.framer.send_connect_at(now);
                proof {
                    self.framer.lemma_wf_state();
                }
                self.enter(ConnectionState::Connecting);
            },
            Err(_) => {},
        }
    }

    /// Takes in an acknowledgement or a negative acknowledgement that came as a
    /// datagram of its own.
    fn take_report(&mut self, name: &str, binary: &[u8], now: i64)
        requires
            old(self).wf(),
            binary@.len() > 0,
            binary@[0] == Ack::ID || binary@[0] == Nack::ID,
        ensures
            final(self).wf(),
            final(self)@ == (ClientState {
                framer: old(self)@.framer.emit(name@, binary@).handle_packet(
                    payload_frame(binary@),
                    now,
                ),
                ..old(self)@
            }),
    {
        reveal(Client::wf);
        self.framer.emit_event(name, vstd::slice::slice_to_vec(binary));
        proof {
            self.framer.lemma_wf_state();
            lemma_handle_packet_keeps_word(self@.framer, payload_frame(binary@), now);
        }
        let frame = self.framer.pls_frame(vstd::slice::slice_to_vec(binary));
        self.framer.handle_packet_at(&frame, now);
        proof {
            self.framer.lemma_wf_state();
        }
    }

    /// Takes in a datagram at the time `now`.
    pub fn handle_packet_at(&mut self, binary: &[u8], now: i64)
        requires
            old(self).wf(),
        ensures
            final(self).wf(),
            final(self)@ == old(self)@.handle_packet(binary@, now),
    {
        if binary.len() == 0 {
            return ;
        }
        let id: u8 = binary[0];
        if id / 16 == 8 {
            self.take_frameset(binary, now);
        } else if id == UnconnectedPong::ID {
            self.emit_event("unconnected_pong", vstd::slice::slice_to_vec(binary));
        } else if id == ConnectionReplyOne::ID {
            self.take_reply_one(binary, now);
        } else if id == ConnectionReplyTwo::ID {
            self.take_reply_two(binary, now);
        } else if id == Ack::ID {
            self.take_report("ack", binary, now);
        } else if id == Nack::ID {
            self.take_report("nack", binary, now);
        } else if id == 0x15 {
            self.emit_event("disconnect", vstd::slice::slice_to_vec(binary));
            proof {
                reveal(Client::wf);
                reveal(Client::sound);
            }
            self.forget_link();
            self.enter(ConnectionState::Disconnected);
        } else {
            let mut data: Vec<u8> = Vec::new();
            data.push(id);
            assert(data@ =~= seq![binary@[0]]);
            self.emit_event("unknown_packet", data);
        }
    }

    /// Takes in a datagram at the time the clock shows.
    pub fn handle_packet(&mut self, binary: &[u8])
        requires
            old(self).wf(),
        ensures
            final(self).wf(),
            exists|now: i64| final(self)@ == #[trigger] old(self)@.handle_packet(binary@, now),
    {
        let now: i64 = unix_timestamp();
        self.handle_packet_at(binary, now);
    }
}

} // verus!
