//! Client-side core of a reliable UDP transport speaking the RakNet wire protocol.
//!
//! The crate holds the codec of the wire format, the reliability engine (the
//! [`Framer`]) and the handshake (the [`Client`]). None of it touches a socket: what
//! is to be sent collects in an outbox, what is to be told to the consumer in a list
//! of events, and whoever drives the client takes both away.

pub mod ack;
pub mod address;
pub mod binary_stream;
pub mod client;
mod clock;
pub mod endian;
pub mod frame;
pub mod frameset;
pub mod packet;
pub mod proto;
pub mod reliability;

pub use crate::ack::{Ack, Nack};
pub use crate::address::Address;
pub use crate::binary_stream::{BinaryStream, BinaryStreamError};
pub use crate::client::client::{Client, ConnectionState};
pub use crate::client::framer::{Event, Framer};
pub use crate::client::model::Priority;
pub use crate::endian::Endianness;
pub use crate::frame::Frame;
pub use crate::frameset::FrameSet;
pub use crate::packet::{DataType, Packet, PacketError, PacketType, MAGIC};
pub use crate::proto::connected_ping::ConnectedPing;
pub use crate::proto::connected_pong::ConnectedPong;
pub use crate::proto::connection_reply_one::ConnectionReplyOne;
pub use crate::proto::connection_reply_two::ConnectionReplyTwo;
pub use crate::proto::connection_request::ConnectionRequest;
pub use crate::proto::connection_request_accepted::ConnectionRequestAccepted;
pub use crate::proto::connection_request_one::ConnectionRequestOne;
pub use crate::proto::connection_request_two::ConnectionRequestTwo;
pub use crate::proto::new_incomming_connection::NewIncommingConnection;
pub use crate::proto::unconnected_ping::UnconnectedPing;
pub use crate::proto::unconnected_pong::UnconnectedPong;
pub use crate::proto::{
    NewIncomingConnection, OpenConnectionReplyOne, OpenConnectionReplyTwo, OpenConnectionRequestOne,
    OpenConnectionRequestTwo,
};
pub use crate::reliability::Reliability;
