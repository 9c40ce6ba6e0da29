//! The packets of the handshake and of an established connection.

pub mod connected_ping;
pub mod connected_pong;
pub mod connection_reply_one;
pub mod connection_reply_two;
pub mod connection_request;
pub mod connection_request_accepted;
pub mod connection_request_one;
pub mod connection_request_two;
pub mod new_incomming_connection;
pub mod unconnected_ping;
pub mod unconnected_pong;

use crate::proto::connection_reply_one::ConnectionReplyOne;
use crate::proto::connection_reply_two::ConnectionReplyTwo;
use crate::proto::connection_request_one::ConnectionRequestOne;
use crate::proto::connection_request_two::ConnectionRequestTwo;
use crate::proto::new_incomming_connection::NewIncommingConnection;
use vstd::prelude::*;

verus! {

/// The first request of the handshake, under the name the protocol gives it.
pub type OpenConnectionRequestOne = ConnectionRequestOne;

/// The server's answer to the first request, under the name the protocol gives it.
pub type OpenConnectionReplyOne = ConnectionReplyOne;

/// The second request of the handshake, under the name the protocol gives it.
pub type OpenConnectionRequestTwo = ConnectionRequestTwo;

/// The server's answer to the second request, under the name the protocol gives it.
pub type OpenConnectionReplyTwo = ConnectionReplyTwo;

/// The client's answer to an acceptance, under the name the protocol gives it.
pub type NewIncomingConnection = NewIncommingConnection;

} // verus!
