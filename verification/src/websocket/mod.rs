//! The websocket lobby: the messages the server sends, the client side that
//! follows them, and the server side that admits clients and routes messages.

pub mod client;
pub mod message;
pub mod server;

use vstd::prelude::*;

verus! {

/// The ready state of a websocket peer, as the engine reports it.
#[derive(Clone, Copy, Debug, PartialEq, Eq, Structural)]
pub enum WebSocketState {
    Connecting,
    Open,
    Closing,
    Closed,
}

} // verus!
