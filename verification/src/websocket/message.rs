//! What the server tells its clients.

use vstd::prelude::*;
use crate::websocket::client::ClientInfo;

verus! {

/// A message from the server to a client.
#[derive(Debug)]
pub enum ServerMessage {
    /// Another client has joined the lobby.
    ClientJoin(ClientInfo),
    /// The clients that were already in the lobby, in order of their ids.
    ClientList(Vec<ClientInfo>),
    /// The receiving client's own entry, sent once it is admitted.
    Hello(ClientInfo),
}

} // verus!
