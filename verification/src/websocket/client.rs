//! The client side of the lobby: the description of a client, and what a
//! client does with the messages the server sends it.

use vstd::prelude::*;
use crate::websocket::message::ServerMessage;
use crate::websocket::WebSocketState;

verus! {

/// What the lobby knows of one client.
#[derive(Debug)]
pub struct ClientInfo {
    pub id: i64,
    pub name: String,
    pub is_alive: bool,
    pub is_host: bool,
}

impl Clone for ClientInfo {
    fn clone(&self) -> (res: Self)
        ensures
            res == *self,
    {
        ClientInfo {
            id: self.id,
            name: self.name.clone(),
            is_alive: self.is_alive,
            is_host: self.is_host,
        }
    }
}

impl Default for ClientInfo {
    fn default() -> (res: Self)
        ensures
            res.id == 0,
            res.name@ == Seq::<char>::empty(),
            !res.is_alive,
            !res.is_host,
    {
        ClientInfo { id: 0, name: String::new(), is_alive: false, is_host: false }
    }
}

/// One of the four fields of a [`ClientInfo`] as the engine stores it.
#[derive(Clone, Copy, Debug, PartialEq, Eq, Structural)]
pub enum ClientField {
    Id,
    Name,
    IsAlive,
    IsHost,
}

impl ClientField {
    /// The key that the field is stored under.
    pub open spec fn key_spec(self) -> Seq<char> {
        match self {
            ClientField::Id => "id"@,
            ClientField::Name => "name"@,
            ClientField::IsAlive => "is_alive"@,
            ClientField::IsHost => "is_host"@,
        }
    }

    /// The key that the field is stored under.
    pub fn key(&self) -> (k: &'static str)
        ensures
            k@ == self.key_spec(),
    {
        match self {
            ClientField::Id => "id",
            ClientField::Name => "name",
            ClientField::IsAlive => "is_alive",
            ClientField::IsHost => "is_host",
        }
    }
}

/// Why a [`ClientInfo`] could not be read back from its stored fields.
#[derive(Debug)]
pub enum FieldError<E> {
    /// The field is not stored at all.
    Missing(ClientField),
    /// The field is stored but could not be converted; `E` says why.
    Invalid(E),
}

impl<E> FieldError<E> {
    /// The text of a missing-field error: `Missing ` and the key.
    pub open spec fn missing_text(field: ClientField) -> Seq<char> {
        "Missing "@ + field.key_spec()
    }

    /// The text of a missing-field error, `Missing id` and so on; `None` for
    /// a conversion error, which carries its own text.
    pub fn missing_message(&self) -> (m: Option<String>)
        ensures
            match self {
                FieldError::Missing(f) => m matches Some(s) && s@ == Self::missing_text(*f),
                FieldError::Invalid(_) => m is None,
            },
    {
        match self {
            FieldError::Missing(f) => {
                let mut s = String::from_str("Missing ");
                s.append(f.key());
                Some(s)
            },
            FieldError::Invalid(_) => None,
        }
    }
}

/// The first field, in the order id, name, is_alive, is_host, that is missing
/// or could not be converted, and how; `None` when all four are there.
pub open spec fn first_field_error<E>(
    id: Option<Result<i64, E>>,
    name: Option<Result<String, E>>,
    is_alive: Option<Result<bool, E>>,
    is_host: Option<Result<bool, E>>,
) -> Option<FieldError<E>> {
    match id {
        None => Some(FieldError::Missing(ClientField::Id)),
        Some(Err(e)) => Some(FieldError::Invalid(e)),
        Some(Ok(_)) => match name {
            None => Some(FieldError::Missing(ClientField::Name)),
            Some(Err(e)) => Some(FieldError::Invalid(e)),
            Some(Ok(_)) => match is_alive {
                None => Some(FieldError::Missing(ClientField::IsAlive)),
                Some(Err(e)) => Some(FieldError::Invalid(e)),
                Some(Ok(_)) => match is_host {
                    None => Some(FieldError::Missing(ClientField::IsHost)),
                    Some(Err(e)) => Some(FieldError::Invalid(e)),
                    Some(Ok(_)) => None,
                },
            },
        },
    }
}

impl ClientInfo {
    /// Reads a client back from its four stored fields, each looked up by key
    /// (`None`: not stored) and converted (`Err`: the conversion failed). The
    /// fields are taken in the order id, name, is_alive, is_host, and the
    /// first that is missing or fails decides the error.
    pub fn from_fields<E>(
        id: Option<Result<i64, E>>,
        name: Option<Result<String, E>>,
        is_alive: Option<Result<bool, E>>,
        is_host: Option<Result<bool, E>>,
    ) -> (r: Result<ClientInfo, FieldError<E>>)
        ensures
            r is Err <==> first_field_error(id, name, is_alive, is_host) is Some,
            r matches Err(e) ==> first_field_error(id, name, is_alive, is_host) == Some(e),
            r matches Ok(info) ==> {
                &&& id == Some(Ok::<i64, E>(info.id))
                &&& name == Some(Ok::<String, E>(info.name))
                &&& is_alive == Some(Ok::<bool, E>(info.is_alive))
                &&& is_host == Some(Ok::<bool, E>(info.is_host))
            },
    {
        let id = match id {
            None => return Err(FieldError::Missing(ClientField::Id)),
            Some(Err(e)) => return Err(FieldError::Invalid(e)),
            Some(Ok(v)) => v,
        };
        let name = match name {
            None => return Err(FieldError::Missing(ClientField::Name)),
            Some(Err(e)) => return Err(FieldError::Invalid(e)),
            Some(Ok(v)) => v,
        };
        let is_alive = match is_alive {
            None => return Err(FieldError::Missing(ClientField::IsAlive)),
            Some(Err(e)) => return Err(FieldError::Invalid(e)),
            Some(Ok(v)) => v,
        };
        let is_host = match is_host {
            None => return Err(FieldError::Missing(ClientField::IsHost)),
            Some(Err(e)) => return Err(FieldError::Invalid(e)),
            Some(Ok(v)) => v,
        };
        Ok(ClientInfo { id, name, is_alive, is_host })
    }
}

/// A signal that the client raises towards the game.
#[derive(Debug)]
pub enum ClientSignal {
    /// `client_joined`: another client is in the lobby.
    ClientJoined(ClientInfo),
    /// `connection_established`: the server has admitted this client.
    ConnectionEstablished(ClientInfo),
}

impl ClientSignal {
    /// The name the signal is raised under.
    pub fn name(&self) -> (n: &'static str)
        ensures
            self is ClientJoined ==> n@ == "client_joined"@,
            self is ConnectionEstablished ==> n@ == "connection_established"@,
    {
        match self {
            ClientSignal::ClientJoined(_) => "client_joined",
            ClientSignal::ConnectionEstablished(_) => "connection_established",
        }
    }
}

/// The signals that `message` raises, in order.
pub open spec fn signals_for(message: ServerMessage) -> Seq<ClientSignal> {
    match message {
        ServerMessage::ClientJoin(info) => seq![ClientSignal::ClientJoined(info)],
        ServerMessage::ClientList(infos) => infos@.map_values(|i: ClientInfo| ClientSignal::ClientJoined(i)),
        ServerMessage::Hello(info) => seq![ClientSignal::ConnectionEstablished(info)],
    }
}

/// The client side of the lobby: what this client knows of itself.
pub struct Client {
    pub info: ClientInfo,
}

impl Client {
    /// A client that has not been admitted yet.
    pub fn new() -> (c: Self)
        ensures
            c.info.id == 0,
            c.info.name@ == Seq::<char>::empty(),
            !c.info.is_alive,
            !c.info.is_host,
    {
        Client { info: ClientInfo::default() }
    }

    /// Handles one message from the server: every client it names is
    /// announced as joined, in order, and a `Hello` announces the established
    /// connection and makes its entry this client's own.
    pub fn handle_message(&mut self, message: ServerMessage) -> (signals: Vec<ClientSignal>)
        ensures
            signals@ == signals_for(message),
            message matches ServerMessage::ClientList(infos) ==> signals@.len() == infos@.len()
                && forall|i: int|
                0 <= i < infos@.len() ==> #[trigger] signals@[i] == ClientSignal::ClientJoined(
                    infos@[i],
                ),
            message matches ServerMessage::ClientJoin(info) ==> signals@ == seq![ClientSignal::ClientJoined(info)],
            message matches ServerMessage::Hello(info) ==> signals@ == seq![ClientSignal::ConnectionEstablished(info)],
            message matches ServerMessage::Hello(info) ==> final(self).info == info,
            !(message is Hello) ==> final(self).info == old(self).info,
    {
        match message {
            ServerMessage::ClientJoin(info) => {
                let mut signals = Vec::new();
                signals.push(ClientSignal::ClientJoined(info));
                signals
            },
            ServerMessage::ClientList(infos) => {
                let mut signals: Vec<ClientSignal> = Vec::new();
                let n = infos.len();
                for i in 0..n
                    invariant
                        n == infos@.len(),
                        signals@ == infos@.take(i as int).map_values(
                            |x: ClientInfo| ClientSignal::ClientJoined(x),
                        ),
                {
                    signals.push(ClientSignal::ClientJoined(infos[i].clone()));
                    assert(infos@.take(i + 1) == infos@.take(i as int).push(infos@[i as int]));
                }
                assert(infos@.take(n as int) == infos@);
                signals
            },
            ServerMessage::Hello(info) => {
                let mut signals = Vec::new();
                signals.push(ClientSignal::ConnectionEstablished(info.clone()));
                self.info = info;
                signals
            },
        }
    }

    /// Whether the socket still needs polling in this state: every state but `Closed`.
    pub fn socket_needs_poll(state: WebSocketState) -> (b: bool)
        ensures
            b <==> state != WebSocketState::Closed,
    {
        !matches!(state, WebSocketState::Closed)
    }

    /// Records whether the connection is up after a poll; packets are read
    /// only while it is, which the result says.
    pub fn observe_state(&mut self, state: WebSocketState) -> (alive: bool)
        ensures
            alive <==> state == WebSocketState::Open,
            final(self).info.is_alive == alive,
            final(self).info.id == old(self).info.id,
            final(self).info.name == old(self).info.name,
            final(self).info.is_host == old(self).info.is_host,
    {
        self.info.is_alive = matches!(state, WebSocketState::Open);
        self.info.is_alive
    }
}

/// Reading a client back from the four fields it is stored as gives the
/// same client: no field is missing and none fails to convert.
pub proof fn law_fields_round_trip<E>(info: ClientInfo)
    ensures
        first_field_error::<E>(
            Some(Ok(info.id)),
            Some(Ok(info.name)),
            Some(Ok(info.is_alive)),
            Some(Ok(info.is_host)),
        ) is None,
{
}

/// The field was stored and converted.
pub open spec fn is_read<T, E>(field: Option<Result<T, E>>) -> bool {
    field matches Some(Ok(_))
}

/// Reading back fails exactly when some field is missing or fails to
/// convert, and the field reported is the first bad one in the order id,
/// name, is_alive, is_host: every field before it was read, and it is missing
/// (for `Missing`) or failed with the given error (for `Invalid`).
pub proof fn law_first_bad_field_is_reported<E>(
    id: Option<Result<i64, E>>,
    name: Option<Result<String, E>>,
    is_alive: Option<Result<bool, E>>,
    is_host: Option<Result<bool, E>>,
)
    ensures
        first_field_error(id, name, is_alive, is_host) is None <==> (is_read(id) && is_read(name)
            && is_read(is_alive) && is_read(is_host)),
        id is None ==> first_field_error(id, name, is_alive, is_host) == Some(
            FieldError::<E>::Missing(ClientField::Id),
        ),
        id matches Some(Err(e)) ==> first_field_error(id, name, is_alive, is_host) == Some(
            FieldError::Invalid(e),
        ),
        first_field_error(id, name, is_alive, is_host) matches Some(FieldError::Missing(f)) ==> {
            ||| f == ClientField::Id && id is None
            ||| f == ClientField::Name && is_read(id) && name is None
            ||| f == ClientField::IsAlive && is_read(id) && is_read(name)
                && is_alive is None
            ||| f == ClientField::IsHost && is_read(id) && is_read(name)
                && is_read(is_alive) && is_host is None
        },
{
}

} // verus!
