//! Core of a small multiplayer game runtime: the rich-text log formatter,
//! and the websocket lobby (who is connected, who hosts, and which message
//! reaches which client). The engine and the network stay outside; they hand
//! this library plain values and carry out what it returns.

pub mod logger;
pub mod text;
pub mod websocket;

pub use logger::{Level, LevelFilter, Logger, LoggerVisitor};
pub use websocket::client::{Client, ClientField, ClientInfo, ClientSignal, FieldError};
pub use websocket::message::ServerMessage;
pub use websocket::server::{
    poll_connection, ConnectedClients, ConnectionError, ConnectionState, Delivery,
    MessageRecipient, PendingConnection, Server, TcpStatus,
};
pub use websocket::WebSocketState;
