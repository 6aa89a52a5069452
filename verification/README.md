# emillaris

The logic of a small multiplayer lobby for a Godot game, verified with Verus.

- `src/logger.rs` — level filtering and the rich-text line each log event is
  printed as.
- `src/websocket/` — the lobby: the messages the server sends
  (`message.rs`), what a client does with them (`client.rs`), and the server
  side (`server.rs`): handshake decisions, the connected clients, who hosts,
  and which clients each message goes to.
- `src/text.rs` — decimal rendering, and dropping the last character of a
  text.
- `app/` — the Godot extension itself: node classes, sockets, MessagePack
  (de)serialisation, and the `tracing` subscriber. It hands the library plain
  values and carries out what the library returns.
