use emillaris::{
    Client, ClientSignal,
    poll_connection, ClientInfo, ConnectedClients, ConnectionError, ConnectionState, Delivery,
    MessageRecipient, Server, ServerMessage, TcpStatus, WebSocketState,
};

fn info(id: i64, is_alive: bool, is_host: bool) -> ClientInfo {
    ClientInfo { id, name: format!("c{}", id), is_alive, is_host }
}

fn sorted(mut v: Vec<i64>) -> Vec<i64> {
    v.sort();
    v
}

fn clients(ids: &[i64]) -> ConnectedClients<&'static str> {
    let mut c = ConnectedClients::new();
    for id in ids {
        c.insert_client("socket", info(*id, true, false));
    }
    c
}

/// Accepts a connection and completes its handshake; returns the deliveries.
fn join(server: &mut Server<u32, u32>, link: u32, socket: u32) -> (i64, Vec<Delivery>) {
    let id = server.accept_connection(link);
    let index = server.pending_count() - 1;
    (id, server.resolve_pending(index, ConnectionState::Connected(socket)))
}

#[test]
fn handshake_timeout() {
    let s = poll_connection(5, 1, TcpStatus::Connected, WebSocketState::Open, 1u8);
    assert!(matches!(s, ConnectionState::Disconnected(ConnectionError::Timeout)));
    let s = poll_connection(6, 0, TcpStatus::Unconnected, WebSocketState::Closed, 1u8);
    assert!(matches!(s, ConnectionState::Disconnected(ConnectionError::Timeout)));
    // Exactly five seconds is not yet too long.
    let s = poll_connection(5, 0, TcpStatus::Connected, WebSocketState::Open, 1u8);
    assert!(matches!(s, ConnectionState::Connected(1)));
}

#[test]
fn handshake_tcp_closed() {
    for tcp in [TcpStatus::Unconnected, TcpStatus::Connecting, TcpStatus::Error] {
        let s = poll_connection(0, 0, tcp, WebSocketState::Open, 1u8);
        assert!(matches!(s, ConnectionState::Disconnected(ConnectionError::TcpStreamClosed)));
    }
}

#[test]
fn handshake_follows_websocket() {
    let s = poll_connection(1, 999_999_999, TcpStatus::Connected, WebSocketState::Connecting, 9u8);
    assert!(matches!(s, ConnectionState::Pending));
    for ws in [WebSocketState::Closing, WebSocketState::Closed] {
        let s = poll_connection(0, 0, TcpStatus::Connected, ws, 9u8);
        assert!(matches!(s, ConnectionState::Disconnected(ConnectionError::WebsocketClosed)));
    }
    let s = poll_connection(0, 0, TcpStatus::Connected, WebSocketState::Open, 9u8);
    assert!(matches!(s, ConnectionState::Connected(9)));
}

#[test]
fn connection_error_texts() {
    assert_eq!(ConnectionError::Timeout.description(), "Timeout");
    assert_eq!(ConnectionError::WebsocketClosed.description(), "Websocket closed");
    assert_eq!(ConnectionError::TcpStreamClosed.description(), "Tcp stream closed");
}

#[test]
fn ids_count_up_from_one() {
    let mut server: Server<u32, u32> = Server::new();
    assert_eq!(server.accept_connection(10), 1);
    assert_eq!(server.accept_connection(20), 2);
    assert_eq!(server.accept_connection(30), 3);
    assert_eq!(server.pending_count(), 3);
    assert_eq!(server.pending_at(1).id, 2);
    assert_eq!(server.pending_at(1).link, 20);
    assert!(!server.is_completed(1));
}

#[test]
fn first_client_hosts() {
    let mut server: Server<u32, u32> = Server::new();
    let (id, deliveries) = join(&mut server, 10, 100);
    assert_eq!(id, 1);
    let me = server.connected_clients().info(1).unwrap();
    assert!(me.is_host && me.is_alive);
    assert_eq!(me.name, "Hiccu");
    assert_eq!(deliveries.len(), 3);
    assert!(deliveries[0].recipients.is_empty());
    assert!(matches!(&deliveries[0].message, ServerMessage::ClientJoin(i) if i.id == 1));
    assert_eq!(deliveries[1].recipients, vec![1]);
    assert!(matches!(&deliveries[1].message, ServerMessage::ClientList(l) if l.is_empty()));
    assert_eq!(deliveries[2].recipients, vec![1]);
    assert!(matches!(&deliveries[2].message, ServerMessage::Hello(i) if i.id == 1 && i.is_host && i.name == "Hiccu"));
    assert!(server.is_completed(0));
    assert_eq!(*server.connected_clients().socket(1).unwrap(), 100);
}

#[test]
fn later_client_is_announced_and_told_of_the_others() {
    let mut server: Server<u32, u32> = Server::new();
    join(&mut server, 10, 100);
    join(&mut server, 20, 200);
    let (id, deliveries) = join(&mut server, 30, 300);
    assert_eq!(id, 3);
    assert!(!server.connected_clients().info(3).unwrap().is_host);
    assert_eq!(sorted(deliveries[0].recipients.clone()), vec![1, 2]);
    assert!(matches!(&deliveries[0].message, ServerMessage::ClientJoin(i) if i.id == 3 && !i.is_host));
    assert_eq!(deliveries[1].recipients, vec![3]);
    match &deliveries[1].message {
        ServerMessage::ClientList(list) => {
            let ids: Vec<i64> = list.iter().map(|i| i.id).collect();
            assert_eq!(ids, vec![1, 2]);
            assert!(list[0].is_host && !list[1].is_host);
        }
        other => panic!("unexpected {:?}", other),
    }
    assert_eq!(deliveries[2].recipients, vec![3]);
    assert!(matches!(&deliveries[2].message, ServerMessage::Hello(i) if i.id == 3));
}

#[test]
fn client_list_is_sorted_by_id() {
    let c = clients(&[42, 7, 19, 3, 88, 5]);
    let ids: Vec<i64> = c.client_list_excluding(19).iter().map(|i| i.id).collect();
    assert_eq!(ids, vec![3, 5, 7, 42, 88]);
    let all: Vec<i64> = c.client_list_excluding(1000).iter().map(|i| i.id).collect();
    assert_eq!(all, vec![3, 5, 7, 19, 42, 88]);
}

#[test]
fn pending_and_failed_handshakes_change_nothing() {
    let mut server: Server<u32, u32> = Server::new();
    server.accept_connection(10);
    assert!(server.resolve_pending(0, ConnectionState::Pending).is_empty());
    assert!(server
        .resolve_pending(0, ConnectionState::Disconnected(ConnectionError::Timeout))
        .is_empty());
    assert!(!server.is_completed(0));
    assert!(server.connected_clients().is_empty());
    // A failed handshake stays pending until it completes.
    server.drop_completed();
    assert_eq!(server.pending_count(), 1);
}

#[test]
fn completed_handshakes_are_dropped() {
    let mut server: Server<u32, u32> = Server::new();
    server.accept_connection(10);
    server.accept_connection(20);
    server.accept_connection(30);
    server.resolve_pending(1, ConnectionState::Connected(200));
    server.drop_completed();
    assert_eq!(server.pending_count(), 2);
    assert_eq!(server.pending_at(0).id, 1);
    assert_eq!(server.pending_at(1).id, 3);
}

#[test]
fn send_to_all() {
    let c = clients(&[1, 2, 3]);
    let d = c.send_message(MessageRecipient::All, ServerMessage::Hello(info(9, true, false)));
    assert_eq!(sorted(d.recipients), vec![1, 2, 3]);
    assert!(matches!(d.message, ServerMessage::Hello(i) if i.id == 9));
}

#[test]
fn send_to_listed_keeps_order_and_repeats() {
    let c = clients(&[1, 2, 3]);
    let ids = [3, 5, 1, 3];
    let d = c.send_message(MessageRecipient::Include(&ids), ServerMessage::ClientList(Vec::new()));
    assert_eq!(d.recipients, vec![3, 1, 3]);
}

#[test]
fn send_to_all_but_listed() {
    let c = clients(&[1, 2, 3, 4]);
    let ids = [2, 4, 9];
    let d = c.send_message(MessageRecipient::Exclude(&ids), ServerMessage::ClientJoin(info(2, true, false)));
    assert_eq!(sorted(d.recipients), vec![1, 3]);
    let none: [i64; 0] = [];
    let d = c.send_message(MessageRecipient::Exclude(&none), ServerMessage::ClientJoin(info(2, true, false)));
    assert_eq!(sorted(d.recipients), vec![1, 2, 3, 4]);
}

#[test]
fn sending_to_an_empty_lobby_reaches_nobody() {
    let c = clients(&[]);
    assert!(c.send_message(MessageRecipient::All, ServerMessage::ClientList(Vec::new())).recipients.is_empty());
    let ids = [1];
    assert!(c.send_message(MessageRecipient::Include(&ids), ServerMessage::ClientList(Vec::new())).recipients.is_empty());
}

#[test]
fn insert_replaces_same_id() {
    let mut c = clients(&[1]);
    c.insert_client("new", info(1, false, true));
    assert_eq!(c.len(), 1);
    assert_eq!(*c.socket(1).unwrap(), "new");
    assert!(c.info(1).unwrap().is_host);
}

#[test]
fn keep_alive_drops_dead_clients() {
    let mut c = ConnectedClients::new();
    c.insert_client(1u8, info(1, true, true));
    c.insert_client(2u8, info(2, false, false));
    c.insert_client(3u8, info(3, true, false));
    c.keep_alive();
    assert_eq!(sorted(c.ids()), vec![1, 3]);
    c.keep_alive();
    assert_eq!(sorted(c.ids()), vec![1, 3]);
}

#[test]
fn disconnected_client_is_pruned() {
    let mut server: Server<u32, u32> = Server::new();
    join(&mut server, 10, 100);
    join(&mut server, 20, 200);
    server.mark_disconnected(1);
    let gone = server.connected_clients().info(1).unwrap();
    assert!(!gone.is_alive && gone.is_host && gone.name == "Hiccu");
    server.mark_disconnected(77);
    server.prune_dead_clients();
    assert_eq!(sorted(server.connected_clients().ids()), vec![2]);
}

#[test]
fn lobby_never_has_two_hosts() {
    let mut server: Server<u32, u32> = Server::new();
    join(&mut server, 10, 100);
    join(&mut server, 20, 200);
    // The host leaves; while others remain nobody new becomes host.
    server.mark_disconnected(1);
    server.prune_dead_clients();
    join(&mut server, 30, 300);
    let hosts = |s: &Server<u32, u32>| {
        s.connected_clients().ids().into_iter().filter(|id| s.connected_clients().info(*id).unwrap().is_host).count()
    };
    assert_eq!(hosts(&server), 0);
    // Once the lobby is empty, the next client hosts again.
    server.mark_disconnected(2);
    server.mark_disconnected(3);
    server.prune_dead_clients();
    let (id, _) = join(&mut server, 40, 400);
    assert_eq!(id, 4);
    assert_eq!(hosts(&server), 1);
    assert!(server.connected_clients().info(4).unwrap().is_host);
}

#[test]
fn closed_socket_marks_client_dead() {
    let mut server: Server<u32, u32> = Server::new();
    join(&mut server, 10, 100);
    join(&mut server, 20, 200);
    for state in [WebSocketState::Open, WebSocketState::Connecting, WebSocketState::Closing] {
        assert!(server.observe_client_socket(2, state));
        assert!(server.connected_clients().info(2).unwrap().is_alive);
    }
    assert!(!server.observe_client_socket(2, WebSocketState::Closed));
    assert!(!server.connected_clients().info(2).unwrap().is_alive);
    assert!(server.connected_clients().info(1).unwrap().is_alive);
    assert!(!server.observe_client_socket(5, WebSocketState::Closed));
    server.prune_dead_clients();
    assert_eq!(server.connected_clients().ids(), vec![1]);
}

#[test]
fn newcomer_learns_the_lobby() {
    let mut server: Server<u32, u32> = Server::new();
    join(&mut server, 10, 100);
    join(&mut server, 20, 200);
    let (_, deliveries) = join(&mut server, 30, 300);
    let mut newcomer = Client::new();
    let mut announced = Vec::new();
    for delivery in deliveries {
        if delivery.recipients.contains(&3) {
            for signal in newcomer.handle_message(delivery.message) {
                match signal {
                    ClientSignal::ClientJoined(i) => announced.push(("joined", i.id)),
                    ClientSignal::ConnectionEstablished(i) => announced.push(("established", i.id)),
                }
            }
        }
    }
    assert_eq!(announced, vec![("joined", 1), ("joined", 2), ("established", 3)]);
    assert_eq!(newcomer.info.id, 3);
    assert!(!newcomer.info.is_host);
}

#[test]
fn a_round_of_connections_gets_fresh_increasing_ids() {
    let mut server: Server<u32, u32> = Server::new();
    join(&mut server, 10, 100);
    server.accept_connection(20);
    let known: Vec<i64> = (0..server.pending_count())
        .map(|i| server.pending_at(i).id)
        .chain(server.connected_clients().ids())
        .collect();
    let round: Vec<i64> = (0..4).map(|k| server.accept_connection(30 + k)).collect();
    assert_eq!(round, vec![3, 4, 5, 6]);
    for id in &round {
        assert!(known.iter().all(|k| k < id));
    }
}

#[test]
fn completed_entry_is_not_admitted_again() {
    let mut server: Server<u32, u32> = Server::new();
    server.accept_connection(10);
    server.accept_connection(20);
    // First round: the first handshake completes, the second is still going on.
    server.drop_completed();
    assert_eq!(server.resolve_pending(0, ConnectionState::Connected(100)).len(), 3);
    assert!(server.resolve_pending(1, ConnectionState::Pending).is_empty());
    // Second round: only the waiting entry is left, so only it can be admitted.
    server.drop_completed();
    assert_eq!(server.pending_count(), 1);
    assert_eq!(server.pending_at(0).id, 2);
    assert!(!server.is_completed(0));
    let deliveries = server.resolve_pending(0, ConnectionState::Connected(200));
    assert!(matches!(&deliveries[2].message, ServerMessage::Hello(i) if i.id == 2));
    assert_eq!(sorted(server.connected_clients().ids()), vec![1, 2]);
    assert_eq!(*server.connected_clients().socket(1).unwrap(), 100);
}
