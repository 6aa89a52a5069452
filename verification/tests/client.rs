use emillaris::{Client, ClientField, ClientInfo, ClientSignal, FieldError, ServerMessage, WebSocketState};

fn info(id: i64, name: &str, is_alive: bool, is_host: bool) -> ClientInfo {
    ClientInfo { id, name: name.to_string(), is_alive, is_host }
}

fn same(a: &ClientInfo, b: &ClientInfo) -> bool {
    a.id == b.id && a.name == b.name && a.is_alive == b.is_alive && a.is_host == b.is_host
}

#[test]
fn default_client_info_is_blank() {
    let i = ClientInfo::default();
    assert!(same(&i, &info(0, "", false, false)));
    let c = Client::new();
    assert!(same(&c.info, &info(0, "", false, false)));
}

#[test]
fn clone_keeps_every_field() {
    let i = info(5, "Hiccu", true, true);
    assert!(same(&i.clone(), &i));
}

#[test]
fn hello_makes_the_entry_our_own() {
    let mut c = Client::new();
    let signals = c.handle_message(ServerMessage::Hello(info(3, "Hiccu", true, false)));
    assert_eq!(signals.len(), 1);
    match &signals[0] {
        ClientSignal::ConnectionEstablished(i) => assert!(same(i, &info(3, "Hiccu", true, false))),
        other => panic!("unexpected signal {:?}", other),
    }
    assert_eq!(signals[0].name(), "connection_established");
    assert!(same(&c.info, &info(3, "Hiccu", true, false)));
}

#[test]
fn client_join_announces_one_client() {
    let mut c = Client::new();
    c.info = info(1, "me", true, true);
    let signals = c.handle_message(ServerMessage::ClientJoin(info(2, "other", true, false)));
    assert_eq!(signals.len(), 1);
    assert_eq!(signals[0].name(), "client_joined");
    match &signals[0] {
        ClientSignal::ClientJoined(i) => assert!(same(i, &info(2, "other", true, false))),
        other => panic!("unexpected signal {:?}", other),
    }
    assert!(same(&c.info, &info(1, "me", true, true)));
}

#[test]
fn client_list_announces_each_in_order() {
    let mut c = Client::new();
    let list = vec![info(1, "a", true, true), info(4, "b", true, false), info(9, "c", false, false)];
    let signals = c.handle_message(ServerMessage::ClientList(list.clone()));
    assert_eq!(signals.len(), 3);
    for (signal, expected) in signals.iter().zip(list.iter()) {
        match signal {
            ClientSignal::ClientJoined(i) => assert!(same(i, expected)),
            other => panic!("unexpected signal {:?}", other),
        }
    }
    assert!(same(&c.info, &ClientInfo::default()));
}

#[test]
fn empty_client_list_announces_nobody() {
    let mut c = Client::new();
    assert!(c.handle_message(ServerMessage::ClientList(Vec::new())).is_empty());
}

#[test]
fn liveness_follows_the_socket() {
    let mut c = Client::new();
    assert!(c.observe_state(WebSocketState::Open));
    assert!(c.info.is_alive);
    for state in [WebSocketState::Connecting, WebSocketState::Closing, WebSocketState::Closed] {
        assert!(!c.observe_state(state));
        assert!(!c.info.is_alive);
    }
    assert!(Client::socket_needs_poll(WebSocketState::Open));
    assert!(Client::socket_needs_poll(WebSocketState::Connecting));
    assert!(Client::socket_needs_poll(WebSocketState::Closing));
    assert!(!Client::socket_needs_poll(WebSocketState::Closed));
}

type Field<T> = Option<Result<T, String>>;

fn read(id: Field<i64>, name: Field<String>, alive: Field<bool>, host: Field<bool>) -> Result<ClientInfo, FieldError<String>> {
    ClientInfo::from_fields(id, name, alive, host)
}

#[test]
fn fields_read_back() {
    let r = read(Some(Ok(7)), Some(Ok("Hiccu".to_string())), Some(Ok(true)), Some(Ok(false)));
    assert!(same(&r.unwrap(), &info(7, "Hiccu", true, false)));
}

#[test]
fn fields_round_trip() {
    let original = info(-12, "x y", false, true);
    let back = read(
        Some(Ok(original.id)),
        Some(Ok(original.name.clone())),
        Some(Ok(original.is_alive)),
        Some(Ok(original.is_host)),
    )
    .unwrap();
    assert!(same(&back, &original));
}

fn missing_of(r: Result<ClientInfo, FieldError<String>>) -> ClientField {
    match r {
        Err(FieldError::Missing(f)) => f,
        other => panic!("expected a missing field, got {:?}", other),
    }
}

#[test]
fn each_missing_field_is_named() {
    let ok_name = || Some(Ok("n".to_string()));
    assert_eq!(missing_of(read(None, ok_name(), Some(Ok(true)), Some(Ok(true)))), ClientField::Id);
    assert_eq!(missing_of(read(Some(Ok(1)), None, Some(Ok(true)), Some(Ok(true)))), ClientField::Name);
    assert_eq!(missing_of(read(Some(Ok(1)), ok_name(), None, Some(Ok(true)))), ClientField::IsAlive);
    assert_eq!(missing_of(read(Some(Ok(1)), ok_name(), Some(Ok(true)), None)), ClientField::IsHost);
}

#[test]
fn missing_field_messages() {
    let cases = [
        (ClientField::Id, "Missing id"),
        (ClientField::Name, "Missing name"),
        (ClientField::IsAlive, "Missing is_alive"),
        (ClientField::IsHost, "Missing is_host"),
    ];
    for (field, text) in cases {
        let e: FieldError<String> = FieldError::Missing(field);
        assert_eq!(e.missing_message().as_deref(), Some(text));
    }
    let e: FieldError<String> = FieldError::Invalid("bad".to_string());
    assert_eq!(e.missing_message(), None);
    assert_eq!(ClientField::IsAlive.key(), "is_alive");
}

#[test]
fn conversion_error_is_passed_on() {
    match read(Some(Ok(1)), Some(Err("not a string".to_string())), Some(Ok(true)), Some(Ok(true))) {
        Err(FieldError::Invalid(e)) => assert_eq!(e, "not a string"),
        other => panic!("unexpected {:?}", other),
    }
}

#[test]
fn first_bad_field_decides() {
    // id is missing and name fails: the id is reported.
    assert_eq!(missing_of(read(None, Some(Err("bad".to_string())), None, None)), ClientField::Id);
    // id fails and name is missing: the conversion error is reported.
    match read(Some(Err("bad id".to_string())), None, None, None) {
        Err(FieldError::Invalid(e)) => assert_eq!(e, "bad id"),
        other => panic!("unexpected {:?}", other),
    }
}
