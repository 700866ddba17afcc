use dt_lib::lobby::{LobbyHub, Outgoing, Session, SocketId, CHAT_MAX_LEN};
use dt_lib::room::{ClientRoomMsg, RoomConfig, ServerRoomMsg};

fn hub() -> LobbyHub {
    LobbyHub::new()
}

fn connect_named(hub: &mut LobbyHub, name: &str) -> SocketId {
    let id = hub.connect(Session::new());
    let out = hub.handle(id, ClientRoomMsg::Hello { name: name.into() });
    assert!(matches!(out[0].msg, ServerRoomMsg::Welcome { .. }));
    id
}

fn battle_config() -> RoomConfig {
    RoomConfig {
        title: "Тест".into(),
        ..Default::default()
    }
}

fn created(out: &[Outgoing]) -> u64 {
    match &out[0].msg {
        ServerRoomMsg::RoomCreated(id) => *id,
        other => panic!("unexpected {other:?}"),
    }
}

#[test]
fn hello_welcome_and_unique_names() {
    let mut h = hub();
    let a = connect_named(&mut h, "Аня");
    let out = h.handle(a, ClientRoomMsg::Hello { name: "Аня".into() });
    match &out[0].msg {
        ServerRoomMsg::Welcome { name } => assert_eq!(name, "Аня#2"),
        other => panic!("unexpected {other:?}"),
    }
    let b = h.connect(Session::new());
    let out = h.handle(b, ClientRoomMsg::Hello { name: "  ".into() });
    assert!(matches!(out[0].msg, ServerRoomMsg::Error { .. }));
}

#[test]
fn unregistered_rejected() {
    let mut h = hub();
    let id = h.connect(Session::new());
    let out = h.handle(id, ClientRoomMsg::ListRooms { open_only: false });
    assert!(matches!(out[0].msg, ServerRoomMsg::Error { .. }));
}

#[test]
fn list_rooms_and_open_filter() {
    let mut h = hub();
    let a = connect_named(&mut h, "host");
    let room = created(&h.handle(a, ClientRoomMsg::CreateRoom(battle_config())));
    let b = connect_named(&mut h, "второй");
    h.handle(b, ClientRoomMsg::JoinRoom { room, as_spectator: false });
    let out = h.handle(a, ClientRoomMsg::ListRooms { open_only: true });
    let ServerRoomMsg::RoomList(list) = &out[0].msg else {
        panic!("not a list")
    };
    assert!(list.is_empty());
    let out = h.handle(a, ClientRoomMsg::ListRooms { open_only: false });
    let ServerRoomMsg::RoomList(list) = &out[0].msg else {
        panic!("not a list")
    };
    assert_eq!(list.len(), 1);
}

#[test]
fn create_joins_creator_and_broadcasts_update() {
    let mut h = hub();
    let a = connect_named(&mut h, "host");
    let viewer = connect_named(&mut h, "наблюдатель");
    let out = h.handle(a, ClientRoomMsg::CreateRoom(battle_config()));
    assert!(matches!(out[0].msg, ServerRoomMsg::RoomCreated(_)));
    assert!(matches!(out[1].msg, ServerRoomMsg::JoinedRoom(_)));
    assert!(out.iter().any(|o| matches!(o.msg, ServerRoomMsg::RoomUpdate(_))));
    assert!(out
        .iter()
        .any(|o| o.to.is_none() && matches!(o.msg, ServerRoomMsg::RoomUpdate(_))));
    let _ = viewer;
    let session = h.sessions.get(&a).unwrap();
    assert!(session.room.is_some());
}

#[test]
fn join_rejected_when_full() {
    let mut h = hub();
    let a = connect_named(&mut h, "host");
    let room = created(&h.handle(a, ClientRoomMsg::CreateRoom(battle_config())));
    let b = connect_named(&mut h, "второй");
    h.handle(b, ClientRoomMsg::JoinRoom { room, as_spectator: false });
    let c = connect_named(&mut h, "третий");
    let out = h.handle(c, ClientRoomMsg::JoinRoom { room, as_spectator: false });
    assert!(matches!(out[0].msg, ServerRoomMsg::JoinRejected { .. }));
    let out = h.handle(c, ClientRoomMsg::JoinRoom { room, as_spectator: true });
    assert!(matches!(out[0].msg, ServerRoomMsg::JoinedRoom(_)));
}

#[test]
fn chat_broadcast_history_and_system_messages() {
    let mut h = hub();
    let a = connect_named(&mut h, "host");
    let room = created(&h.handle(a, ClientRoomMsg::CreateRoom(battle_config())));
    let b = connect_named(&mut h, "гость");
    let out = h.handle(b, ClientRoomMsg::JoinRoom { room, as_spectator: true });
    assert!(out
        .iter()
        .any(|o| matches!(&o.msg, ServerRoomMsg::ChatMsg(m) if m.system)));
    assert!(matches!(out.last().unwrap().msg, ServerRoomMsg::ChatHistory(_)));
    let out = h.handle(a, ClientRoomMsg::Chat { text: "привет".into() });
    let sent: Vec<_> = out
        .iter()
        .filter(|o| matches!(&o.msg, ServerRoomMsg::ChatMsg(m) if m.text == "привет" && m.from == "host"))
        .collect();
    assert_eq!(sent.len(), 2, "both room members get the chat msg");
    let history = h.chat_history.get(&room).unwrap();
    assert_eq!(history.len(), 3);
    assert_eq!(history.back().unwrap().text, "привет");
}

#[test]
fn chat_rate_limit_and_length_cap() {
    let mut h = hub();
    let a = connect_named(&mut h, "host");
    let room = created(&h.handle(a, ClientRoomMsg::CreateRoom(battle_config())));
    let _ = &room;
    for i in 0..5 {
        let out = h.handle(a, ClientRoomMsg::Chat { text: format!("м{i}") });
        assert!(!out.is_empty(), "msg {i} must pass");
    }
    let out = h.handle(a, ClientRoomMsg::Chat { text: "лишний".into() });
    assert!(matches!(out[0].msg, ServerRoomMsg::Error { .. }));
    h.sessions.get_mut(&a).unwrap().chat_times.clear();
    let long = "ж".repeat(400);
    h.handle(a, ClientRoomMsg::Chat { text: long });
    let last = h.chat_history.get(&room).unwrap().back().unwrap();
    assert_eq!(last.text.chars().count(), CHAT_MAX_LEN);
}

#[test]
fn chat_requires_room() {
    let mut h = hub();
    let a = connect_named(&mut h, "одинокий");
    let out = h.handle(a, ClientRoomMsg::Chat { text: "эх".into() });
    assert!(matches!(out[0].msg, ServerRoomMsg::Error { .. }));
}

#[test]
fn start_only_host_and_started_addresses_players() {
    let mut h = hub();
    let a = connect_named(&mut h, "host");
    let room = created(&h.handle(a, ClientRoomMsg::CreateRoom(battle_config())));
    let b = connect_named(&mut h, "гость");
    h.handle(b, ClientRoomMsg::JoinRoom { room, as_spectator: false });
    let c = connect_named(&mut h, "зритель");
    h.handle(c, ClientRoomMsg::JoinRoom { room, as_spectator: true });
    let out = h.handle(b, ClientRoomMsg::StartBattle);
    assert!(matches!(out[0].msg, ServerRoomMsg::Error { .. }));
    let out = h.handle(a, ClientRoomMsg::StartBattle);
    let mut started = vec![];
    for o in &out {
        if let ServerRoomMsg::Started { your_army, ini_seed } = o.msg {
            started.push((o.to, your_army, ini_seed));
        }
    }
    assert_eq!(started.len(), 2);
    let sock_a = started.iter().find(|s| s.0 == Some(a)).unwrap();
    let sock_b = started.iter().find(|s| s.0 == Some(b)).unwrap();
    assert_eq!(sock_a.1, 0);
    assert_eq!(sock_b.1, 1);
    assert_eq!(sock_a.2, sock_b.2, "ini_seed is shared");
    assert!(!started.iter().any(|s| s.0 == Some(c)));
}

#[test]
fn leave_updates_and_closes_room() {
    let mut h = hub();
    let a = connect_named(&mut h, "host");
    let room = created(&h.handle(a, ClientRoomMsg::CreateRoom(battle_config())));
    let out = h.handle(a, ClientRoomMsg::LeaveRoom);
    assert!(out
        .iter()
        .any(|o| matches!(o.msg, ServerRoomMsg::RoomClosed(id) if id == room)));
    assert!(h.rooms.get(room).is_none());
    assert!(h.chat_history.get(&room).is_none());
    assert!(h.sessions.get(&a).unwrap().room.is_none());
}

#[test]
fn disconnect_leaves_room_with_broadcast() {
    let mut h = hub();
    let a = connect_named(&mut h, "host");
    let room = created(&h.handle(a, ClientRoomMsg::CreateRoom(battle_config())));
    let b = connect_named(&mut h, "гость");
    h.handle(b, ClientRoomMsg::JoinRoom { room, as_spectator: false });
    let out = h.disconnect(a);
    assert!(out.iter().any(|o| matches!(&o.msg, ServerRoomMsg::ChatMsg(m)
        if m.system && m.text.contains("host покинул"))));
    let room_data = h.rooms.get(room).unwrap();
    assert_eq!(room_data.host, "гость");
    assert!(h.sessions.get(&a).is_none());
}

#[test]
fn kick_removes_session_room() {
    let mut h = hub();
    let a = connect_named(&mut h, "host");
    let room = created(&h.handle(a, ClientRoomMsg::CreateRoom(battle_config())));
    let b = connect_named(&mut h, "гость");
    h.handle(b, ClientRoomMsg::JoinRoom { room, as_spectator: false });
    let out = h.handle(a, ClientRoomMsg::Kick { member: "гость".into() });
    assert!(out
        .iter()
        .any(|o| o.to == Some(b) && matches!(o.msg, ServerRoomMsg::Kicked(_))));
    assert!(h.sessions.get(&b).unwrap().room.is_none());
    let out = h.handle(b, ClientRoomMsg::Kick { member: "host".into() });
    assert!(matches!(out[0].msg, ServerRoomMsg::Error { .. }));
}

#[test]
fn room_sockets_sorted_broadcast() {
    let mut h = hub();
    let a = connect_named(&mut h, "host");
    let room = created(&h.handle(a, ClientRoomMsg::CreateRoom(battle_config())));
    let b = connect_named(&mut h, "гость");
    h.handle(b, ClientRoomMsg::JoinRoom { room, as_spectator: true });
    let sockets = h.room_sockets(room);
    assert_eq!(sockets, vec![a, b]);
    let outsider = connect_named(&mut h, "мимо");
    assert!(!sockets.contains(&outsider));
}

#[test]
fn handle_at_stamps_chat_with_given_time() {
    let mut h = hub();
    let a = connect_named(&mut h, "host");
    let room = created(&h.handle_at(a, ClientRoomMsg::CreateRoom(battle_config()), 100));
    let out = h.handle_at(a, ClientRoomMsg::Chat { text: "  да  ".into() }, 105);
    match &out[0].msg {
        ServerRoomMsg::ChatMsg(m) => {
            assert_eq!(m.text, "да");
            assert_eq!(m.at, 105);
            assert!(!m.system);
        }
        other => panic!("unexpected {other:?}"),
    }
    let history = h.chat_history.get(&room).unwrap();
    assert_eq!(history.front().unwrap().text, "host присоединился как игрок");
    assert_eq!(history.front().unwrap().at, 100);
}

#[test]
fn rate_window_forgets_old_lines() {
    let mut h = hub();
    let a = connect_named(&mut h, "host");
    h.handle_at(a, ClientRoomMsg::CreateRoom(battle_config()), 0);
    for t in 0..5u64 {
        let out = h.handle_at(a, ClientRoomMsg::Chat { text: "x".into() }, t);
        assert!(matches!(out[0].msg, ServerRoomMsg::ChatMsg(_)));
    }
    let out = h.handle_at(a, ClientRoomMsg::Chat { text: "x".into() }, 10);
    assert!(matches!(&out[0].msg, ServerRoomMsg::Error { message } if message == "Слишком много сообщений, подождите"));
    let out = h.handle_at(a, ClientRoomMsg::Chat { text: "x".into() }, 11);
    assert!(matches!(out[0].msg, ServerRoomMsg::ChatMsg(_)));
}

#[test]
fn blank_chat_is_dropped() {
    let mut h = hub();
    let a = connect_named(&mut h, "host");
    h.handle(a, ClientRoomMsg::CreateRoom(battle_config()));
    let out = h.handle(a, ClientRoomMsg::Chat { text: "   ".into() });
    assert!(out.is_empty());
}

#[test]
fn all_sockets_lists_named_sessions() {
    let mut h = hub();
    let anon = h.connect(Session::new());
    let a = connect_named(&mut h, "a");
    let b = connect_named(&mut h, "b");
    assert_eq!(h.all_sockets(), vec![a, b]);
    let _ = anon;
}
