use relay::channel::OutboundEvent;
use relay::config::{ConfigMap, RoomConfig, RoomKind};
use relay::model::JoinOutcome;
use relay::registry::{ClientRoom, Registry};
use relay::resolve::str_to_roomgroup;
use tokio::sync::mpsc::{unbounded_channel, UnboundedReceiver};

fn confs() -> ConfigMap {
    let mut cm = ConfigMap::new();
    cm.insert(RoomConfig {
        prefix: "lobby".to_string(),
        kind: RoomKind::Broadcast,
        authorized_messages: vec![],
        message_map: vec![],
    });
    cm.insert(RoomConfig {
        prefix: "hall".to_string(),
        kind: RoomKind::Broadcast,
        authorized_messages: vec![],
        message_map: vec![],
    });
    cm.insert(RoomConfig {
        prefix: "games".to_string(),
        kind: RoomKind::Group("http://check/".to_string()),
        authorized_messages: vec![],
        message_map: vec![],
    });
    cm
}

fn client(id: u64) -> (ClientRoom, UnboundedReceiver<OutboundEvent>) {
    let (tx, rx) = unbounded_channel();
    (ClientRoom { c: tx, global_id: id }, rx)
}

fn join(reg: &mut Registry, cm: &ConfigMap, addr: &str, c: &ClientRoom) -> JoinOutcome {
    let rg = str_to_roomgroup(cm, addr).unwrap();
    let conf = cm.get(&rg.room).unwrap().duplicate();
    reg.add_client_to_rg(
        &conf,
        &rg,
        ClientRoom { c: c.c.clone(), global_id: c.global_id },
    )
}

fn texts(rx: &mut UnboundedReceiver<OutboundEvent>) -> Vec<String> {
    let mut out = Vec::new();
    while let Ok(ev) = rx.try_recv() {
        match ev {
            OutboundEvent::Text(s) => out.push(s),
            OutboundEvent::Close => out.push("<close>".to_string()),
        }
    }
    out
}

#[test]
fn broadcast_room_join_is_immediate() {
    let cm = confs();
    let mut reg = Registry::new();
    let (a, _rx) = client(1);
    assert_eq!(join(&mut reg, &cm, "lobby", &a), JoinOutcome::Joined);
    assert!(reg.has_group("lobby"));
    assert_eq!(reg.group_len("lobby"), 1);
    assert_eq!(reg.client_rooms(1), vec!["lobby".to_string()]);
}

#[test]
fn join_twice_is_idempotent() {
    let cm = confs();
    let mut reg = Registry::new();
    let (a, _rx) = client(1);
    assert_eq!(join(&mut reg, &cm, "lobby", &a), JoinOutcome::Joined);
    assert_eq!(join(&mut reg, &cm, "lobby", &a), JoinOutcome::AlreadyMember);
    assert_eq!(reg.group_len("lobby"), 1);
    assert_eq!(reg.client_rooms(1), vec!["lobby".to_string()]);
}

#[test]
fn group_join_runs_exactly_one_check() {
    let cm = confs();
    let mut reg = Registry::new();
    let (a, _ra) = client(1);
    let (b, _rb) = client(2);
    // The first join is told to run the remote check; the second waits
    // on the same in-flight check instead of being told again.
    assert_eq!(join(&mut reg, &cm, "games/alpha", &a), JoinOutcome::NeedsRemoteCheck);
    assert_eq!(join(&mut reg, &cm, "games/alpha", &b), JoinOutcome::Pending);
    assert!(!reg.has_group("games/alpha"));
    reg.resolve_admission("games/alpha", true);
    assert!(reg.has_group("games/alpha"));
    assert_eq!(reg.group_len("games/alpha"), 2);
    assert_eq!(reg.client_rooms(1), vec!["games/alpha".to_string()]);
    assert_eq!(reg.client_rooms(2), vec!["games/alpha".to_string()]);
}

#[test]
fn denied_admission_creates_no_entry() {
    let cm = confs();
    let mut reg = Registry::new();
    let (a, _ra) = client(1);
    assert_eq!(join(&mut reg, &cm, "games/alpha", &a), JoinOutcome::NeedsRemoteCheck);
    reg.resolve_admission("games/alpha", false);
    assert!(!reg.has_group("games/alpha"));
    // The client is known from first contact, but belongs nowhere.
    assert!(reg.knows_client(1));
    assert!(reg.client_rooms(1).is_empty());
    // A later join starts a fresh admission attempt.
    assert_eq!(join(&mut reg, &cm, "games/alpha", &a), JoinOutcome::NeedsRemoteCheck);
}

#[test]
fn existing_entry_is_reused_without_check() {
    let cm = confs();
    let mut reg = Registry::new();
    let (a, _ra) = client(1);
    let (b, _rb) = client(2);
    assert_eq!(join(&mut reg, &cm, "games/alpha", &a), JoinOutcome::NeedsRemoteCheck);
    reg.resolve_admission("games/alpha", true);
    assert_eq!(join(&mut reg, &cm, "games/alpha", &b), JoinOutcome::Joined);
    assert_eq!(reg.group_len("games/alpha"), 2);
}

#[test]
fn broadcast_reaches_every_member_once() {
    let cm = confs();
    let mut reg = Registry::new();
    let (a, mut ra) = client(1);
    let (b, mut rb) = client(2);
    let (c, mut rc) = client(3);
    let (d, mut rd) = client(4);
    join(&mut reg, &cm, "lobby", &a);
    join(&mut reg, &cm, "lobby", &b);
    join(&mut reg, &cm, "lobby", &c);
    join(&mut reg, &cm, "hall", &d);
    let sent = reg.broadcast_to_group("lobby", &"p".to_string());
    assert_eq!(sent, vec![1, 2, 3]);
    assert_eq!(texts(&mut ra), vec!["p".to_string()]);
    assert_eq!(texts(&mut rb), vec!["p".to_string()]);
    assert_eq!(texts(&mut rc), vec!["p".to_string()]);
    assert!(texts(&mut rd).is_empty());
}

#[test]
fn broadcast_to_absent_group_is_noop() {
    let reg = Registry::new();
    let sent = reg.broadcast_to_group("nowhere", &"p".to_string());
    assert!(sent.is_empty());
}

#[test]
fn broadcast_survives_a_gone_receiver() {
    let cm = confs();
    let mut reg = Registry::new();
    let (a, ra) = client(1);
    let (b, mut rb) = client(2);
    join(&mut reg, &cm, "lobby", &a);
    join(&mut reg, &cm, "lobby", &b);
    drop(ra);
    let sent = reg.broadcast_to_group("lobby", &"p".to_string());
    assert_eq!(sent, vec![1, 2]);
    assert_eq!(texts(&mut rb), vec!["p".to_string()]);
}

#[test]
fn removal_keeps_indexes_consistent() {
    let cm = confs();
    let mut reg = Registry::new();
    let (a, _ra) = client(1);
    let (b, _rb) = client(2);
    join(&mut reg, &cm, "lobby", &a);
    join(&mut reg, &cm, "hall", &a);
    join(&mut reg, &cm, "lobby", &b);
    reg.rm_client(1);
    assert!(!reg.knows_client(1));
    assert!(reg.client_rooms(1).is_empty());
    assert_eq!(reg.group_len("lobby"), 1);
    // The entry left empty disappears with its last member.
    assert!(!reg.has_group("hall"));
    // Removing an absent client is a no-op.
    reg.rm_client(1);
    assert_eq!(reg.group_len("lobby"), 1);
    reg.rm_client(2);
    assert!(!reg.has_group("lobby"));
}

#[test]
fn removal_drops_a_waiter() {
    let cm = confs();
    let mut reg = Registry::new();
    let (a, _ra) = client(1);
    assert_eq!(join(&mut reg, &cm, "games/alpha", &a), JoinOutcome::NeedsRemoteCheck);
    reg.rm_client(1);
    reg.resolve_admission("games/alpha", true);
    // The sole waiter left before the check came back: no entry appears.
    assert!(!reg.has_group("games/alpha"));
}

#[test]
fn teardown_evicts_every_member() {
    let cm = confs();
    let mut reg = Registry::new();
    let (a, mut ra) = client(1);
    let (b, mut rb) = client(2);
    join(&mut reg, &cm, "games/alpha", &a);
    reg.resolve_admission("games/alpha", true);
    join(&mut reg, &cm, "games/alpha", &b);
    assert_eq!(reg.group_len("games/alpha"), 2);
    let rg = str_to_roomgroup(&cm, "games/alpha").unwrap();
    let evicted = reg.handle_group_destruction(&rg, false);
    assert_eq!(evicted, vec![1, 2]);
    assert!(!reg.has_group("games/alpha"));
    assert!(!reg.knows_client(1));
    assert!(!reg.knows_client(2));
    assert!(matches!(ra.try_recv(), Ok(OutboundEvent::Close)));
    assert!(matches!(rb.try_recv(), Ok(OutboundEvent::Close)));
}

#[test]
fn teardown_spares_an_existing_group() {
    let cm = confs();
    let mut reg = Registry::new();
    let (a, _ra) = client(1);
    join(&mut reg, &cm, "games/alpha", &a);
    reg.resolve_admission("games/alpha", true);
    let rg = str_to_roomgroup(&cm, "games/alpha").unwrap();
    let evicted = reg.handle_group_destruction(&rg, true);
    assert!(evicted.is_empty());
    assert!(reg.has_group("games/alpha"));
    assert_eq!(reg.group_len("games/alpha"), 1);
}

#[test]
fn teardown_ignores_broadcast_identities() {
    let cm = confs();
    let mut reg = Registry::new();
    let (a, _ra) = client(1);
    join(&mut reg, &cm, "lobby", &a);
    let rg = str_to_roomgroup(&cm, "lobby").unwrap();
    let evicted = reg.handle_group_destruction(&rg, false);
    assert!(evicted.is_empty());
    assert!(reg.has_group("lobby"));
}

#[test]
fn eviction_spares_other_rooms() {
    let cm = confs();
    let mut reg = Registry::new();
    let (a, _ra) = client(1);
    let (b, _rb) = client(2);
    join(&mut reg, &cm, "games/alpha", &a);
    reg.resolve_admission("games/alpha", true);
    join(&mut reg, &cm, "lobby", &b);
    let rg = str_to_roomgroup(&cm, "games/alpha").unwrap();
    reg.handle_group_destruction(&rg, false);
    assert!(reg.has_group("lobby"));
    assert!(reg.knows_client(2));
}
