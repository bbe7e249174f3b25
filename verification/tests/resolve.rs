use relay::config::{ConfigMap, RoomConfig, RoomKind};
use relay::resolve::{str_to_roomgroup, ResolveError};

fn confs() -> ConfigMap {
    let mut cm = ConfigMap::new();
    cm.insert(RoomConfig {
        prefix: "lobby".to_string(),
        kind: RoomKind::Broadcast,
        authorized_messages: vec![],
        message_map: vec![],
    });
    cm.insert(RoomConfig {
        prefix: "games".to_string(),
        kind: RoomKind::Group("http://check/".to_string()),
        authorized_messages: vec![],
        message_map: vec![],
    });
    cm.insert(RoomConfig {
        prefix: "direct".to_string(),
        kind: RoomKind::Individual("http://one/".to_string()),
        authorized_messages: vec![],
        message_map: vec![],
    });
    cm
}

fn err_of(name: &str) -> ResolveError {
    match str_to_roomgroup(&confs(), name) {
        Ok(_) => panic!("resolution of {:?} unexpectedly succeeded", name),
        Err(e) => e,
    }
}

#[test]
fn broadcast_room_resolves_bare() {
    let rg = str_to_roomgroup(&confs(), "lobby").unwrap();
    assert_eq!(rg.full_roomgroup, "lobby");
    assert_eq!(rg.room, "lobby");
    assert!(rg.group.is_none());
    assert!(rg.fetch_url.is_none());
}

#[test]
fn broadcast_room_rejects_group_suffix() {
    assert_eq!(err_of("lobby/alpha"), ResolveError::BroadcastRoomNoGroup);
}

#[test]
fn group_room_requires_suffix() {
    assert_eq!(err_of("games"), ResolveError::GroupSuffixRequired);
    assert_eq!(err_of("direct"), ResolveError::GroupSuffixRequired);
}

#[test]
fn group_room_resolves_with_suffix() {
    let rg = str_to_roomgroup(&confs(), "games/alpha").unwrap();
    assert_eq!(rg.full_roomgroup, "games/alpha");
    assert_eq!(rg.room, "games");
    assert_eq!(rg.group.as_deref(), Some("alpha"));
    assert_eq!(rg.fetch_url.as_deref(), Some("http://check/"));
}

#[test]
fn individual_room_resolves_with_suffix() {
    let rg = str_to_roomgroup(&confs(), "direct/bob").unwrap();
    assert_eq!(rg.full_roomgroup, "direct/bob");
    assert_eq!(rg.room, "direct");
    assert_eq!(rg.group.as_deref(), Some("bob"));
    assert_eq!(rg.fetch_url.as_deref(), Some("http://one/"));
}

#[test]
fn unknown_room_is_rejected() {
    assert_eq!(err_of("nowhere"), ResolveError::UnknownRoom);
    assert_eq!(err_of("nowhere/g"), ResolveError::UnknownRoom);
}

#[test]
fn three_segments_are_malformed() {
    assert_eq!(err_of("games/a/b"), ResolveError::MalformedAddress);
    assert_eq!(err_of("lobby/a/b/c"), ResolveError::MalformedAddress);
}

#[test]
fn malformed_wins_over_unknown() {
    assert_eq!(err_of("nowhere/a/b"), ResolveError::MalformedAddress);
}

#[test]
fn empty_group_segment_still_resolves() {
    let rg = str_to_roomgroup(&confs(), "games/").unwrap();
    assert_eq!(rg.full_roomgroup, "games/");
    assert_eq!(rg.group.as_deref(), Some(""));
}

#[test]
fn insert_replaces_same_prefix() {
    let mut cm = ConfigMap::new();
    cm.insert(RoomConfig {
        prefix: "lobby".to_string(),
        kind: RoomKind::Broadcast,
        authorized_messages: vec![],
        message_map: vec![],
    });
    cm.insert(RoomConfig {
        prefix: "lobby".to_string(),
        kind: RoomKind::Group("http://u/".to_string()),
        authorized_messages: vec![],
        message_map: vec![],
    });
    // The later configuration wins: the room is no longer broadcast.
    assert_eq!(err_of_in(&cm, "lobby"), ResolveError::GroupSuffixRequired);
    let rg = str_to_roomgroup(&cm, "lobby/a").unwrap();
    assert_eq!(rg.fetch_url.as_deref(), Some("http://u/"));
}

fn err_of_in(cm: &ConfigMap, name: &str) -> ResolveError {
    match str_to_roomgroup(cm, name) {
        Ok(_) => panic!("resolution of {:?} unexpectedly succeeded", name),
        Err(e) => e,
    }
}

#[test]
fn encode_resolve_round_trip() {
    let cm = confs();
    for room in ["games", "direct"] {
        for group in ["alpha", "z9", "a-b"] {
            let encoded = format!("{}/{}", room, group);
            let rg = str_to_roomgroup(&cm, &encoded).unwrap();
            assert_eq!(rg.full_roomgroup, encoded);
            assert_eq!(rg.room, room);
            assert_eq!(rg.group.as_deref(), Some(group));
        }
    }
}
