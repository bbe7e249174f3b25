use relay::config::{build_room_config, ConfigMap, RoomConfig, RoomKind};
use relay::message::{
    classify_directive, handle_message, is_authorized_message, split_message, InboundDirective,
};
use relay::remote::{interpret_check_response, CheckOutcome};

fn confs() -> ConfigMap {
    let mut cm = ConfigMap::new();
    cm.insert(RoomConfig {
        prefix: "open".to_string(),
        kind: RoomKind::Broadcast,
        authorized_messages: vec![],
        message_map: vec![],
    });
    cm.insert(RoomConfig {
        prefix: "strict".to_string(),
        kind: RoomKind::Broadcast,
        authorized_messages: vec!["ping".to_string()],
        message_map: vec![],
    });
    cm.insert(RoomConfig {
        prefix: "mapped".to_string(),
        kind: RoomKind::Broadcast,
        authorized_messages: vec![],
        message_map: vec![("ping".to_string(), "PONG".to_string())],
    });
    cm
}

#[test]
fn authorized_message_passes_unchanged() {
    let action = handle_message("strict:ping".to_string(), &confs()).unwrap();
    assert_eq!(action.send_message, "ping");
    assert_eq!(action.room_group.full_roomgroup, "strict");
    assert_eq!(action.room_config.prefix, "strict");
}

#[test]
fn unauthorized_message_is_dropped() {
    assert!(handle_message("strict:pong".to_string(), &confs()).is_none());
}

#[test]
fn mapped_message_is_rewritten() {
    let action = handle_message("mapped:ping".to_string(), &confs()).unwrap();
    assert_eq!(action.send_message, "PONG");
}

#[test]
fn unmapped_message_in_mapped_room_is_dropped() {
    // The map is non-empty, so the "no rules at all" case does not apply.
    assert!(handle_message("mapped:other".to_string(), &confs()).is_none());
}

#[test]
fn room_without_rules_accepts_anything() {
    let action = handle_message("open:whatever".to_string(), &confs()).unwrap();
    assert_eq!(action.send_message, "whatever");
}

#[test]
fn payload_is_trimmed() {
    let action = handle_message("open:  spaced out \t".to_string(), &confs()).unwrap();
    assert_eq!(action.send_message, "spaced out");
}

#[test]
fn payload_may_contain_separator() {
    let action = handle_message("open:a:b:c".to_string(), &confs()).unwrap();
    assert_eq!(action.send_message, "a:b:c");
}

#[test]
fn directive_without_separator_is_no_action() {
    assert!(handle_message("just words".to_string(), &confs()).is_none());
    assert!(split_message("just words".to_string(), &confs()).is_none());
}

#[test]
fn unresolvable_address_is_no_action() {
    assert!(handle_message("nowhere:ping".to_string(), &confs()).is_none());
    assert!(handle_message("open/sub:ping".to_string(), &confs()).is_none());
}

#[test]
fn split_message_trims_and_resolves() {
    let sm = split_message("open: hello ".to_string(), &confs()).unwrap();
    assert_eq!(sm.content, "hello");
    assert_eq!(sm.room_group.full_roomgroup, "open");
}

#[test]
fn authorization_predicate_cases() {
    let cm = confs();
    let open = cm.get("open").unwrap();
    let strict = cm.get("strict").unwrap();
    let mapped = cm.get("mapped").unwrap();
    assert!(is_authorized_message("anything".to_string(), open));
    assert!(is_authorized_message("ping".to_string(), strict));
    assert!(!is_authorized_message("pong".to_string(), strict));
    assert!(is_authorized_message("ping".to_string(), mapped));
    assert!(!is_authorized_message("pong".to_string(), mapped));
}

#[test]
fn build_config_broadcast() {
    let c = build_room_config(
        Some("a".to_string()),
        Some("broadcast".to_string()),
        None,
        vec!["x".to_string()],
        vec![],
    )
    .unwrap();
    assert_eq!(c.prefix, "a");
    assert!(matches!(c.kind, RoomKind::Broadcast));
    assert_eq!(c.authorized_messages, vec!["x".to_string()]);
}

#[test]
fn build_config_group_needs_url() {
    assert!(build_room_config(
        Some("a".to_string()),
        Some("group".to_string()),
        None,
        vec![],
        vec![],
    )
    .is_none());
    let c = build_room_config(
        Some("a".to_string()),
        Some("group".to_string()),
        Some("http://u/".to_string()),
        vec![],
        vec![],
    )
    .unwrap();
    assert!(matches!(c.kind, RoomKind::Group(u) if u == "http://u/"));
}

#[test]
fn build_config_individual_needs_url() {
    assert!(build_room_config(
        Some("a".to_string()),
        Some("individual".to_string()),
        None,
        vec![],
        vec![],
    )
    .is_none());
    let c = build_room_config(
        Some("a".to_string()),
        Some("individual".to_string()),
        Some("http://u/".to_string()),
        vec![],
        vec![],
    )
    .unwrap();
    assert!(matches!(c.kind, RoomKind::Individual(u) if u == "http://u/"));
}

#[test]
fn build_config_unknown_or_missing_kind() {
    assert!(build_room_config(
        Some("a".to_string()),
        Some("other".to_string()),
        None,
        vec![],
        vec![],
    )
    .is_none());
    assert!(build_room_config(Some("a".to_string()), None, None, vec![], vec![]).is_none());
}

#[test]
fn build_config_missing_prefix_falls_back() {
    let c = build_room_config(None, Some("broadcast".to_string()), None, vec![], vec![]).unwrap();
    assert_eq!(c.prefix, "none");
}

#[test]
fn existence_answer_needs_success_and_yes() {
    assert_eq!(interpret_check_response(true, "yes"), CheckOutcome::Exists);
    assert_eq!(interpret_check_response(true, "  yes\n"), CheckOutcome::Exists);
    assert_eq!(interpret_check_response(true, "well yes indeed"), CheckOutcome::Exists);
    assert_eq!(interpret_check_response(true, "no"), CheckOutcome::DoesNotExist);
    assert_eq!(interpret_check_response(true, ""), CheckOutcome::DoesNotExist);
}

#[test]
fn failed_check_is_not_nonexistence() {
    // A failure status is a check failure of its own, whatever the body
    // says — never the non-existence answer.
    assert_eq!(interpret_check_response(false, "yes"), CheckOutcome::CheckFailed);
    assert_eq!(interpret_check_response(false, "no"), CheckOutcome::CheckFailed);
    assert_eq!(interpret_check_response(false, ""), CheckOutcome::CheckFailed);
    assert_ne!(interpret_check_response(false, "no"), CheckOutcome::DoesNotExist);
}

#[test]
fn sentinel_marks_a_teardown_directive() {
    match classify_directive("-games/alpha".to_string()) {
        InboundDirective::Teardown(name) => assert_eq!(name, "games/alpha"),
        InboundDirective::Message(_) => panic!("sentinel text classified as a message"),
    }
    match classify_directive("-".to_string()) {
        InboundDirective::Teardown(name) => assert_eq!(name, ""),
        InboundDirective::Message(_) => panic!("bare sentinel classified as a message"),
    }
}

#[test]
fn ordinary_text_is_a_message_directive() {
    match classify_directive("open:hi".to_string()) {
        InboundDirective::Message(txt) => assert_eq!(txt, "open:hi"),
        InboundDirective::Teardown(_) => panic!("plain text classified as a teardown"),
    }
    match classify_directive("".to_string()) {
        InboundDirective::Message(txt) => assert_eq!(txt, ""),
        InboundDirective::Teardown(_) => panic!("empty text classified as a teardown"),
    }
    // The sentinel counts only in first position.
    match classify_directive("open:-x".to_string()) {
        InboundDirective::Message(txt) => assert_eq!(txt, "open:-x"),
        InboundDirective::Teardown(_) => panic!("inner dash classified as a teardown"),
    }
}
