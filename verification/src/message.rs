//! The message pipeline: split an inbound text directive into an address
//! and a payload, resolve the address, authorize the payload, and pick
//! the payload actually broadcast.

use vstd::prelude::*;

use crate::config::{same_config, ConfigMap, RoomConfig};
use crate::resolve::{spec_resolve, str_to_roomgroup, RgModel, RoomGroup};
use crate::text::{find_char, find_char_in, lemma_find_char, spec_trim, trim_spaces};

verus! {

/// An inbound directive split into its payload and its resolved identity.
pub struct SplittedMessage {
    /// The payload, trimmed of surrounding whitespace.
    pub content: String,
    pub room_group: RoomGroup,
}

/// A routing instruction: what to broadcast, where, under which rules.
/// The only way payloads enter the broadcast path.
pub struct WebSocketAction {
    /// The payload to broadcast, after rewriting.
    pub send_message: String,
    pub room_group: RoomGroup,
    pub room_config: RoomConfig,
}

/// An inbound text, classified: a teardown directive carrying the
/// address after the leading sentinel, or an ordinary directive for the
/// message pipeline.
pub enum InboundDirective {
    Teardown(String),
    Message(String),
}

/// Whether an inbound text is a teardown directive: it begins with the
/// sentinel character `-`.
pub open spec fn spec_is_teardown(t: Seq<char>) -> bool {
    t.len() > 0 && t[0] == '-'
}

/// Classify an inbound text: a leading `-` makes it a teardown
/// directive for the remainder, consumed whole (no payload segment);
/// anything else goes to the message pipeline unchanged.
pub fn classify_directive(txt: String) -> (r: InboundDirective)
    ensures
        spec_is_teardown(txt@) ==> (r matches InboundDirective::Teardown(rest) && rest@
            == txt@.skip(1)),
        !spec_is_teardown(txt@) ==> r == InboundDirective::Message(txt),
{
    let n = txt.as_str().unicode_len();
    if n > 0 && txt.as_str().get_char(0) == '-' {
        let rest = txt.as_str().substring_char(1, n);
        proof {
            assert(rest@ =~= txt@.skip(1));
        }
        InboundDirective::Teardown(rest.to_owned())
    } else {
        InboundDirective::Message(txt)
    }
}

/// What splitting directive `msg` yields: the trimmed payload after the
/// first `':'` and the resolved identity of the address before it, or
/// nothing when either step fails.
pub open spec fn spec_split(cm: ConfigMap, msg: Seq<char>) -> Option<(Seq<char>, RgModel)> {
    let j = find_char(msg, ':');
    if j < 0 {
        None
    } else {
        match spec_resolve(cm, msg.subrange(0, j)) {
            Ok(m) => Some((spec_trim(msg.subrange(j + 1, msg.len() as int)), m)),
            Err(_) => None,
        }
    }
}

/// Split an inbound directive at the first `':'` into an address and a
/// payload, and resolve the address.
pub fn split_message(msg: String, confs: &ConfigMap) -> (r: Option<SplittedMessage>)
    ensures
        match spec_split(*confs, msg@) {
            None => r is None,
            Some((c, m)) => r matches Some(s) && s.content@ == c && s.room_group@ == m,
        },
{
    proof {
        lemma_find_char(msg@, ':');
    }
    let n_len = msg.as_str().unicode_len();
    let j = match find_char_in(msg.as_str(), ':') {
        None => {
            return None;
        },
        Some(j) => j,
    };
    let addr = msg.as_str().substring_char(0, j);
    let payload = msg.as_str().substring_char(j + 1, n_len);
    match str_to_roomgroup(confs, addr) {
        Ok(rg) => Some(SplittedMessage { content: trim_spaces(payload), room_group: rg }),
        Err(_) => None,
    }
}

/// Is the payload authorized by the room's rules? True iff the room
/// states no rules at all, or the payload is explicitly authorized, or
/// the rewrite map knows it.
pub fn is_authorized_message(msg: String, conf: &RoomConfig) -> (r: bool)
    ensures
        r == conf.spec_authorized(msg@),
{
    (conf.authorized_messages.len() == 0 && conf.message_map.len() == 0) || conf.auth_contains(
        msg.as_str(),
    ) || conf.lookup_map(msg.as_str()).is_some()
}

/// What handling directive `msg` yields: the payload to broadcast (after
/// rewriting) and the identity to broadcast it to, or nothing when the
/// directive is malformed, the address does not resolve, or the payload
/// is not authorized.
pub open spec fn spec_handle(cm: ConfigMap, msg: Seq<char>) -> Option<(Seq<char>, RgModel)> {
    match spec_split(cm, msg) {
        None => None,
        Some((c, m)) => {
            let conf = cm.spec_get(m.room);
            if !conf.spec_authorized(c) {
                None
            } else {
                Some((conf.spec_rewrite(c), m))
            }
        },
    }
}

/// Handle an inbound directive: split, resolve, authorize, rewrite.
///
/// On success the returned action carries the resolved identity, a copy
/// of the room's configuration, and the payload to broadcast.
pub fn handle_message(msg: String, confs: &ConfigMap) -> (r: Option<WebSocketAction>)
    ensures
        match spec_handle(*confs, msg@) {
            None => r is None,
            Some((p, m)) => r matches Some(a) && a.send_message@ == p && a.room_group@ == m
                && same_config(a.room_config, confs.spec_get(m.room)),
        },
{
    let sm = match split_message(msg, confs) {
        None => {
            return None;
        },
        Some(sm) => sm,
    };
    let conf = match confs.get(sm.room_group.room.as_str()) {
        None => {
            return None;
        },
        Some(conf) => conf,
    };
    if !is_authorized_message(sm.content.clone(), conf) {
        return None;
    }
    let send_message = match conf.lookup_map(sm.content.as_str()) {
        Some(v) => v.clone(),
        None => sm.content,
    };
    Some(
        WebSocketAction {
            send_message,
            room_group: sm.room_group,
            room_config: conf.duplicate(),
        },
    )
}

} // verus!
