//! Room configuration: a room's kind, its authorization rules and its
//! rewrite map, and the mapping from room name to configuration.

use vstd::prelude::*;

use crate::assoc::{first_idx, lemma_first_idx};
use crate::text::str_eq;

verus! {

broadcast use lemma_first_idx, vstd::string::group_string_axioms;

/// The kind of a room. Non-broadcast kinds carry the base URL used for
/// remote existence checks of their groups.
pub enum RoomKind {
    Broadcast,
    Group(String),
    Individual(String),
}

impl RoomKind {
    /// The remote-check URL carried by the kind, if any.
    pub open spec fn spec_url(self) -> Option<Seq<char>> {
        match self {
            RoomKind::Broadcast => None,
            RoomKind::Group(u) => Some(u@),
            RoomKind::Individual(u) => Some(u@),
        }
    }

    pub fn is_broadcast(&self) -> (r: bool)
        ensures
            r == (self is Broadcast),
    {
        matches!(self, RoomKind::Broadcast)
    }

    /// An equal copy.
    pub fn duplicate(&self) -> (r: Self)
        ensures
            r == *self,
    {
        match self {
            RoomKind::Broadcast => RoomKind::Broadcast,
            RoomKind::Group(u) => RoomKind::Group(u.clone()),
            RoomKind::Individual(u) => RoomKind::Individual(u.clone()),
        }
    }
}

/// Static per-room rules, immutable after load.
pub struct RoomConfig {
    /// The room's canonical name; the configuration lookup key.
    pub prefix: String,
    pub kind: RoomKind,
    /// Payloads permitted as-is; an empty list together with an empty
    /// `message_map` means "no restriction".
    pub authorized_messages: Vec<String>,
    /// Rewrites: a payload that is a key is broadcast as the mapped value,
    /// and the key's presence alone authorizes it.
    pub message_map: Vec<(String, String)>,
}

/// The two configurations carry the same rules: equal prefix, kind,
/// authorized payloads and rewrite map. Every spec function on a
/// configuration agrees on two configurations related this way.
pub open spec fn same_config(a: RoomConfig, b: RoomConfig) -> bool {
    &&& a.prefix == b.prefix
    &&& a.kind == b.kind
    &&& a.authorized_messages@ == b.authorized_messages@
    &&& a.message_map@ == b.message_map@
}

impl RoomConfig {
    /// Views of the authorized payloads.
    pub open spec fn auth_views(self) -> Seq<Seq<char>> {
        self.authorized_messages@.map_values(|s: String| s@)
    }

    /// Views of the rewrite-map keys.
    pub open spec fn map_keys(self) -> Seq<Seq<char>> {
        self.message_map@.map_values(|p: (String, String)| p.0@)
    }

    pub open spec fn map_has(self, m: Seq<char>) -> bool {
        self.map_keys().contains(m)
    }

    /// The payload actually broadcast for an inbound payload `m`.
    pub open spec fn spec_rewrite(self, m: Seq<char>) -> Seq<char> {
        if self.map_has(m) {
            self.message_map@[first_idx(self.map_keys(), m)].1@
        } else {
            m
        }
    }

    /// A payload is authorized iff the room states no rules at all, or the
    /// payload is explicitly authorized, or the rewrite map knows it.
    pub open spec fn spec_authorized(self, m: Seq<char>) -> bool {
        ||| (self.authorized_messages@.len() == 0 && self.message_map@.len() == 0)
        ||| self.auth_views().contains(m)
        ||| self.map_has(m)
    }

    /// Is `m` among the explicitly authorized payloads?
    pub fn auth_contains(&self, m: &str) -> (r: bool)
        ensures
            r == self.auth_views().contains(m@),
    {
        let n = self.authorized_messages.len();
        let mut i: usize = 0;
        while i < n
            invariant
                i <= n,
                n == self.authorized_messages@.len(),
                forall|j: int| 0 <= j < i ==> self.auth_views()[j] != m@,
            decreases n - i,
        {
            if str_eq(self.authorized_messages[i].as_str(), m) {
                assert(self.auth_views()[i as int] == m@);
                return true;
            }
            i = i + 1;
        }
        false
    }

    /// Look the payload up in the rewrite map (first matching key).
    pub fn lookup_map(&self, m: &str) -> (r: Option<&String>)
        ensures
            r is Some <==> self.map_has(m@),
            r is Some ==> r->Some_0@ == self.spec_rewrite(m@),
    {
        let n = self.message_map.len();
        let mut i: usize = 0;
        while i < n
            invariant
                i <= n,
                n == self.message_map@.len(),
                forall|j: int| 0 <= j < i ==> self.map_keys()[j] != m@,
            decreases n - i,
        {
            if str_eq(self.message_map[i].0.as_str(), m) {
                proof {
                    assert(self.map_keys()[i as int] == m@);
                    assert(first_idx(self.map_keys(), m@) == i as int);
                }
                return Some(&self.message_map[i].1);
            }
            i = i + 1;
        }
        proof {
            assert(!self.map_keys().contains(m@));
        }
        None
    }

    /// A copy with the same rules.
    pub fn duplicate(&self) -> (r: Self)
        ensures
            same_config(r, *self),
    {
        let mut map: Vec<(String, String)> = Vec::new();
        let n = self.message_map.len();
        let mut i: usize = 0;
        while i < n
            invariant
                i <= n,
                n == self.message_map@.len(),
                map@ =~= self.message_map@.take(i as int),
            decreases n - i,
        {
            map.push((self.message_map[i].0.clone(), self.message_map[i].1.clone()));
            i = i + 1;
        }
        proof {
            assert(map@ =~= self.message_map@);
        }
        let auth = self.authorized_messages.clone();
        proof {
            assert(auth@ =~= self.authorized_messages@);
        }
        RoomConfig {
            prefix: self.prefix.clone(),
            kind: self.kind.duplicate(),
            authorized_messages: auth,
            message_map: map,
        }
    }
}

/// The mapping from room name to configuration, keyed by `prefix`.
/// Lookup takes the first configuration whose prefix matches.
pub struct ConfigMap {
    pub rooms: Vec<RoomConfig>,
}

impl ConfigMap {
    /// The room names, in order.
    pub open spec fn keys(self) -> Seq<Seq<char>> {
        self.rooms@.map_values(|c: RoomConfig| c.prefix@)
    }

    pub open spec fn spec_has(self, k: Seq<char>) -> bool {
        self.keys().contains(k)
    }

    /// The configuration under name `k`.
    pub open spec fn spec_get(self, k: Seq<char>) -> RoomConfig {
        self.rooms@[first_idx(self.keys(), k)]
    }

    pub fn new() -> (r: Self)
        ensures
            r.rooms@.len() == 0,
    {
        ConfigMap { rooms: Vec::new() }
    }

    /// Add a configuration; a configuration already present under the same
    /// name is replaced.
    pub fn insert(&mut self, conf: RoomConfig)
        ensures
            final(self).spec_has(conf.prefix@),
            final(self).spec_get(conf.prefix@) == conf,
            forall|k: Seq<char>| k != conf.prefix@ ==> #[trigger] final(self).spec_has(k)
                == old(self).spec_has(k),
            forall|k: Seq<char>|
                k != conf.prefix@ && old(self).spec_has(k) ==> #[trigger] final(self).spec_get(k)
                    == old(self).spec_get(k),
    {
        let ghost p = conf.prefix@;
        let n = self.rooms.len();
        let mut i: usize = 0;
        while i < n
            invariant
                i <= n,
                n == self.rooms@.len(),
                forall|j: int| 0 <= j < i ==> self.keys()[j] != p,
                p == conf.prefix@,
                *self == *old(self),
            decreases n - i,
        {
            if str_eq(self.rooms[i].prefix.as_str(), conf.prefix.as_str()) {
                proof {
                    assert(self.keys()[i as int] == p);
                }
                let ghost before = *self;
                self.rooms.set(i, conf);
                proof {
                    lemma_insert_at(before, *self, conf, i as int);
                }
                return;
            }
            i = i + 1;
        }
        let ghost before = *self;
        self.rooms.push(conf);
        proof {
            lemma_insert_push(before, *self, conf);
        }
    }

    /// Look a room name up.
    pub fn get(&self, name: &str) -> (r: Option<&RoomConfig>)
        ensures
            r is Some <==> self.spec_has(name@),
            r is Some ==> *r->Some_0 == self.spec_get(name@),
    {
        let n = self.rooms.len();
        let mut i: usize = 0;
        while i < n
            invariant
                i <= n,
                n == self.rooms@.len(),
                forall|j: int| 0 <= j < i ==> self.keys()[j] != name@,
            decreases n - i,
        {
            if str_eq(self.rooms[i].prefix.as_str(), name) {
                proof {
                    assert(self.keys()[i as int] == name@);
                    assert(first_idx(self.keys(), name@) == i as int);
                }
                return Some(&self.rooms[i]);
            }
            i = i + 1;
        }
        proof {
            assert(!self.keys().contains(name@));
        }
        None
    }
}

proof fn lemma_insert_at(before: ConfigMap, after: ConfigMap, conf: RoomConfig, i: int)
    requires
        0 <= i < before.rooms@.len(),
        forall|j: int| 0 <= j < i ==> before.keys()[j] != conf.prefix@,
        before.keys()[i] == conf.prefix@,
        after.rooms@ == before.rooms@.update(i, conf),
    ensures
        after.spec_has(conf.prefix@),
        after.spec_get(conf.prefix@) == conf,
        forall|k: Seq<char>|
            k != conf.prefix@ ==> #[trigger] after.spec_has(k) == before.spec_has(k),
        forall|k: Seq<char>|
            k != conf.prefix@ && before.spec_has(k) ==> #[trigger] after.spec_get(k)
                == before.spec_get(k),
{
    assert forall|j: int| 0 <= j < after.keys().len() implies #[trigger] after.keys()[j] == (
    if j == i {
        conf.prefix@
    } else {
        before.keys()[j]
    }) by {
        assert(after.rooms@[j] == if j == i {
            conf
        } else {
            before.rooms@[j]
        });
    }
    assert(after.keys()[i] == conf.prefix@);
    assert(after.spec_has(conf.prefix@));
    assert(first_idx(after.keys(), conf.prefix@) == i);
    assert forall|k: Seq<char>| k != conf.prefix@ implies #[trigger] after.spec_has(k)
        == before.spec_has(k) by {
        if before.spec_has(k) {
            let w = choose|j: int| 0 <= j < before.keys().len() && before.keys()[j] == k;
            assert(after.keys()[w] == k);
        }
        if after.spec_has(k) {
            let w = choose|j: int| 0 <= j < after.keys().len() && after.keys()[j] == k;
            assert(before.keys()[w] == k);
        }
    }
    assert forall|k: Seq<char>| k != conf.prefix@ && before.spec_has(k) implies #[trigger] after
        .spec_get(k) == before.spec_get(k) by {
        let a = first_idx(before.keys(), k);
        assert(0 <= a < before.keys().len() && before.keys()[a] == k);
        assert(a != i);
        assert(after.keys()[a] == k);
        let b = first_idx(after.keys(), k);
        assert(after.keys()[b] == k);
        assert(b != i);
        assert(before.keys()[b] == k);
        assert(a == b);
        assert(after.rooms@[b] == before.rooms@[b]);
    }
}

proof fn lemma_insert_push(before: ConfigMap, after: ConfigMap, conf: RoomConfig)
    requires
        forall|j: int| 0 <= j < before.rooms@.len() ==> before.keys()[j] != conf.prefix@,
        after.rooms@ == before.rooms@.push(conf),
    ensures
        after.spec_has(conf.prefix@),
        after.spec_get(conf.prefix@) == conf,
        forall|k: Seq<char>|
            k != conf.prefix@ ==> #[trigger] after.spec_has(k) == before.spec_has(k),
        forall|k: Seq<char>|
            k != conf.prefix@ && before.spec_has(k) ==> #[trigger] after.spec_get(k)
                == before.spec_get(k),
{
    let n = before.rooms@.len() as int;
    assert forall|j: int| 0 <= j < after.keys().len() implies #[trigger] after.keys()[j] == (
    if j == n {
        conf.prefix@
    } else {
        before.keys()[j]
    }) by {
        assert(after.rooms@[j] == if j == n {
            conf
        } else {
            before.rooms@[j]
        });
    }
    assert(after.keys()[n] == conf.prefix@);
    assert(after.spec_has(conf.prefix@));
    assert(first_idx(after.keys(), conf.prefix@) == n);
    assert forall|k: Seq<char>| k != conf.prefix@ implies #[trigger] after.spec_has(k)
        == before.spec_has(k) by {
        if before.spec_has(k) {
            let w = choose|j: int| 0 <= j < before.keys().len() && before.keys()[j] == k;
            assert(after.keys()[w] == k);
        }
        if after.spec_has(k) {
            let w = choose|j: int| 0 <= j < after.keys().len() && after.keys()[j] == k;
            assert(w != n);
            assert(before.keys()[w] == k);
        }
    }
    assert forall|k: Seq<char>| k != conf.prefix@ && before.spec_has(k) implies #[trigger] after
        .spec_get(k) == before.spec_get(k) by {
        let a = first_idx(before.keys(), k);
        assert(0 <= a < before.keys().len() && before.keys()[a] == k);
        assert(after.keys()[a] == k);
        let b = first_idx(after.keys(), k);
        assert(after.keys()[b] == k);
        assert(b != n);
        assert(before.keys()[b] == k);
        assert(a == b);
        assert(after.rooms@[b] == before.rooms@[b]);
    }
}

/// Build a room configuration from the plain values of a configuration
/// record: `prefix`, the kind tag, the remote-check URL, the authorized
/// payloads and the rewrite map. A missing prefix falls back to "none";
/// a missing or unknown kind tag, or a group/individual kind without a
/// URL, yields nothing.
pub fn build_room_config(
    prefix: Option<String>,
    kind: Option<String>,
    fetch_url: Option<String>,
    authorized: Vec<String>,
    map: Vec<(String, String)>,
) -> (r: Option<RoomConfig>)
    ensures
        r is Some <==> (kind matches Some(k) && (k@ == "broadcast"@ || ((k@ == "group"@ || k@
            == "individual"@) && fetch_url is Some))),
        r matches Some(c) ==> {
            &&& (match prefix {
                Some(p) => c.prefix == p,
                None => c.prefix@ == "none"@,
            })
            &&& c.authorized_messages == authorized
            &&& c.message_map == map
            &&& (kind->Some_0@ == "broadcast"@ ==> c.kind is Broadcast)
            &&& (kind->Some_0@ == "group"@ ==> c.kind == RoomKind::Group(fetch_url->Some_0))
            &&& (kind->Some_0@ == "individual"@ ==> c.kind == RoomKind::Individual(
                fetch_url->Some_0,
            ))
        },
{
    proof {
        reveal_strlit("broadcast");
        reveal_strlit("group");
        reveal_strlit("individual");
        assert("broadcast"@.len() == 9);
        assert("group"@.len() == 5);
        assert("individual"@.len() == 10);
    }
    let k = match kind {
        Some(k) => k,
        None => {
            return None;
        },
    };
    let p = match prefix {
        Some(p) => p,
        None => "none".to_owned(),
    };
    if str_eq(k.as_str(), "broadcast") {
        Some(
            RoomConfig {
                prefix: p,
                kind: RoomKind::Broadcast,
                authorized_messages: authorized,
                message_map: map,
            },
        )
    } else if str_eq(k.as_str(), "group") {
        match fetch_url {
            Some(url) => Some(
                RoomConfig {
                    prefix: p,
                    kind: RoomKind::Group(url),
                    authorized_messages: authorized,
                    message_map: map,
                },
            ),
            None => None,
        }
    } else if str_eq(k.as_str(), "individual") {
        match fetch_url {
            Some(url) => Some(
                RoomConfig {
                    prefix: p,
                    kind: RoomKind::Individual(url),
                    authorized_messages: authorized,
                    message_map: map,
                },
            ),
            None => None,
        }
    } else {
        None
    }
}

} // verus!
