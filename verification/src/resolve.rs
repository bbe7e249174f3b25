//! The room/group address resolver: parse an address string into a
//! validated room/group identity against the configuration.

use vstd::prelude::*;

use crate::config::{ConfigMap, RoomKind};
use crate::text::{find_char, find_char_in, lemma_find_char};

verus! {

broadcast use crate::assoc::lemma_first_idx;

/// Why an address failed to resolve.
#[derive(Clone, Copy, Debug, PartialEq, Eq, Structural)]
pub enum ResolveError {
    /// More than two segments.
    MalformedAddress,
    /// The room is not configured.
    UnknownRoom,
    /// A bare name addressed a non-broadcast room.
    GroupSuffixRequired,
    /// A broadcast room does not accept a group suffix.
    BroadcastRoomNoGroup,
}

/// A validated room/group identity, produced fresh by resolution.
pub struct RoomGroup {
    /// The canonical registry key: the bare room name for broadcast rooms,
    /// `"room/group"` otherwise.
    pub full_roomgroup: String,
    /// The configuration key of the room.
    pub room: String,
    /// The group suffix, absent for broadcast rooms.
    pub group: Option<String>,
    /// The remote-check base URL, carried only for non-broadcast kinds.
    pub fetch_url: Option<String>,
}

/// The mathematical content of a `RoomGroup`.
#[verifier::ext_equal]
pub ghost struct RgModel {
    pub full: Seq<char>,
    pub room: Seq<char>,
    pub group: Option<Seq<char>>,
    pub url: Option<Seq<char>>,
}

impl View for RoomGroup {
    type V = RgModel;

    open spec fn view(&self) -> RgModel {
        RgModel {
            full: self.full_roomgroup@,
            room: self.room@,
            group: match self.group {
                Some(g) => Some(g@),
                None => None,
            },
            url: match self.fetch_url {
                Some(u) => Some(u@),
                None => None,
            },
        }
    }
}

impl RoomGroup {
    /// A copy with the same identity.
    pub fn duplicate(&self) -> (r: Self)
        ensures
            r@ == self@,
    {
        RoomGroup {
            full_roomgroup: self.full_roomgroup.clone(),
            room: self.room.clone(),
            group: match &self.group {
                Some(g) => Some(g.clone()),
                None => None,
            },
            fetch_url: match &self.fetch_url {
                Some(u) => Some(u.clone()),
                None => None,
            },
        }
    }
}

/// What resolving address `n` against configuration `cm` yields.
///
/// A bare name must be a configured broadcast room; `"room/group"` must
/// name a configured non-broadcast room; more than two segments fail.
pub open spec fn spec_resolve(cm: ConfigMap, n: Seq<char>) -> Result<RgModel, ResolveError> {
    let i = find_char(n, '/');
    if i < 0 {
        if !cm.spec_has(n) {
            Err(ResolveError::UnknownRoom)
        } else if cm.spec_get(n).kind is Broadcast {
            Ok(RgModel { full: n, room: n, group: None, url: None })
        } else {
            Err(ResolveError::GroupSuffixRequired)
        }
    } else {
        let room = n.subrange(0, i);
        let rest = n.subrange(i + 1, n.len() as int);
        if find_char(rest, '/') >= 0 {
            Err(ResolveError::MalformedAddress)
        } else if !cm.spec_has(room) {
            Err(ResolveError::UnknownRoom)
        } else {
            match cm.spec_get(room).kind {
                RoomKind::Broadcast => Err(ResolveError::BroadcastRoomNoGroup),
                RoomKind::Group(u) => Ok(
                    RgModel { full: n, room: room, group: Some(rest), url: Some(u@) },
                ),
                RoomKind::Individual(u) => Ok(
                    RgModel { full: n, room: room, group: Some(rest), url: Some(u@) },
                ),
            }
        }
    }
}

/// The model of a resolution result.
pub open spec fn res_view(r: Result<RoomGroup, ResolveError>) -> Result<RgModel, ResolveError> {
    match r {
        Ok(rg) => Ok(rg@),
        Err(e) => Err(e),
    }
}

/// Resolve an address string into a room/group identity.
///
/// Pure: a function of the configuration and the address alone.
pub fn str_to_roomgroup(confs: &ConfigMap, name: &str) -> (r: Result<RoomGroup, ResolveError>)
    ensures
        res_view(r) == spec_resolve(*confs, name@),
{
    proof {
        lemma_find_char(name@, '/');
    }
    let n_len = name.unicode_len();
    match find_char_in(name, '/') {
        None => {
            match confs.get(name) {
                None => Err(ResolveError::UnknownRoom),
                Some(conf) => {
                    if conf.kind.is_broadcast() {
                        let rg = RoomGroup {
                            full_roomgroup: name.to_owned(),
                            room: name.to_owned(),
                            group: None,
                            fetch_url: None,
                        };
                        Ok(rg)
                    } else {
                        Err(ResolveError::GroupSuffixRequired)
                    }
                },
            }
        },
        Some(i) => {
            let rest = name.substring_char(i + 1, n_len);
            if find_char_in(rest, '/').is_some() {
                return Err(ResolveError::MalformedAddress);
            }
            let room = name.substring_char(0, i);
            match confs.get(room) {
                None => Err(ResolveError::UnknownRoom),
                Some(conf) => {
                    match &conf.kind {
                        RoomKind::Broadcast => Err(ResolveError::BroadcastRoomNoGroup),
                        RoomKind::Group(url) => {
                            let rg = RoomGroup {
                                full_roomgroup: name.to_owned(),
                                room: room.to_owned(),
                                group: Some(rest.to_owned()),
                                fetch_url: Some(url.clone()),
                            };
                            Ok(rg)
                        },
                        RoomKind::Individual(url) => {
                            let rg = RoomGroup {
                                full_roomgroup: name.to_owned(),
                                room: room.to_owned(),
                                group: Some(rest.to_owned()),
                                fetch_url: Some(url.clone()),
                            };
                            Ok(rg)
                        },
                    }
                },
            }
        },
    }
}

/// Splitting `r + "/" + x` at the first separator recovers `r` and `x`,
/// when `r` itself is separator-free.
proof fn lemma_split_concat(r: Seq<char>, x: Seq<char>)
    requires
        find_char(r, '/') == -1,
    ensures
        find_char(r + seq!['/'] + x, '/') == r.len(),
        (r + seq!['/'] + x).subrange(0, r.len() as int) == r,
        (r + seq!['/'] + x).subrange(r.len() as int + 1, (r + seq!['/'] + x).len() as int) == x,
{
    let n = r + seq!['/'] + x;
    lemma_find_char(r, '/');
    lemma_find_char(n, '/');
    assert(n[r.len() as int] == '/');
    assert(n.contains('/')) by {
        assert(0 <= r.len() < n.len());
    }
    let fc = find_char(n, '/');
    if fc == -1 {
        assert(n[r.len() as int] != '/');
        assert(false);
    }
    assert forall|j: int| 0 <= j < r.len() implies n[j] != '/' by {
        assert(n[j] == r[j]);
    }
    assert(fc == r.len());
    assert(n.subrange(0, r.len() as int) =~= r);
    assert(n.subrange(r.len() as int + 1, n.len() as int) =~= x);
}

/// For every configured broadcast room `R` (separator-free, as room names
/// are), resolving `"R"` succeeds with no group and no URL, and resolving
/// `"R/x"` fails: a broadcast room rejects any group suffix.
pub proof fn lemma_resolve_broadcast_room(cm: ConfigMap, r: Seq<char>, x: Seq<char>)
    requires
        cm.spec_has(r),
        cm.spec_get(r).kind is Broadcast,
        find_char(r, '/') == -1,
        find_char(x, '/') == -1,
    ensures
        spec_resolve(cm, r) == Ok::<RgModel, ResolveError>(
            RgModel { full: r, room: r, group: None, url: None },
        ),
        spec_resolve(cm, r + seq!['/'] + x) == Err::<RgModel, ResolveError>(
            ResolveError::BroadcastRoomNoGroup,
        ),
{
    lemma_split_concat(r, x);
}

/// For every configured non-broadcast room `R`, resolving the bare name
/// `"R"` fails: a group suffix is required.
pub proof fn lemma_resolve_group_room_bare(cm: ConfigMap, r: Seq<char>)
    requires
        cm.spec_has(r),
        !(cm.spec_get(r).kind is Broadcast),
        find_char(r, '/') == -1,
    ensures
        spec_resolve(cm, r) == Err::<RgModel, ResolveError>(ResolveError::GroupSuffixRequired),
{
}

/// Round trip: encoding a room and a group as `"room/group"` and resolving
/// the result always yields an identity whose full name is exactly
/// `"room/group"`, with the room's remote-check URL, for any configured
/// group/individual room.
pub proof fn lemma_encode_resolve_round_trip(cm: ConfigMap, r: Seq<char>, g: Seq<char>)
    requires
        cm.spec_has(r),
        !(cm.spec_get(r).kind is Broadcast),
        find_char(r, '/') == -1,
        find_char(g, '/') == -1,
    ensures
        spec_resolve(cm, r + seq!['/'] + g) == Ok::<RgModel, ResolveError>(
            RgModel {
                full: r + seq!['/'] + g,
                room: r,
                group: Some(g),
                url: cm.spec_get(r).kind.spec_url(),
            },
        ),
{
    lemma_split_concat(r, g);
}

} // verus!

