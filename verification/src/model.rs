//! The mathematical model of the membership registry: two indexes
//! (room/group name to member ids, client id to room/group names) plus
//! the pending admission checks, with the transition functions that the
//! registry's operations implement and the laws they obey.

use vstd::prelude::*;

use crate::assoc::{distinct, first_idx, lemma_first_idx};

verus! {

broadcast use lemma_first_idx;

/// The outcome of a join attempt.
#[derive(Clone, Copy, Debug, PartialEq, Eq, Structural)]
pub enum JoinOutcome {
    /// The client already belongs to the room/group; nothing changed.
    AlreadyMember,
    /// The client was admitted into an existing or newly created entry.
    Joined,
    /// An admission check for this name is in flight; the client waits
    /// with it.
    Pending,
    /// The caller must run the remote existence check for this name and
    /// resolve the admission; the client waits meanwhile.
    NeedsRemoteCheck,
    /// The identity carries no group or URL to check; nobody is admitted.
    Rejected,
}

/// The keys of an association sequence.
pub open spec fn keys_of<K, V>(s: Seq<(K, V)>) -> Seq<K> {
    s.map_values(|p: (K, V)| p.0)
}

/// The state of the membership registry.
#[verifier::ext_equal]
pub ghost struct RegModel {
    /// Room/group name to the ids of its current members, in join order.
    pub rooms: Seq<(Seq<char>, Seq<u64>)>,
    /// Names whose first admission check is in flight, each with the ids
    /// waiting on it.
    pub pending: Seq<(Seq<char>, Seq<u64>)>,
    /// Client id to the room/group names it belongs to.
    pub clients: Seq<(u64, Seq<Seq<char>>)>,
}

impl RegModel {
    pub open spec fn empty() -> RegModel {
        RegModel { rooms: Seq::empty(), pending: Seq::empty(), clients: Seq::empty() }
    }

    pub open spec fn has_room(self, f: Seq<char>) -> bool {
        keys_of(self.rooms).contains(f)
    }

    pub open spec fn room_idx(self, f: Seq<char>) -> int {
        first_idx(keys_of(self.rooms), f)
    }

    /// The member ids of room/group `f` (meaningful when `has_room(f)`).
    pub open spec fn members(self, f: Seq<char>) -> Seq<u64> {
        self.rooms[self.room_idx(f)].1
    }

    pub open spec fn has_pending(self, f: Seq<char>) -> bool {
        keys_of(self.pending).contains(f)
    }

    pub open spec fn pend_idx(self, f: Seq<char>) -> int {
        first_idx(keys_of(self.pending), f)
    }

    /// The ids waiting on the in-flight check for `f`.
    pub open spec fn waiters(self, f: Seq<char>) -> Seq<u64> {
        self.pending[self.pend_idx(f)].1
    }

    pub open spec fn has_client(self, id: u64) -> bool {
        keys_of(self.clients).contains(id)
    }

    pub open spec fn client_idx(self, id: u64) -> int {
        first_idx(keys_of(self.clients), id)
    }

    /// The room/group names client `id` belongs to.
    pub open spec fn rooms_of(self, id: u64) -> Seq<Seq<char>> {
        self.clients[self.client_idx(id)].1
    }

    /// Well-formedness: unique keys everywhere, no empty room entry, no
    /// duplicate members, the two indexes mutually consistent, pending
    /// names disjoint from room names, and every waiter known.
    pub open spec fn wf(self) -> bool {
        &&& distinct(keys_of(self.rooms))
        &&& distinct(keys_of(self.pending))
        &&& distinct(keys_of(self.clients))
        &&& forall|i: int|
            0 <= i < self.rooms.len() ==> (#[trigger] self.rooms[i]).1.len() > 0
        &&& forall|i: int| 0 <= i < self.rooms.len() ==> distinct((#[trigger] self.rooms[i]).1)
        &&& forall|i: int|
            0 <= i < self.pending.len() ==> distinct((#[trigger] self.pending[i]).1)
        &&& forall|i: int|
            0 <= i < self.clients.len() ==> distinct((#[trigger] self.clients[i]).1)
        &&& forall|i: int|
            0 <= i < self.pending.len() ==> !self.has_room((#[trigger] self.pending[i]).0)
        &&& forall|i: int, j: int|
            0 <= i < self.rooms.len() && 0 <= j < self.rooms[i].1.len() ==> self.links(
                self.rooms[i].0,
                #[trigger] self.rooms[i].1[j],
            )
        &&& forall|i: int, j: int|
            0 <= i < self.clients.len() && 0 <= j < self.clients[i].1.len() ==> self.backs(
                #[trigger] self.clients[i].1[j],
                self.clients[i].0,
            )
        &&& forall|i: int, j: int|
            0 <= i < self.pending.len() && 0 <= j < self.pending[i].1.len() ==> self.has_client(
                #[trigger] self.pending[i].1[j],
            )
    }

    /// Member `id` of room `f` is a known client that lists `f`.
    pub open spec fn links(self, f: Seq<char>, id: u64) -> bool {
        &&& self.has_client(id)
        &&& self.rooms_of(id).contains(f)
    }

    /// Name `f` listed by client `id` names a room containing `id`.
    pub open spec fn backs(self, f: Seq<char>, id: u64) -> bool {
        &&& self.has_room(f)
        &&& self.members(f).contains(id)
    }
}

/// Under unique keys, the row at index `i` is the row its key finds.
pub proof fn lemma_first_idx_of_key<K, V>(s: Seq<(K, V)>, i: int)
    requires
        distinct(keys_of(s)),
        0 <= i < s.len(),
    ensures
        first_idx(keys_of(s), s[i].0) == i,
{
    let ks = keys_of(s);
    assert(ks[i] == s[i].0);
    assert(ks.contains(s[i].0));
    let r = first_idx(ks, s[i].0);
    assert(0 <= r < ks.len() && ks[r] == s[i].0);
    if r != i {
        assert(ks[r] == ks[i]);
    }
}

/// The registry with client `id` known: its entry is created empty on
/// first contact, independent of any join outcome.
pub open spec fn with_client(m: RegModel, id: u64) -> RegModel {
    if m.has_client(id) {
        m
    } else {
        RegModel {
            rooms: m.rooms,
            pending: m.pending,
            clients: m.clients.push((id, Seq::empty())),
        }
    }
}

/// Add `id` to room `f`'s member set and `f` to `id`'s list; meaningful
/// when the room and the client entry both exist and `id` is no member.
pub open spec fn add_member(m: RegModel, f: Seq<char>, id: u64) -> RegModel {
    RegModel {
        rooms: m.rooms.update(m.room_idx(f), (f, m.members(f).push(id))),
        pending: m.pending,
        clients: m.clients.update(m.client_idx(id), (id, m.rooms_of(id).push(f))),
    }
}

/// Add `id` as a waiter on the in-flight check for `f`.
pub open spec fn add_waiter(m: RegModel, f: Seq<char>, id: u64) -> RegModel {
    RegModel {
        rooms: m.rooms,
        pending: m.pending.update(m.pend_idx(f), (f, m.waiters(f).push(id))),
        clients: m.clients,
    }
}

/// Create the entry for `f` with `id` as its sole member.
pub open spec fn create_room(m: RegModel, f: Seq<char>, id: u64) -> RegModel {
    RegModel {
        rooms: m.rooms.push((f, seq![id])),
        pending: m.pending,
        clients: m.clients.update(m.client_idx(id), (id, m.rooms_of(id).push(f))),
    }
}

/// Open the pending marker for `f` with `id` as its sole waiter.
pub open spec fn open_pending(m: RegModel, f: Seq<char>, id: u64) -> RegModel {
    RegModel { rooms: m.rooms, pending: m.pending.push((f, seq![id])), clients: m.clients }
}

/// The registry after a join attempt by client `id` for full name `f`,
/// where `broadcast` says whether the room's kind is broadcast and
/// `has_url` whether the identity carries a group and a check URL.
///
/// An existing entry is reused without any admission check; a name with
/// a check in flight collects the client as a waiter; a broadcast name
/// is created at once; otherwise a pending marker is opened and the
/// caller must run the remote check.
pub open spec fn join_state(
    m: RegModel,
    broadcast: bool,
    has_url: bool,
    f: Seq<char>,
    id: u64,
) -> RegModel {
    let m1 = with_client(m, id);
    if m.has_room(f) {
        if m.members(f).contains(id) {
            m1
        } else {
            add_member(m1, f, id)
        }
    } else if m.has_pending(f) {
        if m.waiters(f).contains(id) {
            m1
        } else {
            add_waiter(m1, f, id)
        }
    } else if broadcast {
        create_room(m1, f, id)
    } else if has_url {
        open_pending(m1, f, id)
    } else {
        m1
    }
}

/// Ensuring the client entry keeps the registry well-formed and leaves
/// everything but the clients index untouched.
pub proof fn lemma_with_client_wf(m: RegModel, id: u64)
    requires
        m.wf(),
    ensures
        with_client(m, id).wf(),
        with_client(m, id).has_client(id),
        with_client(m, id).rooms == m.rooms,
        with_client(m, id).pending == m.pending,
        forall|x: u64| #[trigger]
            with_client(m, id).has_client(x) <==> (m.has_client(x) || x == id),
        forall|x: u64|
            m.has_client(x) ==> #[trigger] with_client(m, id).rooms_of(x) == m.rooms_of(x),
        !m.has_client(id) ==> with_client(m, id).rooms_of(id) == Seq::<Seq<char>>::empty()
            && with_client(m, id).client_idx(id) == m.clients.len(),
{
    broadcast use crate::assoc::lemma_first_idx;

    let m2 = with_client(m, id);
    if m.has_client(id) {
        assert(m2 == m);
    } else {
        let ks = keys_of(m.clients);
        let ks2 = keys_of(m2.clients);
        assert(ks2 =~= ks.push(id));
        assert forall|x: u64| #[trigger] m2.has_client(x) <==> (m.has_client(x) || x == id) by {
            crate::assoc::lemma_first_idx_push(ks, id, x);
            if ks2.contains(x) {
                assert(first_idx(ks2, x) != -1) by {
                    crate::assoc::lemma_first_idx(ks2, x);
                }
            }
            if ks.contains(x) || x == id {
                if x == id {
                    assert(ks2[m.clients.len() as int] == x);
                } else {
                    let w = choose|i: int| 0 <= i < ks.len() && ks[i] == x;
                    assert(ks2[w] == x);
                }
            }
        }
        assert forall|x: u64| m.has_client(x) implies #[trigger] m2.rooms_of(x)
            == m.rooms_of(x) by {
            crate::assoc::lemma_first_idx_push(ks, id, x);
            crate::assoc::lemma_first_idx(ks, x);
            let fi = first_idx(ks, x);
            assert(m2.clients[fi] == m.clients[fi]);
        }
        assert(!ks.contains(id));
        crate::assoc::lemma_first_idx_push(ks, id, id);
        assert(m2.client_idx(id) == m.clients.len());
        assert(m2.rooms_of(id) == Seq::<Seq<char>>::empty());
        // Well-formedness.
        assert(distinct(ks2)) by {
            assert forall|i: int, j: int| 0 <= i < j < ks2.len() implies ks2[i] != ks2[j] by {
                if j < ks.len() {
                    assert(ks[i] == ks2[i] && ks[j] == ks2[j]);
                } else {
                    assert(ks2[j] == id);
                    assert(ks[i] == ks2[i]);
                    assert(ks.contains(ks2[i]));
                }
            }
        }
        assert forall|i: int| 0 <= i < m2.clients.len() implies distinct(
            (#[trigger] m2.clients[i]).1,
        ) by {
            if i < m.clients.len() {
                assert(m2.clients[i] == m.clients[i]);
            } else {
                assert(m2.clients[i].1 =~= Seq::<Seq<char>>::empty());
            }
        }
        assert forall|i: int, j: int|
            0 <= i < m2.rooms.len() && 0 <= j < m2.rooms[i].1.len() implies m2.links(
            m2.rooms[i].0,
            #[trigger] m2.rooms[i].1[j],
        ) by {
            assert(m.links(m.rooms[i].0, m.rooms[i].1[j]));
        }
        assert forall|i: int, j: int|
            0 <= i < m2.clients.len() && 0 <= j < m2.clients[i].1.len() implies m2.backs(
            #[trigger] m2.clients[i].1[j],
            m2.clients[i].0,
        ) by {
            if i < m.clients.len() {
                assert(m2.clients[i] == m.clients[i]);
                assert(m.backs(m.clients[i].1[j], m.clients[i].0));
            } else {
                assert(m2.clients[i].1.len() == 0);
            }
        }
        assert forall|i: int, j: int|
            0 <= i < m2.pending.len() && 0 <= j < m2.pending[i].1.len() implies m2.has_client(
            #[trigger] m2.pending[i].1[j],
        ) by {
            assert(m.has_client(m.pending[i].1[j]));
        }
    }
}

/// The outcome reported for the join attempt of `join_state`.
pub open spec fn join_outcome(
    m: RegModel,
    broadcast: bool,
    has_url: bool,
    f: Seq<char>,
    id: u64,
) -> JoinOutcome {
    if m.has_room(f) {
        if m.members(f).contains(id) {
            JoinOutcome::AlreadyMember
        } else {
            JoinOutcome::Joined
        }
    } else if m.has_pending(f) {
        JoinOutcome::Pending
    } else if broadcast {
        JoinOutcome::Joined
    } else if has_url {
        JoinOutcome::NeedsRemoteCheck
    } else {
        JoinOutcome::Rejected
    }
}

/// Adding a member to an existing room entry keeps the registry
/// well-formed, and touches nothing else.
pub proof fn lemma_add_member_wf(m: RegModel, f: Seq<char>, id: u64)
    requires
        m.wf(),
        m.has_room(f),
        !m.members(f).contains(id),
        m.has_client(id),
    ensures
        add_member(m, f, id).wf(),
        add_member(m, f, id).pending == m.pending,
        forall|g: Seq<char>| #[trigger] add_member(m, f, id).has_room(g) == m.has_room(g),
        add_member(m, f, id).members(f) == m.members(f).push(id),
        forall|g: Seq<char>|
            g != f && m.has_room(g) ==> #[trigger] add_member(m, f, id).members(g) == m.members(
                g,
            ),
        forall|x: u64| #[trigger] add_member(m, f, id).has_client(x) == m.has_client(x),
        add_member(m, f, id).rooms_of(id) == m.rooms_of(id).push(f),
        forall|x: u64|
            x != id && m.has_client(x) ==> #[trigger] add_member(m, f, id).rooms_of(x)
                == m.rooms_of(x),
        forall|g: Seq<char>| #[trigger] add_member(m, f, id).has_pending(g) == m.has_pending(g),
        forall|g: Seq<char>|
            m.has_pending(g) ==> #[trigger] add_member(m, f, id).waiters(g) == m.waiters(g),
{
    broadcast use crate::assoc::lemma_first_idx;

    let m2 = add_member(m, f, id);
    let ri = m.room_idx(f);
    let ci = m.client_idx(id);
    assert(0 <= ri < m.rooms.len() && keys_of(m.rooms)[ri] == f);
    assert(0 <= ci < m.clients.len() && keys_of(m.clients)[ci] == id);
    assert(m.rooms[ri].0 == f);
    assert(m.clients[ci].0 == id);
    assert(keys_of(m2.rooms) =~= keys_of(m.rooms));
    assert(keys_of(m2.clients) =~= keys_of(m.clients));
    assert(m2.room_idx(f) == ri);
    assert(m2.rooms[ri].1 == m.members(f).push(id));
    assert(m2.client_idx(id) == ci);
    assert(m2.clients[ci].1 == m.rooms_of(id).push(f));
    assert forall|g: Seq<char>| g != f && m.has_room(g) implies #[trigger] m2.members(g)
        == m.members(g) by {
        let gi = first_idx(keys_of(m.rooms), g);
        assert(0 <= gi < m.rooms.len() && keys_of(m.rooms)[gi] == g);
        assert(gi != ri);
        assert(m2.rooms[gi] == m.rooms[gi]);
    }
    assert forall|x: u64| x != id && m.has_client(x) implies #[trigger] m2.rooms_of(x)
        == m.rooms_of(x) by {
        let xi = first_idx(keys_of(m.clients), x);
        assert(0 <= xi < m.clients.len() && keys_of(m.clients)[xi] == x);
        assert(xi != ci);
        assert(m2.clients[xi] == m.clients[xi]);
    }
    // The new name is no duplicate in the client's list.
    assert(!m.rooms_of(id).contains(f)) by {
        if m.rooms_of(id).contains(f) {
            let w = choose|t: int|
                0 <= t < m.clients[ci].1.len() && m.clients[ci].1[t] == f;
            assert(m.backs(m.clients[ci].1[w], m.clients[ci].0));
        }
    }
    // Well-formedness clause by clause.
    assert forall|i: int| 0 <= i < m2.rooms.len() implies (#[trigger] m2.rooms[i]).1.len() > 0
        && distinct(m2.rooms[i].1) by {
        if i != ri {
            assert(m2.rooms[i] == m.rooms[i]);
        } else {
            let ms = m.members(f);
            assert(distinct(ms));
            assert forall|a: int, b: int|
                0 <= a < b < ms.push(id).len() implies ms.push(id)[a] != ms.push(id)[b] by {
                if b < ms.len() {
                } else {
                    assert(ms.push(id)[b] == id);
                    assert(ms.contains(ms[a]));
                }
            }
        }
    }
    assert forall|i: int| 0 <= i < m2.clients.len() implies distinct(
        (#[trigger] m2.clients[i]).1,
    ) by {
        if i != ci {
            assert(m2.clients[i] == m.clients[i]);
        } else {
            let ns = m.rooms_of(id);
            assert(distinct(ns));
            assert forall|a: int, b: int|
                0 <= a < b < ns.push(f).len() implies ns.push(f)[a] != ns.push(f)[b] by {
                if b < ns.len() {
                } else {
                    assert(ns.push(f)[b] == f);
                    assert(ns.contains(ns[a]));
                }
            }
        }
    }
    assert forall|i: int| 0 <= i < m2.pending.len() implies !m2.has_room(
        (#[trigger] m2.pending[i]).0,
    ) by {
        assert(!m.has_room(m.pending[i].0));
    }
    assert forall|i: int, j: int|
        0 <= i < m2.rooms.len() && 0 <= j < m2.rooms[i].1.len() implies m2.links(
        m2.rooms[i].0,
        #[trigger] m2.rooms[i].1[j],
    ) by {
        let g = m2.rooms[i].0;
        let x = m2.rooms[i].1[j];
        assert(g == m.rooms[i].0);
        if i == ri && j == m.members(f).len() {
            assert(x == id);
            assert(m2.rooms_of(id).contains(f)) by {
                assert(m2.rooms_of(id)[m.rooms_of(id).len() as int] == f);
            }
        } else {
            assert(x == m.rooms[i].1[j]);
            assert(m.links(g, x));
            if x == id {
                assert(m2.rooms_of(id).contains(g)) by {
                    let w = choose|t: int|
                        0 <= t < m.rooms_of(id).len() && m.rooms_of(id)[t] == g;
                    assert(m2.rooms_of(id)[w] == g);
                }
            }
        }
    }
    assert forall|i: int, j: int|
        0 <= i < m2.clients.len() && 0 <= j < m2.clients[i].1.len() implies m2.backs(
        #[trigger] m2.clients[i].1[j],
        m2.clients[i].0,
    ) by {
        let x = m2.clients[i].0;
        let g = m2.clients[i].1[j];
        assert(x == m.clients[i].0);
        if i == ci && j == m.rooms_of(id).len() {
            assert(g == f && x == id);
            assert(m2.members(f).contains(id)) by {
                assert(m2.members(f)[m.members(f).len() as int] == id);
            }
        } else {
            assert(g == m.clients[i].1[j]);
            assert(m.backs(g, x));
            if g == f {
                assert(m2.members(f).contains(x)) by {
                    let w = choose|t: int| 0 <= t < m.members(f).len() && m.members(f)[t] == x;
                    assert(m2.members(f)[w] == x);
                }
            }
        }
    }
    assert forall|i: int, j: int|
        0 <= i < m2.pending.len() && 0 <= j < m2.pending[i].1.len() implies m2.has_client(
        #[trigger] m2.pending[i].1[j],
    ) by {
        assert(m.has_client(m.pending[i].1[j]));
    }
}

/// Adding a waiter to an in-flight check keeps the registry well-formed,
/// and touches nothing else.
pub proof fn lemma_add_waiter_wf(m: RegModel, f: Seq<char>, id: u64)
    requires
        m.wf(),
        m.has_pending(f),
        !m.waiters(f).contains(id),
        m.has_client(id),
    ensures
        add_waiter(m, f, id).wf(),
        add_waiter(m, f, id).rooms == m.rooms,
        add_waiter(m, f, id).clients == m.clients,
        forall|g: Seq<char>| #[trigger] add_waiter(m, f, id).has_pending(g) == m.has_pending(g),
        add_waiter(m, f, id).waiters(f) == m.waiters(f).push(id),
        forall|g: Seq<char>|
            g != f && m.has_pending(g) ==> #[trigger] add_waiter(m, f, id).waiters(g)
                == m.waiters(g),
{
    broadcast use crate::assoc::lemma_first_idx;

    let m2 = add_waiter(m, f, id);
    let pi = m.pend_idx(f);
    assert(0 <= pi < m.pending.len() && keys_of(m.pending)[pi] == f);
    assert(m.pending[pi].0 == f);
    assert(keys_of(m2.pending) =~= keys_of(m.pending));
    assert(m2.pend_idx(f) == pi);
    assert(m2.pending[pi].1 == m.waiters(f).push(id));
    assert forall|g: Seq<char>| g != f && m.has_pending(g) implies #[trigger] m2.waiters(g)
        == m.waiters(g) by {
        let gi = first_idx(keys_of(m.pending), g);
        assert(0 <= gi < m.pending.len() && keys_of(m.pending)[gi] == g);
        assert(gi != pi);
        assert(m2.pending[gi] == m.pending[gi]);
    }
    assert forall|i: int| 0 <= i < m2.pending.len() implies distinct(
        (#[trigger] m2.pending[i]).1,
    ) && !m2.has_room(m2.pending[i].0) by {
        assert(m2.pending[i].0 == m.pending[i].0);
        assert(!m.has_room(m.pending[i].0));
        if i != pi {
            assert(m2.pending[i] == m.pending[i]);
        } else {
            let ws = m.waiters(f);
            assert(distinct(ws));
            assert forall|a: int, b: int|
                0 <= a < b < ws.push(id).len() implies ws.push(id)[a] != ws.push(id)[b] by {
                if b < ws.len() {
                } else {
                    assert(ws.push(id)[b] == id);
                    assert(ws.contains(ws[a]));
                }
            }
        }
    }
    assert forall|i: int, j: int|
        0 <= i < m2.pending.len() && 0 <= j < m2.pending[i].1.len() implies m2.has_client(
        #[trigger] m2.pending[i].1[j],
    ) by {
        if i != pi {
            assert(m2.pending[i] == m.pending[i]);
            assert(m.has_client(m.pending[i].1[j]));
        } else {
            if j < m.waiters(f).len() {
                assert(m2.pending[i].1[j] == m.pending[pi].1[j]);
                assert(m.has_client(m.pending[pi].1[j]));
            } else {
                assert(m2.pending[i].1[j] == id);
            }
        }
    }
    assert forall|i: int, j: int|
        0 <= i < m2.rooms.len() && 0 <= j < m2.rooms[i].1.len() implies m2.links(
        m2.rooms[i].0,
        #[trigger] m2.rooms[i].1[j],
    ) by {
        assert(m.links(m.rooms[i].0, m.rooms[i].1[j]));
    }
    assert forall|i: int, j: int|
        0 <= i < m2.clients.len() && 0 <= j < m2.clients[i].1.len() implies m2.backs(
        #[trigger] m2.clients[i].1[j],
        m2.clients[i].0,
    ) by {
        assert(m.backs(m.clients[i].1[j], m.clients[i].0));
    }
}

/// Creating a room entry for a fresh name keeps the registry
/// well-formed.
pub proof fn lemma_create_room_wf(m: RegModel, f: Seq<char>, id: u64)
    requires
        m.wf(),
        !m.has_room(f),
        !m.has_pending(f),
        m.has_client(id),
    ensures
        create_room(m, f, id).wf(),
        create_room(m, f, id).pending == m.pending,
        forall|g: Seq<char>| #[trigger]
            create_room(m, f, id).has_room(g) <==> (m.has_room(g) || g == f),
        create_room(m, f, id).members(f) == seq![id],
        forall|g: Seq<char>|
            g != f && m.has_room(g) ==> #[trigger] create_room(m, f, id).members(g) == m.members(
                g,
            ),
        forall|x: u64| #[trigger] create_room(m, f, id).has_client(x) == m.has_client(x),
        create_room(m, f, id).rooms_of(id) == m.rooms_of(id).push(f),
        forall|x: u64|
            x != id && m.has_client(x) ==> #[trigger] create_room(m, f, id).rooms_of(x)
                == m.rooms_of(x),
{
    broadcast use crate::assoc::lemma_first_idx;

    let m2 = create_room(m, f, id);
    let ci = m.client_idx(id);
    assert(0 <= ci < m.clients.len() && keys_of(m.clients)[ci] == id);
    assert(m.clients[ci].0 == id);
    let ks = keys_of(m.rooms);
    let ks2 = keys_of(m2.rooms);
    assert(ks2 =~= ks.push(f));
    assert(keys_of(m2.clients) =~= keys_of(m.clients));
    assert(m2.client_idx(id) == ci);
    assert(m2.clients[ci].1 == m.rooms_of(id).push(f));
    assert forall|g: Seq<char>| #[trigger] m2.has_room(g) <==> (m.has_room(g) || g == f) by {
        crate::assoc::lemma_first_idx_push(ks, f, g);
        crate::assoc::lemma_first_idx(ks2, g);
        if m.has_room(g) {
            let w = choose|i: int| 0 <= i < ks.len() && ks[i] == g;
            assert(ks2[w] == g);
        }
        if g == f {
            assert(ks2[m.rooms.len() as int] == g);
        }
    }
    crate::assoc::lemma_first_idx_push(ks, f, f);
    assert(m2.room_idx(f) == m.rooms.len());
    assert(m2.members(f) == seq![id]);
    assert forall|g: Seq<char>| g != f && m.has_room(g) implies #[trigger] m2.members(g)
        == m.members(g) by {
        crate::assoc::lemma_first_idx_push(ks, f, g);
        crate::assoc::lemma_first_idx(ks, g);
        let gi = first_idx(ks, g);
        assert(m2.rooms[gi] == m.rooms[gi]);
    }
    assert forall|x: u64| x != id && m.has_client(x) implies #[trigger] m2.rooms_of(x)
        == m.rooms_of(x) by {
        let xi = first_idx(keys_of(m.clients), x);
        assert(0 <= xi < m.clients.len() && keys_of(m.clients)[xi] == x);
        assert(xi != ci);
        assert(m2.clients[xi] == m.clients[xi]);
    }
    // The fresh name is no existing room, so no list holds it yet.
    assert(!m.rooms_of(id).contains(f)) by {
        if m.rooms_of(id).contains(f) {
            let w = choose|t: int|
                0 <= t < m.clients[ci].1.len() && m.clients[ci].1[t] == f;
            assert(m.backs(m.clients[ci].1[w], m.clients[ci].0));
        }
    }
    // Well-formedness clause by clause.
    assert(distinct(ks2)) by {
        assert forall|a: int, b: int| 0 <= a < b < ks2.len() implies ks2[a] != ks2[b] by {
            if b < ks.len() {
                assert(ks[a] == ks2[a] && ks[b] == ks2[b]);
            } else {
                assert(ks2[b] == f);
                assert(ks[a] == ks2[a]);
                assert(ks.contains(ks2[a]));
            }
        }
    }
    assert forall|i: int| 0 <= i < m2.rooms.len() implies (#[trigger] m2.rooms[i]).1.len() > 0
        && distinct(m2.rooms[i].1) by {
        if i < m.rooms.len() {
            assert(m2.rooms[i] == m.rooms[i]);
        } else {
            assert(m2.rooms[i].1 =~= seq![id]);
        }
    }
    assert forall|i: int| 0 <= i < m2.clients.len() implies distinct(
        (#[trigger] m2.clients[i]).1,
    ) by {
        if i != ci {
            assert(m2.clients[i] == m.clients[i]);
        } else {
            let ns = m.rooms_of(id);
            assert(distinct(ns));
            assert forall|a: int, b: int|
                0 <= a < b < ns.push(f).len() implies ns.push(f)[a] != ns.push(f)[b] by {
                if b < ns.len() {
                } else {
                    assert(ns.push(f)[b] == f);
                    assert(ns.contains(ns[a]));
                }
            }
        }
    }
    assert forall|i: int| 0 <= i < m2.pending.len() implies !m2.has_room(
        (#[trigger] m2.pending[i]).0,
    ) by {
        assert(!m.has_room(m.pending[i].0));
        assert(keys_of(m.pending)[i] == m.pending[i].0);
        assert(keys_of(m.pending).contains(m.pending[i].0));
        assert(m.pending[i].0 != f);
    }
    assert forall|i: int, j: int|
        0 <= i < m2.rooms.len() && 0 <= j < m2.rooms[i].1.len() implies m2.links(
        m2.rooms[i].0,
        #[trigger] m2.rooms[i].1[j],
    ) by {
        if i < m.rooms.len() {
            let g = m.rooms[i].0;
            let x = m.rooms[i].1[j];
            assert(m.links(g, x));
            if x == id {
                assert(m2.rooms_of(id).contains(g)) by {
                    let w = choose|t: int|
                        0 <= t < m.rooms_of(id).len() && m.rooms_of(id)[t] == g;
                    assert(m2.rooms_of(id)[w] == g);
                }
            }
        } else {
            assert(m2.rooms[i].1[j] == id);
            assert(m2.rooms_of(id).contains(f)) by {
                assert(m2.rooms_of(id)[m.rooms_of(id).len() as int] == f);
            }
        }
    }
    assert forall|i: int, j: int|
        0 <= i < m2.clients.len() && 0 <= j < m2.clients[i].1.len() implies m2.backs(
        #[trigger] m2.clients[i].1[j],
        m2.clients[i].0,
    ) by {
        let x = m2.clients[i].0;
        let g = m2.clients[i].1[j];
        assert(x == m.clients[i].0);
        if i == ci && j == m.rooms_of(id).len() {
            assert(g == f && x == id);
            assert(m2.members(f).contains(id)) by {
                assert(m2.members(f)[0] == id);
            }
        } else {
            assert(g == m.clients[i].1[j]);
            assert(m.backs(g, x));
            assert(g != f);
            assert(m2.members(g) == m.members(g));
        }
    }
    assert forall|i: int, j: int|
        0 <= i < m2.pending.len() && 0 <= j < m2.pending[i].1.len() implies m2.has_client(
        #[trigger] m2.pending[i].1[j],
    ) by {
        assert(m.has_client(m.pending[i].1[j]));
    }
}

/// Opening a pending marker for a fresh name keeps the registry
/// well-formed.
pub proof fn lemma_open_pending_wf(m: RegModel, f: Seq<char>, id: u64)
    requires
        m.wf(),
        !m.has_room(f),
        !m.has_pending(f),
        m.has_client(id),
    ensures
        open_pending(m, f, id).wf(),
        open_pending(m, f, id).rooms == m.rooms,
        open_pending(m, f, id).clients == m.clients,
        forall|g: Seq<char>| #[trigger]
            open_pending(m, f, id).has_pending(g) <==> (m.has_pending(g) || g == f),
        open_pending(m, f, id).waiters(f) == seq![id],
        forall|g: Seq<char>|
            g != f && m.has_pending(g) ==> #[trigger] open_pending(m, f, id).waiters(g)
                == m.waiters(g),
{
    broadcast use crate::assoc::lemma_first_idx;

    let m2 = open_pending(m, f, id);
    let ks = keys_of(m.pending);
    let ks2 = keys_of(m2.pending);
    assert(ks2 =~= ks.push(f));
    assert forall|g: Seq<char>| #[trigger] m2.has_pending(g) <==> (m.has_pending(g) || g
        == f) by {
        crate::assoc::lemma_first_idx_push(ks, f, g);
        crate::assoc::lemma_first_idx(ks2, g);
        if m.has_pending(g) {
            let w = choose|i: int| 0 <= i < ks.len() && ks[i] == g;
            assert(ks2[w] == g);
        }
        if g == f {
            assert(ks2[m.pending.len() as int] == g);
        }
    }
    crate::assoc::lemma_first_idx_push(ks, f, f);
    assert(m2.pend_idx(f) == m.pending.len());
    assert(m2.waiters(f) == seq![id]);
    assert forall|g: Seq<char>| g != f && m.has_pending(g) implies #[trigger] m2.waiters(g)
        == m.waiters(g) by {
        crate::assoc::lemma_first_idx_push(ks, f, g);
        crate::assoc::lemma_first_idx(ks, g);
        let gi = first_idx(ks, g);
        assert(m2.pending[gi] == m.pending[gi]);
    }
    assert(distinct(ks2)) by {
        assert forall|a: int, b: int| 0 <= a < b < ks2.len() implies ks2[a] != ks2[b] by {
            if b < ks.len() {
                assert(ks[a] == ks2[a] && ks[b] == ks2[b]);
            } else {
                assert(ks2[b] == f);
                assert(ks[a] == ks2[a]);
                assert(ks.contains(ks2[a]));
            }
        }
    }
    assert forall|i: int| 0 <= i < m2.pending.len() implies distinct(
        (#[trigger] m2.pending[i]).1,
    ) && !m2.has_room(m2.pending[i].0) by {
        if i < m.pending.len() {
            assert(m2.pending[i] == m.pending[i]);
            assert(!m.has_room(m.pending[i].0));
        } else {
            assert(m2.pending[i].1 =~= seq![id]);
            assert(m2.pending[i].0 == f);
        }
    }
    assert forall|i: int, j: int|
        0 <= i < m2.pending.len() && 0 <= j < m2.pending[i].1.len() implies m2.has_client(
        #[trigger] m2.pending[i].1[j],
    ) by {
        if i < m.pending.len() {
            assert(m2.pending[i] == m.pending[i]);
            assert(m.has_client(m.pending[i].1[j]));
        } else {
            assert(m2.pending[i].1[j] == id);
        }
    }
    assert forall|i: int, j: int|
        0 <= i < m2.rooms.len() && 0 <= j < m2.rooms[i].1.len() implies m2.links(
        m2.rooms[i].0,
        #[trigger] m2.rooms[i].1[j],
    ) by {
        assert(m.links(m.rooms[i].0, m.rooms[i].1[j]));
    }
    assert forall|i: int, j: int|
        0 <= i < m2.clients.len() && 0 <= j < m2.clients[i].1.len() implies m2.backs(
        #[trigger] m2.clients[i].1[j],
        m2.clients[i].0,
    ) by {
        assert(m.backs(m.clients[i].1[j], m.clients[i].0));
    }
}

/// A join attempt keeps the registry well-formed.
pub proof fn lemma_join_wf(m: RegModel, broadcast: bool, has_url: bool, f: Seq<char>, id: u64)
    requires
        m.wf(),
    ensures
        join_state(m, broadcast, has_url, f, id).wf(),
{
    lemma_with_client_wf(m, id);
    let m1 = with_client(m, id);
    if m.has_room(f) {
        if !m.members(f).contains(id) {
            lemma_add_member_wf(m1, f, id);
        }
    } else if m.has_pending(f) {
        if !m.waiters(f).contains(id) {
            lemma_add_waiter_wf(m1, f, id);
        }
    } else if broadcast {
        lemma_create_room_wf(m1, f, id);
    } else if has_url {
        lemma_open_pending_wf(m1, f, id);
    }
}

/// Record name `f` in the list of every client whose id is in `ws`.
pub open spec fn grant_names(
    cs: Seq<(u64, Seq<Seq<char>>)>,
    ws: Seq<u64>,
    f: Seq<char>,
) -> Seq<(u64, Seq<Seq<char>>)> {
    cs.map_values(
        |p: (u64, Seq<Seq<char>>)|
            if ws.contains(p.0) {
                (p.0, p.1.push(f))
            } else {
                p
            },
    )
}

/// The registry after the in-flight admission check for `f` came back:
/// the pending marker is resolved into a room entry holding the waiters
/// when the check reported existence, and dropped otherwise.
pub open spec fn resolve_state(m: RegModel, f: Seq<char>, exists: bool) -> RegModel {
    if !m.has_pending(f) {
        m
    } else {
        let ws = m.waiters(f);
        let pending1 = m.pending.remove(m.pend_idx(f));
        if exists && ws.len() > 0 {
            RegModel {
                rooms: m.rooms.push((f, ws)),
                pending: pending1,
                clients: grant_names(m.clients, ws, f),
            }
        } else {
            RegModel { rooms: m.rooms, pending: pending1, clients: m.clients }
        }
    }
}

/// Resolving an in-flight admission check keeps the registry
/// well-formed.
pub proof fn lemma_resolve_wf(m: RegModel, f: Seq<char>, exists: bool)
    requires
        m.wf(),
    ensures
        resolve_state(m, f, exists).wf(),
{
    broadcast use crate::assoc::lemma_first_idx;

    if !m.has_pending(f) {
        return ;
    }
    let m2 = resolve_state(m, f, exists);
    let pi = m.pend_idx(f);
    let ws = m.waiters(f);
    assert(0 <= pi < m.pending.len() && keys_of(m.pending)[pi] == f);
    assert(m.pending[pi].0 == f);
    let p1 = m.pending.remove(pi);
    m.pending.remove_ensures(pi);
    // Each remaining marker is one of the earlier markers, key not `f`.
    assert forall|i: int| 0 <= i < p1.len() implies (#[trigger] p1[i]) == m.pending[(
    if i < pi {
        i
    } else {
        i + 1
    })] && p1[i].0 != f by {
        let s = if i < pi {
            i
        } else {
            i + 1
        };
        assert(keys_of(m.pending)[s] == m.pending[s].0);
        if m.pending[s].0 == f {
            assert(keys_of(m.pending)[s] == keys_of(m.pending)[pi]);
        }
    }
    assert(distinct(keys_of(p1))) by {
        assert forall|a: int, b: int| 0 <= a < b < p1.len() implies keys_of(p1)[a] != keys_of(
            p1,
        )[b] by {
            let sa = if a < pi {
                a
            } else {
                a + 1
            };
            let sb = if b < pi {
                b
            } else {
                b + 1
            };
            assert(keys_of(p1)[a] == m.pending[sa].0 && keys_of(p1)[b] == m.pending[sb].0);
            assert(keys_of(m.pending)[sa] == m.pending[sa].0);
            assert(keys_of(m.pending)[sb] == m.pending[sb].0);
        }
    }
    if exists && ws.len() > 0 {
        let ks = keys_of(m.rooms);
        let ks2 = keys_of(m2.rooms);
        assert(!m.has_room(f));
        assert(!ks.contains(f));
        assert(ks2 =~= ks.push(f));
        crate::assoc::lemma_first_idx_push(ks, f, f);
        assert(m2.room_idx(f) == m.rooms.len());
        assert(m2.members(f) == ws);
        // Key sets of the clients index are unchanged by granting.
        assert(keys_of(m2.clients) =~= keys_of(m.clients));
        // Each granted row: the old row, the name pushed for waiters.
        assert forall|i: int| 0 <= i < m2.clients.len() implies (#[trigger] m2.clients[i]) == (
        if ws.contains(m.clients[i].0) {
            (m.clients[i].0, m.clients[i].1.push(f))
        } else {
            m.clients[i]
        }) by {}
        // Room membership of names other than f is untouched.
        assert forall|g: Seq<char>| g != f && m.has_room(g) implies #[trigger] m2.members(g)
            == m.members(g) && m2.has_room(g) by {
            crate::assoc::lemma_first_idx_push(ks, f, g);
            crate::assoc::lemma_first_idx(ks, g);
            let gi = first_idx(ks, g);
            assert(m2.rooms[gi] == m.rooms[gi]);
            assert(ks2[gi] == g);
        }
        assert forall|x: u64| m.has_client(x) implies #[trigger] m2.has_client(x)
            && m2.client_idx(x) == m.client_idx(x) by {
            crate::assoc::lemma_first_idx(keys_of(m.clients), x);
        }
        // No list holds the fresh name yet.
        assert forall|i: int| 0 <= i < m.clients.len() implies !(
        #[trigger] m.clients[i].1.contains(f)) by {
            if m.clients[i].1.contains(f) {
                let w = choose|t: int|
                    0 <= t < m.clients[i].1.len() && m.clients[i].1[t] == f;
                assert(m.backs(m.clients[i].1[w], m.clients[i].0));
            }
        }
        // Well-formedness clause by clause.
        assert(distinct(ks2)) by {
            assert forall|a: int, b: int| 0 <= a < b < ks2.len() implies ks2[a] != ks2[b] by {
                if b < ks.len() {
                    assert(ks[a] == ks2[a] && ks[b] == ks2[b]);
                } else {
                    assert(ks2[b] == f);
                    assert(ks[a] == ks2[a]);
                    assert(ks.contains(ks2[a]));
                }
            }
        }
        assert forall|i: int| 0 <= i < m2.rooms.len() implies (#[trigger] m2.rooms[i]).1.len()
            > 0 && distinct(m2.rooms[i].1) by {
            if i < m.rooms.len() {
                assert(m2.rooms[i] == m.rooms[i]);
            } else {
                assert(m2.rooms[i].1 == ws);
                assert(distinct(m.pending[pi].1));
            }
        }
        assert forall|i: int| 0 <= i < m2.clients.len() implies distinct(
            (#[trigger] m2.clients[i]).1,
        ) by {
            let ns = m.clients[i].1;
            assert(distinct(ns));
            if ws.contains(m.clients[i].0) {
                assert(!ns.contains(f));
                assert forall|a: int, b: int|
                    0 <= a < b < ns.push(f).len() implies ns.push(f)[a] != ns.push(f)[b] by {
                    if b < ns.len() {
                    } else {
                        assert(ns.push(f)[b] == f);
                        assert(ns.contains(ns[a]));
                    }
                }
            }
        }
        assert forall|i: int| 0 <= i < m2.pending.len() implies !m2.has_room(
            (#[trigger] m2.pending[i]).0,
        ) by {
            let g = p1[i].0;
            assert(g != f);
            let s = if i < pi {
                i
            } else {
                i + 1
            };
            assert(!m.has_room(m.pending[s].0));
            if m2.has_room(g) {
                crate::assoc::lemma_first_idx(ks2, g);
                let w = first_idx(ks2, g);
                assert(ks2[w] == g);
                if w < ks.len() {
                    assert(ks[w] == g);
                    assert(ks.contains(g));
                }
            }
        }
        assert forall|i: int| 0 <= i < m2.pending.len() implies distinct(
            (#[trigger] m2.pending[i]).1,
        ) by {
            let s = if i < pi {
                i
            } else {
                i + 1
            };
            assert(distinct(m.pending[s].1));
        }
        assert forall|i: int, j: int|
            0 <= i < m2.pending.len() && 0 <= j < m2.pending[i].1.len() implies m2.has_client(
            #[trigger] m2.pending[i].1[j],
        ) by {
            let s = if i < pi {
                i
            } else {
                i + 1
            };
            assert(p1[i] == m.pending[s]);
            assert(m.has_client(m.pending[s].1[j]));
        }
        assert forall|i: int, j: int|
            0 <= i < m2.rooms.len() && 0 <= j < m2.rooms[i].1.len() implies m2.links(
            m2.rooms[i].0,
            #[trigger] m2.rooms[i].1[j],
        ) by {
            if i < m.rooms.len() {
                let g = m.rooms[i].0;
                let x = m.rooms[i].1[j];
                assert(m.links(g, x));
                let ci = m.client_idx(x);
                crate::assoc::lemma_first_idx(keys_of(m.clients), x);
                assert(m2.rooms_of(x).contains(g)) by {
                    let w = choose|t: int|
                        0 <= t < m.rooms_of(x).len() && m.rooms_of(x)[t] == g;
                    assert(m2.rooms_of(x)[w] == g);
                }
            } else {
                let x = ws[j];
                assert(m.has_client(m.pending[pi].1[j]));
                let ci = m.client_idx(x);
                crate::assoc::lemma_first_idx(keys_of(m.clients), x);
                assert(ws.contains(x)) by {
                    assert(ws[j] == x);
                }
                assert(m2.clients[ci].1 == m.clients[ci].1.push(f));
                assert(m2.rooms_of(x).contains(f)) by {
                    assert(m2.rooms_of(x)[m.clients[ci].1.len() as int] == f);
                }
            }
        }
        assert forall|i: int, j: int|
            0 <= i < m2.clients.len() && 0 <= j < m2.clients[i].1.len() implies m2.backs(
            #[trigger] m2.clients[i].1[j],
            m2.clients[i].0,
        ) by {
            let x = m2.clients[i].0;
            assert(x == m.clients[i].0);
            let granted = ws.contains(m.clients[i].0);
            if granted && j == m.clients[i].1.len() {
                assert(m2.clients[i].1[j] == f);
                assert(m2.members(f).contains(x)) by {
                    let w = choose|t: int| 0 <= t < ws.len() && ws[t] == x;
                    assert(m2.members(f)[w] == x);
                }
                assert(ks2[ks.len() as int] == f);
                assert(m2.has_room(f));
            } else {
                let g = m.clients[i].1[j];
                assert(m2.clients[i].1[j] == g);
                assert(m.backs(g, x));
                assert(g != f) by {
                    if g == f {
                        assert(m.clients[i].1.contains(f)) by {
                            assert(m.clients[i].1[j] == f);
                        }
                    }
                }
                assert(m2.members(g) == m.members(g) && m2.has_room(g)) by {
                    crate::assoc::lemma_first_idx_push(ks, f, g);
                    crate::assoc::lemma_first_idx(ks, g);
                    let gi = first_idx(ks, g);
                    assert(m2.rooms[gi] == m.rooms[gi]);
                    assert(ks2[gi] == g);
                }
            }
        }
    } else {
        assert forall|i: int| 0 <= i < m2.pending.len() implies !m2.has_room(
            (#[trigger] m2.pending[i]).0,
        ) && distinct(m2.pending[i].1) by {
            let s = if i < pi {
                i
            } else {
                i + 1
            };
            assert(p1[i] == m.pending[s]);
            assert(!m.has_room(m.pending[s].0));
            assert(distinct(m.pending[s].1));
        }
        assert forall|i: int, j: int|
            0 <= i < m2.pending.len() && 0 <= j < m2.pending[i].1.len() implies m2.has_client(
            #[trigger] m2.pending[i].1[j],
        ) by {
            let s = if i < pi {
                i
            } else {
                i + 1
            };
            assert(p1[i] == m.pending[s]);
            assert(m.has_client(m.pending[s].1[j]));
        }
        assert forall|i: int, j: int|
            0 <= i < m2.rooms.len() && 0 <= j < m2.rooms[i].1.len() implies m2.links(
            m2.rooms[i].0,
            #[trigger] m2.rooms[i].1[j],
        ) by {
            assert(m.links(m.rooms[i].0, m.rooms[i].1[j]));
        }
        assert forall|i: int, j: int|
            0 <= i < m2.clients.len() && 0 <= j < m2.clients[i].1.len() implies m2.backs(
            #[trigger] m2.clients[i].1[j],
            m2.clients[i].0,
        ) by {
            assert(m.backs(m.clients[i].1[j], m.clients[i].0));
        }
    }
}

/// `s` with every occurrence of `id` removed, order kept.
pub open spec fn remove_id(s: Seq<u64>, id: u64) -> Seq<u64>
    decreases s.len(),
{
    if s.len() == 0 {
        s
    } else {
        let r = remove_id(s.drop_last(), id);
        if s.last() == id {
            r
        } else {
            r.push(s.last())
        }
    }
}

/// Every room entry with `id` removed from its members; entries whose
/// member set becomes empty are dropped.
pub open spec fn rooms_without(
    rs: Seq<(Seq<char>, Seq<u64>)>,
    id: u64,
) -> Seq<(Seq<char>, Seq<u64>)>
    decreases rs.len(),
{
    if rs.len() == 0 {
        rs
    } else {
        let r = rooms_without(rs.drop_last(), id);
        let ms = remove_id(rs.last().1, id);
        if ms.len() == 0 {
            r
        } else {
            r.push((rs.last().0, ms))
        }
    }
}

/// Every pending marker with `id` removed from its waiters; markers stay
/// even with no waiters left (their check is still in flight).
pub open spec fn pending_without(
    ps: Seq<(Seq<char>, Seq<u64>)>,
    id: u64,
) -> Seq<(Seq<char>, Seq<u64>)>
    decreases ps.len(),
{
    if ps.len() == 0 {
        ps
    } else {
        pending_without(ps.drop_last(), id).push((ps.last().0, remove_id(ps.last().1, id)))
    }
}

/// The clients index without the entry of `id`.
pub open spec fn clients_without(
    cs: Seq<(u64, Seq<Seq<char>>)>,
    id: u64,
) -> Seq<(u64, Seq<Seq<char>>)>
    decreases cs.len(),
{
    if cs.len() == 0 {
        cs
    } else {
        let r = clients_without(cs.drop_last(), id);
        if cs.last().0 == id {
            r
        } else {
            r.push(cs.last())
        }
    }
}

/// The registry after client `id` is removed: its index entry deleted,
/// its id dropped from every member set and every waiter list, and any
/// room entry left empty deleted with it. Idempotent.
pub open spec fn remove_state(m: RegModel, id: u64) -> RegModel {
    RegModel {
        rooms: rooms_without(m.rooms, id),
        pending: pending_without(m.pending, id),
        clients: clients_without(m.clients, id),
    }
}

/// The registry after removing every client in `ids`, in order.
pub open spec fn remove_all(m: RegModel, ids: Seq<u64>) -> RegModel
    decreases ids.len(),
{
    if ids.len() == 0 {
        m
    } else {
        remove_all(remove_state(m, ids[0]), ids.skip(1))
    }
}

/// `remove_id` keeps exactly the other values, and keeps distinctness.
pub proof fn lemma_remove_id_props(s: Seq<u64>, id: u64)
    ensures
        forall|x: u64| #[trigger] remove_id(s, id).contains(x) <==> (s.contains(x) && x != id),
        distinct(s) ==> distinct(remove_id(s, id)),
        !s.contains(id) ==> remove_id(s, id) == s,
    decreases s.len(),
{
    let r = remove_id(s, id);
    if s.len() == 0 {
        assert forall|x: u64| #[trigger] r.contains(x) <==> (s.contains(x) && x != id) by {
            if s.contains(x) {
                let w = choose|i: int| 0 <= i < s.len() && s[i] == x;
            }
        }
    } else {
        let d = s.drop_last();
        lemma_remove_id_props(d, id);
        let rd = remove_id(d, id);
        assert forall|x: u64| #[trigger] s.contains(x) <==> (d.contains(x) || s.last() == x) by {
            if s.contains(x) {
                let w = choose|i: int| 0 <= i < s.len() && s[i] == x;
                if w < s.len() - 1 {
                    assert(d[w] == x);
                }
            }
            if d.contains(x) {
                let w = choose|i: int| 0 <= i < d.len() && d[i] == x;
                assert(s[w] == x);
            }
            if s.last() == x {
                assert(s[s.len() - 1] == x);
            }
        }
        if s.last() == id {
            assert(r == rd);
            assert(s.contains(id));
        } else {
            assert(r == rd.push(s.last()));
            assert forall|x: u64| #[trigger] r.contains(x) <==> (rd.contains(x) || s.last()
                == x) by {
                if r.contains(x) {
                    let w = choose|i: int| 0 <= i < r.len() && r[i] == x;
                    if w < r.len() - 1 {
                        assert(rd[w] == x);
                    }
                }
                if rd.contains(x) {
                    let w = choose|i: int| 0 <= i < rd.len() && rd[i] == x;
                    assert(r[w] == x);
                }
                if s.last() == x {
                    assert(r[r.len() - 1] == x);
                }
            }
            if distinct(s) {
                assert forall|i: int, j: int| 0 <= i < j < d.len() implies d[i] != d[j] by {
                    assert(s[i] == d[i] && s[j] == d[j]);
                }
                assert(distinct(rd));
                assert(!d.contains(s.last())) by {
                    if d.contains(s.last()) {
                        let w = choose|i: int| 0 <= i < d.len() && d[i] == s.last();
                        assert(s[w] == s[s.len() - 1]);
                    }
                }
                assert(!rd.contains(s.last()));
                assert forall|i: int, j: int| 0 <= i < j < r.len() implies r[i] != r[j] by {
                    if j < r.len() - 1 {
                        assert(rd[i] == r[i] && rd[j] == r[j]);
                    } else {
                        assert(r[j] == s.last());
                        assert(rd[i] == r[i]);
                        assert(rd.contains(rd[i]));
                    }
                }
            }
            if !s.contains(id) {
                assert(rd == d);
                assert(r =~= s);
            }
        }
        if s.last() == id && !s.contains(id) {
            assert(false);
        }
    }
}

/// `pending_without` rewrites each marker in place.
pub proof fn lemma_pending_without_index(ps: Seq<(Seq<char>, Seq<u64>)>, id: u64)
    ensures
        pending_without(ps, id).len() == ps.len(),
        forall|j: int|
            0 <= j < ps.len() ==> #[trigger] pending_without(ps, id)[j] == (
                ps[j].0,
                remove_id(ps[j].1, id),
            ),
        keys_of(pending_without(ps, id)) =~= keys_of(ps),
    decreases ps.len(),
{
    if ps.len() > 0 {
        let d = ps.drop_last();
        lemma_pending_without_index(d, id);
        assert forall|j: int| 0 <= j < ps.len() implies #[trigger] pending_without(ps, id)[j] == (
            ps[j].0,
            remove_id(ps[j].1, id),
        ) by {
            if j < ps.len() - 1 {
                assert(pending_without(ps, id)[j] == pending_without(d, id)[j]);
                assert(d[j] == ps[j]);
            }
        }
    }
}

/// `clients_without` removes exactly the entry of `id`, keeping every
/// other entry, its value and the key order.
pub proof fn lemma_clients_without_lookup(cs: Seq<(u64, Seq<Seq<char>>)>, id: u64)
    ensures
        forall|x: u64| #[trigger]
            keys_of(clients_without(cs, id)).contains(x) <==> (keys_of(cs).contains(x) && x
                != id),
        distinct(keys_of(cs)) ==> distinct(keys_of(clients_without(cs, id))),
        distinct(keys_of(cs)) ==> forall|x: u64|
            #![trigger first_idx(keys_of(cs), x)]
            keys_of(cs).contains(x) && x != id ==> clients_without(cs, id)[first_idx(
                keys_of(clients_without(cs, id)),
                x,
            )].1 == cs[first_idx(keys_of(cs), x)].1,
    decreases cs.len(),
{
    broadcast use crate::assoc::lemma_first_idx;

    let r = clients_without(cs, id);
    let ks = keys_of(cs);
    let rks = keys_of(r);
    if cs.len() == 0 {
        assert forall|x: u64| #[trigger] rks.contains(x) <==> (ks.contains(x) && x != id) by {
            if ks.contains(x) {
                let w = choose|i: int| 0 <= i < ks.len() && ks[i] == x;
            }
        }
    } else {
        let d = cs.drop_last();
        lemma_clients_without_lookup(d, id);
        let rd = clients_without(d, id);
        assert forall|x: u64| #[trigger] ks.contains(x) <==> (keys_of(d).contains(x)
            || cs.last().0 == x) by {
            if ks.contains(x) {
                let w = choose|i: int| 0 <= i < ks.len() && ks[i] == x;
                if w < cs.len() - 1 {
                    assert(keys_of(d)[w] == x);
                }
            }
            if keys_of(d).contains(x) {
                let w = choose|i: int| 0 <= i < d.len() && keys_of(d)[i] == x;
                assert(ks[w] == x);
            }
            if cs.last().0 == x {
                assert(ks[cs.len() - 1] == x);
            }
        }
        if cs.last().0 == id {
            assert(r == rd);
            assert(ks.contains(id));
        } else {
            assert(r == rd.push(cs.last()));
            assert forall|x: u64| #[trigger] rks.contains(x) <==> (keys_of(rd).contains(x)
                || cs.last().0 == x) by {
                if rks.contains(x) {
                    let w = choose|i: int| 0 <= i < rks.len() && rks[i] == x;
                    if w < r.len() - 1 {
                        assert(r[w] == rd[w]);
                        assert(keys_of(rd)[w] == x);
                    }
                }
                if keys_of(rd).contains(x) {
                    let w = choose|i: int| 0 <= i < rd.len() && keys_of(rd)[i] == x;
                    assert(r[w] == rd[w]);
                    assert(rks[w] == x);
                }
                if cs.last().0 == x {
                    assert(rks[r.len() - 1] == x);
                }
            }
        }
        if distinct(ks) {
            assert forall|i: int, j: int| 0 <= i < j < d.len() implies keys_of(d)[i] != keys_of(
                d,
            )[j] by {
                assert(ks[i] == keys_of(d)[i] && ks[j] == keys_of(d)[j]);
            }
            assert(distinct(keys_of(d)));
            if cs.last().0 != id {
                assert(!keys_of(d).contains(cs.last().0)) by {
                    if keys_of(d).contains(cs.last().0) {
                        let w = choose|i: int|
                            0 <= i < d.len() && keys_of(d)[i] == cs.last().0;
                        assert(ks[w] == ks[cs.len() - 1]);
                    }
                }
                assert(!keys_of(rd).contains(cs.last().0));
                assert forall|i: int, j: int| 0 <= i < j < r.len() implies rks[i] != rks[j] by {
                    if j < r.len() - 1 {
                        assert(r[i] == rd[i] && r[j] == rd[j]);
                        assert(keys_of(rd)[i] == rks[i] && keys_of(rd)[j] == rks[j]);
                    } else {
                        assert(r[j] == cs.last());
                        assert(r[i] == rd[i]);
                        assert(keys_of(rd)[i] == rks[i]);
                        assert(keys_of(rd).contains(rks[i]));
                    }
                }
            }
            assert forall|x: u64| keys_of(cs).contains(x) && x != id implies #[trigger] r[first_idx(
                rks,
                x,
            )].1 == cs[first_idx(ks, x)].1 by {
                let fi = first_idx(ks, x);
                let fj = first_idx(rks, x);
                assert(rks.contains(x));
                assert(0 <= fi < cs.len() && ks[fi] == x);
                assert(0 <= fj < r.len() && rks[fj] == x);
                assert(cs[fi].0 == x);
                assert(r[fj].0 == x);
                if cs.last().0 == x {
                    assert(fi == cs.len() - 1) by {
                        if fi < cs.len() - 1 {
                            assert(ks[fi] == ks[cs.len() - 1]);
                        }
                    }
                    assert(fj == r.len() - 1) by {
                        if fj < r.len() - 1 {
                            assert(r[fj] == rd[fj]);
                            assert(keys_of(rd)[fj] == x);
                            assert(keys_of(rd).contains(x));
                            assert(keys_of(d).contains(x));
                        }
                    }
                    assert(r[fj] == cs.last());
                    assert(cs[fi] == cs.last());
                } else {
                    assert(keys_of(d).contains(x)) by {
                        assert(ks.contains(x));
                    }
                    assert(fi < cs.len() - 1) by {
                        if fi == cs.len() - 1 {
                            assert(ks[fi] == cs.last().0);
                        }
                    }
                    assert(keys_of(d)[fi] == x);
                    assert(first_idx(keys_of(d), x) == fi) by {
                        let fd = first_idx(keys_of(d), x);
                        assert(0 <= fd < d.len() && keys_of(d)[fd] == x);
                        if fd < fi {
                            assert(ks[fd] == x);
                        }
                        if fd > fi {
                            assert(keys_of(d)[fi] != x);
                        }
                    }
                    if cs.last().0 == id {
                        assert(r == rd);
                        assert(rd[first_idx(keys_of(rd), x)].1 == d[fi].1);
                        assert(d[fi] == cs[fi]);
                    } else {
                        let fd2 = first_idx(keys_of(rd), x);
                        assert(keys_of(rd).contains(x));
                        assert(0 <= fd2 < rd.len() && keys_of(rd)[fd2] == x);
                        assert(rd[fd2].1 == d[fi].1);
                        assert(r[fd2] == rd[fd2]);
                        assert(rks[fd2] == x);
                        assert(fj == fd2) by {
                            if fj < fd2 {
                                if fj < r.len() - 1 {
                                    assert(r[fj] == rd[fj]);
                                    assert(keys_of(rd)[fj] == x);
                                }
                            }
                            if fj > fd2 {
                                assert(rks[fd2] != x);
                            }
                        }
                        assert(d[fi] == cs[fi]);
                    }
                }
            }
        }
    }
}

/// `rooms_without` keeps exactly the entries with members left, each
/// with `id` removed, keys distinct and order kept.
pub proof fn lemma_rooms_without_lookup(rs: Seq<(Seq<char>, Seq<u64>)>, id: u64)
    requires
        distinct(keys_of(rs)),
    ensures
        distinct(keys_of(rooms_without(rs, id))),
        forall|f: Seq<char>| #[trigger]
            keys_of(rooms_without(rs, id)).contains(f) <==> (keys_of(rs).contains(f)
                && remove_id(rs[first_idx(keys_of(rs), f)].1, id).len() > 0),
        forall|f: Seq<char>|
            #![trigger first_idx(keys_of(rooms_without(rs, id)), f)]
            keys_of(rooms_without(rs, id)).contains(f) ==> rooms_without(rs, id)[first_idx(
                keys_of(rooms_without(rs, id)),
                f,
            )].1 == remove_id(rs[first_idx(keys_of(rs), f)].1, id),
    decreases rs.len(),
{
    broadcast use crate::assoc::lemma_first_idx;

    let r = rooms_without(rs, id);
    let ks = keys_of(rs);
    let rks = keys_of(r);
    if rs.len() == 0 {
        assert forall|f: Seq<char>| #[trigger] rks.contains(f) <==> (ks.contains(f) && remove_id(
            rs[first_idx(ks, f)].1,
            id,
        ).len() > 0) by {
            if ks.contains(f) {
                let w = choose|i: int| 0 <= i < ks.len() && ks[i] == f;
            }
        }
    } else {
        let d = rs.drop_last();
        let k = rs.last().0;
        let msr = remove_id(rs.last().1, id);
        assert forall|i: int, j: int| 0 <= i < j < d.len() implies keys_of(d)[i] != keys_of(
            d,
        )[j] by {
            assert(ks[i] == keys_of(d)[i] && ks[j] == keys_of(d)[j]);
        }
        lemma_rooms_without_lookup(d, id);
        let rd = rooms_without(d, id);
        assert(!keys_of(d).contains(k)) by {
            if keys_of(d).contains(k) {
                let w = choose|i: int| 0 <= i < d.len() && keys_of(d)[i] == k;
                assert(ks[w] == ks[rs.len() - 1]);
            }
        }
        assert(!keys_of(rd).contains(k));
        assert(ks[rs.len() - 1] == k);
        assert(ks.contains(k));
        assert(first_idx(ks, k) == rs.len() - 1) by {
            let fi = first_idx(ks, k);
            assert(0 <= fi < ks.len() && ks[fi] == k);
            if fi < rs.len() - 1 {
                assert(keys_of(d)[fi] == k);
            }
        }
        assert forall|f: Seq<char>| f != k implies (#[trigger] ks.contains(f) <==> keys_of(
            d,
        ).contains(f)) by {
            if ks.contains(f) {
                let w = choose|i: int| 0 <= i < ks.len() && ks[i] == f;
                if w < rs.len() - 1 {
                    assert(keys_of(d)[w] == f);
                } else {
                    assert(ks[w] == k);
                }
            }
            if keys_of(d).contains(f) {
                let w = choose|i: int| 0 <= i < d.len() && keys_of(d)[i] == f;
                assert(ks[w] == f);
            }
        }
        assert forall|f: Seq<char>| f != k && ks.contains(f) implies first_idx(ks, f) == first_idx(
            keys_of(d),
            f,
        ) && rs[first_idx(ks, f)] == d[first_idx(keys_of(d), f)] by {
            let fi = first_idx(ks, f);
            assert(0 <= fi < ks.len() && ks[fi] == f);
            assert(fi < rs.len() - 1) by {
                if fi == rs.len() - 1 {
                    assert(ks[fi] == k);
                }
            }
            assert(keys_of(d)[fi] == f);
            assert(keys_of(d).contains(f));
            let fd = first_idx(keys_of(d), f);
            assert(0 <= fd < d.len() && keys_of(d)[fd] == f);
            if fd < fi {
                assert(ks[fd] == f);
            }
            if fd > fi {
                assert(keys_of(d)[fi] != f);
            }
            assert(d[fi] == rs[fi]);
        }
        if msr.len() == 0 {
            assert(r == rd);
            assert forall|f: Seq<char>| #[trigger] rks.contains(f) <==> (ks.contains(f)
                && remove_id(rs[first_idx(ks, f)].1, id).len() > 0) by {
                if f == k {
                    assert(!keys_of(rd).contains(k));
                    assert(remove_id(rs[first_idx(ks, k)].1, id).len() == 0);
                }
            }
        } else {
            assert(r == rd.push((k, msr)));
            assert(rks =~= keys_of(rd).push(k));
            assert forall|f: Seq<char>| #[trigger] rks.contains(f) <==> (keys_of(rd).contains(f)
                || k == f) by {
                if rks.contains(f) {
                    let w = choose|i: int| 0 <= i < rks.len() && rks[i] == f;
                    if w < r.len() - 1 {
                        assert(keys_of(rd)[w] == f);
                    }
                }
                if keys_of(rd).contains(f) {
                    let w = choose|i: int| 0 <= i < rd.len() && keys_of(rd)[i] == f;
                    assert(rks[w] == f);
                }
                if k == f {
                    assert(rks[r.len() - 1] == f);
                }
            }
            assert forall|i: int, j: int| 0 <= i < j < r.len() implies rks[i] != rks[j] by {
                if j < r.len() - 1 {
                    assert(keys_of(rd)[i] == rks[i] && keys_of(rd)[j] == rks[j]);
                } else {
                    assert(rks[j] == k);
                    assert(keys_of(rd)[i] == rks[i]);
                    assert(keys_of(rd).contains(rks[i]));
                }
            }
            assert forall|f: Seq<char>|
                #![trigger first_idx(rks, f)]
                rks.contains(f) implies r[first_idx(rks, f)].1 == remove_id(
                rs[first_idx(ks, f)].1,
                id,
            ) by {
                let fj = first_idx(rks, f);
                assert(0 <= fj < r.len() && rks[fj] == f);
                if f == k {
                    assert(fj == r.len() - 1) by {
                        if fj < r.len() - 1 {
                            assert(keys_of(rd)[fj] == f);
                            assert(keys_of(rd).contains(k));
                        }
                    }
                    assert(r[fj] == (k, msr));
                } else {
                    assert(keys_of(rd).contains(f));
                    let fd = first_idx(keys_of(rd), f);
                    assert(0 <= fd < rd.len() && keys_of(rd)[fd] == f);
                    assert(rks[fd] == f);
                    assert(fj == fd) by {
                        if fj < fd {
                            if fj < r.len() - 1 {
                                assert(keys_of(rd)[fj] == f);
                            } else {
                                assert(rks[fj] == k);
                            }
                        }
                        if fj > fd {
                            assert(rks[fd] != f);
                        }
                    }
                    assert(r[fj] == rd[fd]);
                    assert(rd[fd].1 == remove_id(d[first_idx(keys_of(d), f)].1, id));
                }
            }
        }
    }
}

/// Removing clients one more at the end extends `remove_all`.
pub proof fn lemma_remove_all_push(m: RegModel, ids: Seq<u64>, x: u64)
    ensures
        remove_all(m, ids.push(x)) == remove_state(remove_all(m, ids), x),
    decreases ids.len(),
{
    if ids.len() == 0 {
        assert(ids.push(x)[0] == x);
        assert(ids.push(x).skip(1) =~= Seq::<u64>::empty());
        assert(remove_all(m, ids.push(x)) == remove_all(
            remove_state(m, x),
            Seq::<u64>::empty(),
        ));
        assert(remove_all(remove_state(m, x), Seq::<u64>::empty()) == remove_state(m, x));
        assert(remove_all(m, ids) == m);
    } else {
        assert(ids.push(x)[0] == ids[0]);
        assert(ids.push(x).skip(1) =~= ids.skip(1).push(x));
        assert(remove_all(m, ids.push(x)) == remove_all(
            remove_state(m, ids[0]),
            ids.skip(1).push(x),
        ));
        assert(remove_all(m, ids) == remove_all(remove_state(m, ids[0]), ids.skip(1)));
        lemma_remove_all_push(remove_state(m, ids[0]), ids.skip(1), x);
    }
}

/// Removing a client keeps the registry well-formed.
pub proof fn lemma_remove_wf(m: RegModel, id: u64)
    requires
        m.wf(),
    ensures
        remove_state(m, id).wf(),
        !remove_state(m, id).has_client(id),
        forall|x: u64| !m.has_client(x) ==> !(#[trigger] remove_state(m, id).has_client(x)),
{
    let m2 = remove_state(m, id);
    lemma_rooms_without_lookup(m.rooms, id);
    lemma_pending_without_index(m.pending, id);
    lemma_clients_without_lookup(m.clients, id);
    // Each room row of the result is a source row with `id` removed.
    assert forall|j: int| 0 <= j < m2.rooms.len() implies {
        &&& (#[trigger] m2.rooms[j]).1 == remove_id(m.members(m2.rooms[j].0), id)
        &&& m.has_room(m2.rooms[j].0)
        &&& m2.room_idx(m2.rooms[j].0) == j
    } by {
        let f = m2.rooms[j].0;
        assert(keys_of(m2.rooms)[j] == f);
        assert(keys_of(m2.rooms).contains(f));
        lemma_first_idx_of_key(m2.rooms, j);
    }
    // Each client row of the result is a source row, key not `id`.
    assert forall|j: int| 0 <= j < m2.clients.len() implies {
        &&& (#[trigger] m2.clients[j]).1 == m.rooms_of(m2.clients[j].0)
        &&& m.has_client(m2.clients[j].0)
        &&& m2.clients[j].0 != id
        &&& m2.client_idx(m2.clients[j].0) == j
    } by {
        let x = m2.clients[j].0;
        assert(keys_of(m2.clients)[j] == x);
        assert(keys_of(m2.clients).contains(x));
        lemma_first_idx_of_key(m2.clients, j);
    }
    // Rooms: entries nonempty, members distinct.
    assert forall|j: int| 0 <= j < m2.rooms.len() implies (#[trigger] m2.rooms[j]).1.len() > 0
        && distinct(m2.rooms[j].1) by {
        let f = m2.rooms[j].0;
        assert(keys_of(m2.rooms).contains(f)) by {
            assert(keys_of(m2.rooms)[j] == f);
        }
        let fi = first_idx(keys_of(m.rooms), f);
        crate::assoc::lemma_first_idx(keys_of(m.rooms), f);
        assert(m.rooms[fi].1 == m.members(f));
        lemma_remove_id_props(m.rooms[fi].1, id);
    }
    // Pending: waiters distinct and known, names not rooms.
    assert forall|j: int| 0 <= j < m2.pending.len() implies distinct(
        (#[trigger] m2.pending[j]).1,
    ) && !m2.has_room(m2.pending[j].0) by {
        assert(m2.pending[j] == (m.pending[j].0, remove_id(m.pending[j].1, id)));
        lemma_remove_id_props(m.pending[j].1, id);
        assert(distinct(m.pending[j].1));
        let f = m.pending[j].0;
        assert(!m.has_room(f));
        if m2.has_room(f) {
            assert(keys_of(m.rooms).contains(f));
        }
    }
    assert forall|j: int, t: int|
        0 <= j < m2.pending.len() && 0 <= t < m2.pending[j].1.len() implies m2.has_client(
        #[trigger] m2.pending[j].1[t],
    ) by {
        assert(m2.pending[j] == (m.pending[j].0, remove_id(m.pending[j].1, id)));
        let y = m2.pending[j].1[t];
        lemma_remove_id_props(m.pending[j].1, id);
        assert(remove_id(m.pending[j].1, id).contains(y)) by {
            assert(remove_id(m.pending[j].1, id)[t] == y);
        }
        assert(m.pending[j].1.contains(y) && y != id);
        let w = choose|i: int| 0 <= i < m.pending[j].1.len() && m.pending[j].1[i] == y;
        assert(m.has_client(m.pending[j].1[w]));
        assert(keys_of(m2.clients).contains(y));
    }
    // Client lists distinct.
    assert forall|j: int| 0 <= j < m2.clients.len() implies distinct(
        (#[trigger] m2.clients[j]).1,
    ) by {
        let x = m2.clients[j].0;
        let fi = first_idx(keys_of(m.clients), x);
        crate::assoc::lemma_first_idx(keys_of(m.clients), x);
        assert(distinct(m.clients[fi].1));
    }
    // Consistency, forward: members are known clients listing the room.
    assert forall|j: int, t: int|
        0 <= j < m2.rooms.len() && 0 <= t < m2.rooms[j].1.len() implies m2.links(
        m2.rooms[j].0,
        #[trigger] m2.rooms[j].1[t],
    ) by {
        let f = m2.rooms[j].0;
        let x = m2.rooms[j].1[t];
        let fi = first_idx(keys_of(m.rooms), f);
        crate::assoc::lemma_first_idx(keys_of(m.rooms), f);
        lemma_remove_id_props(m.rooms[fi].1, id);
        assert(m2.rooms[j].1.contains(x)) by {
            assert(m2.rooms[j].1[t] == x);
        }
        assert(m.rooms[fi].1.contains(x) && x != id);
        let w = choose|i: int| 0 <= i < m.rooms[fi].1.len() && m.rooms[fi].1[i] == x;
        assert(m.links(m.rooms[fi].0, m.rooms[fi].1[w]));
        assert(keys_of(m2.clients).contains(x));
        assert(m2.rooms_of(x) == m.rooms_of(x)) by {
            let cj = first_idx(keys_of(m2.clients), x);
            crate::assoc::lemma_first_idx(keys_of(m2.clients), x);
            assert(m2.clients[cj].0 == x);
        }
    }
    // Consistency, backward: listed names are rooms holding the client.
    assert forall|j: int, t: int|
        0 <= j < m2.clients.len() && 0 <= t < m2.clients[j].1.len() implies m2.backs(
        #[trigger] m2.clients[j].1[t],
        m2.clients[j].0,
    ) by {
        let x = m2.clients[j].0;
        let g = m2.clients[j].1[t];
        let ci = first_idx(keys_of(m.clients), x);
        crate::assoc::lemma_first_idx(keys_of(m.clients), x);
        assert(m.clients[ci].1 == m.rooms_of(x));
        assert(m.backs(m.clients[ci].1[t], m.clients[ci].0));
        assert(m.has_room(g) && m.members(g).contains(x));
        let ri = first_idx(keys_of(m.rooms), g);
        crate::assoc::lemma_first_idx(keys_of(m.rooms), g);
        lemma_remove_id_props(m.rooms[ri].1, id);
        assert(remove_id(m.members(g), id).contains(x));
        assert(remove_id(m.members(g), id).len() > 0) by {
            let w = choose|i: int|
                0 <= i < remove_id(m.members(g), id).len() && remove_id(m.members(g), id)[i]
                    == x;
        }
        assert(keys_of(m2.rooms).contains(g));
        assert(m2.members(g) == remove_id(m.members(g), id)) by {
            let rj = first_idx(keys_of(m2.rooms), g);
            crate::assoc::lemma_first_idx(keys_of(m2.rooms), g);
        }
    }
    assert(!m2.has_client(id));
    assert forall|x: u64| !m.has_client(x) implies !(#[trigger] m2.has_client(x)) by {
        if m2.has_client(x) {
            assert(keys_of(m.clients).contains(x));
        }
    }
}

/// The registry after room/group `f` is forcibly evicted: every current
/// member is removed as in `remove_state`, which also deletes the entry.
pub open spec fn evict_state(m: RegModel, f: Seq<char>) -> RegModel {
    if m.has_room(f) {
        remove_all(m, m.members(f))
    } else {
        m
    }
}

/// The registry after a teardown directive for `f` whose re-validation
/// reported `exists`: eviction when the group is gone, no change else.
pub open spec fn teardown_state(m: RegModel, f: Seq<char>, exists: bool) -> RegModel {
    if exists {
        m
    } else {
        evict_state(m, f)
    }
}

/// Removing any batch of clients keeps the registry well-formed.
pub proof fn lemma_remove_all_wf(m: RegModel, ids: Seq<u64>)
    requires
        m.wf(),
    ensures
        remove_all(m, ids).wf(),
    decreases ids.len(),
{
    if ids.len() > 0 {
        lemma_remove_wf(m, ids[0]);
        lemma_remove_all_wf(remove_state(m, ids[0]), ids.skip(1));
    }
}

/// A teardown directive keeps the registry well-formed.
pub proof fn lemma_teardown_wf(m: RegModel, f: Seq<char>, exists: bool)
    requires
        m.wf(),
    ensures
        teardown_state(m, f, exists).wf(),
{
    if !exists && m.has_room(f) {
        lemma_remove_all_wf(m, m.members(f));
    }
}

/// Idempotent join: joining the same client to the same full name twice
/// leaves the registry — and with it the member set — exactly as after
/// the first join, which is itself well-formed.
pub proof fn lemma_join_idempotent(
    m: RegModel,
    broadcast: bool,
    has_url: bool,
    f: Seq<char>,
    id: u64,
)
    requires
        m.wf(),
    ensures
        join_state(join_state(m, broadcast, has_url, f, id), broadcast, has_url, f, id)
            == join_state(m, broadcast, has_url, f, id),
        join_state(m, broadcast, has_url, f, id).wf(),
{
    lemma_with_client_wf(m, id);
    lemma_join_wf(m, broadcast, has_url, f, id);
    let m1 = with_client(m, id);
    let once = join_state(m, broadcast, has_url, f, id);
    if m.has_room(f) {
        if m.members(f).contains(id) {
            assert(once == m1);
            assert(once.has_room(f) && once.members(f) == m.members(f));
            assert(with_client(once, id) == once);
        } else {
            lemma_add_member_wf(m1, f, id);
            assert(once == add_member(m1, f, id));
            assert(once.has_room(f));
            assert(once.members(f).contains(id)) by {
                assert(once.members(f)[m.members(f).len() as int] == id);
            }
            assert(once.has_client(id));
            assert(with_client(once, id) == once);
        }
    } else if m.has_pending(f) {
        if m.waiters(f).contains(id) {
            assert(once == m1);
            assert(!once.has_room(f));
            assert(once.has_pending(f) && once.waiters(f) == m.waiters(f));
            assert(with_client(once, id) == once);
        } else {
            lemma_add_waiter_wf(m1, f, id);
            assert(once == add_waiter(m1, f, id));
            assert(!once.has_room(f));
            assert(once.has_pending(f));
            assert(once.waiters(f).contains(id)) by {
                assert(once.waiters(f)[m.waiters(f).len() as int] == id);
            }
            assert(once.has_client(id));
            assert(with_client(once, id) == once);
        }
    } else if broadcast {
        lemma_create_room_wf(m1, f, id);
        assert(once == create_room(m1, f, id));
        assert(once.has_room(f));
        assert(once.members(f).contains(id)) by {
            assert(once.members(f)[0] == id);
        }
        assert(once.has_client(id));
        assert(with_client(once, id) == once);
    } else if has_url {
        lemma_open_pending_wf(m1, f, id);
        assert(once == open_pending(m1, f, id));
        assert(!once.has_room(f));
        assert(once.has_pending(f));
        assert(once.waiters(f).contains(id)) by {
            assert(once.waiters(f)[0] == id);
        }
        assert(once.has_client(id));
        assert(with_client(once, id) == once);
    } else {
        assert(once == m1);
        assert(!once.has_room(f) && !once.has_pending(f));
        assert(with_client(once, id) == once);
    }
}

/// Single admission check: once a join attempt has been told to run the
/// remote existence check for a full name, any further join attempt for
/// that same name — by any client, under any room kind — is answered
/// from the pending marker: no second check is requested, and no room
/// entry for the name exists until the check is resolved.
pub proof fn lemma_single_admission(
    m: RegModel,
    b1: bool,
    u1: bool,
    f: Seq<char>,
    id1: u64,
    b2: bool,
    u2: bool,
    id2: u64,
)
    requires
        m.wf(),
        join_outcome(m, b1, u1, f, id1) == JoinOutcome::NeedsRemoteCheck,
    ensures
        join_outcome(join_state(m, b1, u1, f, id1), b2, u2, f, id2) == JoinOutcome::Pending,
        !join_state(m, b1, u1, f, id1).has_room(f),
        !join_state(join_state(m, b1, u1, f, id1), b2, u2, f, id2).has_room(f),
{
    lemma_with_client_wf(m, id1);
    let mw = with_client(m, id1);
    lemma_open_pending_wf(mw, f, id1);
    let m1 = join_state(m, b1, u1, f, id1);
    assert(m1 == open_pending(mw, f, id1));
    assert(m1.has_pending(f));
    assert(!m1.has_room(f));
    lemma_join_wf(m, b1, u1, f, id1);
    lemma_with_client_wf(m1, id2);
    let m2 = join_state(m1, b2, u2, f, id2);
    assert(m2.rooms == m1.rooms);
}

/// The clients index never gains an entry through removals.
proof fn lemma_remove_all_no_client(m: RegModel, ids: Seq<u64>, x: u64)
    requires
        !m.has_client(x),
    ensures
        !remove_all(m, ids).has_client(x),
    decreases ids.len(),
{
    if ids.len() > 0 {
        lemma_clients_without_lookup(m.clients, ids[0]);
        assert(!remove_state(m, ids[0]).has_client(x));
        lemma_remove_all_no_client(remove_state(m, ids[0]), ids.skip(1), x);
    }
}

/// A client named in the batch is gone once the batch is removed.
proof fn lemma_remove_all_clients_gone(m: RegModel, ids: Seq<u64>, x: u64)
    requires
        ids.contains(x),
    ensures
        !remove_all(m, ids).has_client(x),
    decreases ids.len(),
{
    if ids[0] == x {
        lemma_clients_without_lookup(m.clients, x);
        assert(!remove_state(m, x).has_client(x));
        lemma_remove_all_no_client(remove_state(m, x), ids.skip(1), x);
    } else {
        assert(ids.skip(1).contains(x)) by {
            let w = choose|i: int| 0 <= i < ids.len() && ids[i] == x;
            assert(ids.skip(1)[w - 1] == x);
        }
        lemma_remove_all_clients_gone(remove_state(m, ids[0]), ids.skip(1), x);
    }
}

/// After removing every client in `ids`, a room whose members all stood
/// in `ids` is gone.
proof fn lemma_remove_all_room_gone(m: RegModel, f: Seq<char>, ids: Seq<u64>)
    requires
        m.wf(),
        m.has_room(f) ==> forall|x: u64| m.members(f).contains(x) ==> #[trigger] ids.contains(x),
    ensures
        !remove_all(m, ids).has_room(f),
    decreases ids.len(),
{
    broadcast use crate::assoc::lemma_first_idx;

    if ids.len() == 0 {
        if m.has_room(f) {
            let ri = m.room_idx(f);
            assert(0 <= ri < m.rooms.len() && keys_of(m.rooms)[ri] == f);
            assert(m.rooms[ri].1.len() > 0);
            let y = m.members(f)[0];
            assert(m.members(f).contains(y));
            assert(ids.contains(y));
        }
    } else {
        let m2 = remove_state(m, ids[0]);
        lemma_remove_wf(m, ids[0]);
        lemma_rooms_without_lookup(m.rooms, ids[0]);
        if m.has_room(f) {
            if m2.has_room(f) {
                assert(m2.members(f) == remove_id(m.members(f), ids[0])) by {
                    let rj = first_idx(keys_of(m2.rooms), f);
                    crate::assoc::lemma_first_idx(keys_of(m2.rooms), f);
                }
                lemma_remove_id_props(m.members(f), ids[0]);
                assert forall|x: u64| m2.members(f).contains(x) implies #[trigger] ids.skip(
                    1,
                ).contains(x) by {
                    assert(m.members(f).contains(x) && x != ids[0]);
                    assert(ids.contains(x));
                    let w = choose|i: int| 0 <= i < ids.len() && ids[i] == x;
                    assert(w != 0);
                    assert(ids.skip(1)[w - 1] == x);
                }
            }
        } else {
            assert(!m2.has_room(f)) by {
                if m2.has_room(f) {
                    assert(keys_of(m.rooms).contains(f));
                }
            }
        }
        lemma_remove_all_room_gone(m2, f, ids.skip(1));
    }
}

/// Teardown eviction: when the re-validation of room/group `f` reports
/// non-existence, the whole group goes. The entry is deleted, and every
/// former member is gone from the clients index, exactly as if each had
/// been removed individually.
pub proof fn lemma_teardown_evicts(m: RegModel, f: Seq<char>)
    requires
        m.wf(),
        m.has_room(f),
    ensures
        !teardown_state(m, f, false).has_room(f),
        forall|x: u64|
            m.members(f).contains(x) ==> !(#[trigger] teardown_state(m, f, false).has_client(
                x,
            )),
        teardown_state(m, f, false).wf(),
{
    let ms = m.members(f);
    lemma_remove_all_wf(m, ms);
    lemma_remove_all_room_gone(m, f, ms);
    assert forall|x: u64| ms.contains(x) implies !(#[trigger] teardown_state(
        m,
        f,
        false,
    ).has_client(x)) by {
        lemma_remove_all_clients_gone(m, ms, x);
    }
}

/// One operation on the registry: a join attempt, the resolution of an
/// in-flight admission check, a client removal, or a teardown directive.
pub ghost enum RegOp {
    Join { broadcast: bool, has_url: bool, full: Seq<char>, id: u64 },
    Resolve { full: Seq<char>, exists: bool },
    Remove { id: u64 },
    Teardown { full: Seq<char>, exists: bool },
}

/// The registry after one operation.
pub open spec fn apply_op(m: RegModel, op: RegOp) -> RegModel {
    match op {
        RegOp::Join { broadcast, has_url, full, id } => join_state(
            m,
            broadcast,
            has_url,
            full,
            id,
        ),
        RegOp::Resolve { full, exists } => resolve_state(m, full, exists),
        RegOp::Remove { id } => remove_state(m, id),
        RegOp::Teardown { full, exists } => teardown_state(m, full, exists),
    }
}

/// The registry after a sequence of operations, applied in order.
pub open spec fn apply_ops(m: RegModel, ops: Seq<RegOp>) -> RegModel
    decreases ops.len(),
{
    if ops.len() == 0 {
        m
    } else {
        apply_ops(apply_op(m, ops[0]), ops.skip(1))
    }
}

/// Membership consistency: after any sequence of joins, admission
/// resolutions, removals and teardowns, the registry stays well-formed —
/// a client id appears in a room entry's member set iff that entry's
/// name appears in the client's own list, and no room entry is ever left
/// with an empty member set.
pub proof fn lemma_ops_preserve_wf(m: RegModel, ops: Seq<RegOp>)
    requires
        m.wf(),
    ensures
        apply_ops(m, ops).wf(),
    decreases ops.len(),
{
    if ops.len() > 0 {
        match ops[0] {
            RegOp::Join { broadcast, has_url, full, id } => {
                lemma_join_wf(m, broadcast, has_url, full, id);
            },
            RegOp::Resolve { full, exists } => {
                lemma_resolve_wf(m, full, exists);
            },
            RegOp::Remove { id } => {
                lemma_remove_wf(m, id);
            },
            RegOp::Teardown { full, exists } => {
                lemma_teardown_wf(m, full, exists);
            },
        }
        lemma_ops_preserve_wf(apply_op(m, ops[0]), ops.skip(1));
    }
}

} // verus!
