//! The membership registry: two mutually consistent indexes (room/group
//! name to members, client id to names) under one ownership domain,
//! with join, removal, admission resolution, eviction and broadcast.

use vstd::prelude::*;

use crate::assoc::first_idx;
use crate::channel::{send_event, OutboundEvent};
use crate::config::RoomConfig;
use crate::model::{
    clients_without, lemma_remove_all_push, pending_without, remove_all, remove_id, rooms_without,
    add_member, evict_state, grant_names, join_outcome, join_state, keys_of, remove_state,
    resolve_state, teardown_state, with_client, JoinOutcome, RegModel,
};
use crate::resolve::RoomGroup;
use crate::text::str_eq;
use tokio::sync::mpsc::UnboundedSender;

verus! {

broadcast use crate::assoc::lemma_first_idx;

/// A client's handle as the registry sees it: its process-unique id and
/// the sending half of its outbound channel.
pub struct ClientRoom {
    /// Enqueues outbound events for this client.
    pub c: UnboundedSender<OutboundEvent>,
    /// Process-unique, never reused.
    pub global_id: u64,
}

/// A room entry: the clients currently joined.
pub struct ServerRoom {
    pub clients: Vec<ClientRoom>,
}

/// The ids of a member list, in order.
pub open spec fn ids_of(cs: Seq<ClientRoom>) -> Seq<u64> {
    cs.map_values(|c: ClientRoom| c.global_id)
}

/// The views of a name list, in order.
pub open spec fn names_of(ns: Seq<String>) -> Seq<Seq<char>> {
    ns.map_values(|s: String| s@)
}

/// The model of the room index.
pub open spec fn rooms_view(rs: Seq<(String, ServerRoom)>) -> Seq<(Seq<char>, Seq<u64>)> {
    rs.map_values(|p: (String, ServerRoom)| (p.0@, ids_of(p.1.clients@)))
}

/// The model of the pending index.
pub open spec fn pend_view(ps: Seq<(String, Vec<ClientRoom>)>) -> Seq<(Seq<char>, Seq<u64>)> {
    ps.map_values(|p: (String, Vec<ClientRoom>)| (p.0@, ids_of(p.1@)))
}

/// The model of the clients index.
pub open spec fn clients_view(cs: Seq<(u64, Vec<String>)>) -> Seq<(u64, Seq<Seq<char>>)> {
    cs.map_values(|p: (u64, Vec<String>)| (p.0, names_of(p.1@)))
}

/// The membership registry. All mutating operations keep the invariant
/// `self@.wf()`: the two indexes stay mutually consistent, no room entry
/// is ever empty, and no client belongs to a room/group twice.
pub struct Registry {
    rooms: Vec<(String, ServerRoom)>,
    pending: Vec<(String, Vec<ClientRoom>)>,
    clients: Vec<(u64, Vec<String>)>,
}

impl View for Registry {
    type V = RegModel;

    closed spec fn view(&self) -> RegModel {
        RegModel {
            rooms: rooms_view(self.rooms@),
            pending: pend_view(self.pending@),
            clients: clients_view(self.clients@),
        }
    }
}

impl Registry {
    /// An empty registry.
    pub fn new() -> (r: Self)
        ensures
            r@ == RegModel::empty(),
            r@.wf(),
    {
        let r = Registry { rooms: Vec::new(), pending: Vec::new(), clients: Vec::new() };
        proof {
            assert(r@.rooms =~= RegModel::empty().rooms);
            assert(r@.pending =~= RegModel::empty().pending);
            assert(r@.clients =~= RegModel::empty().clients);
            assert(r@ =~= RegModel::empty());
            assert(keys_of(r@.rooms) =~= Seq::<Seq<char>>::empty());
            assert(keys_of(r@.pending) =~= Seq::<Seq<char>>::empty());
            assert(keys_of(r@.clients) =~= Seq::<u64>::empty());
        }
        r
    }

    /// Index of the room entry under `f`, which is its model index.
    fn room_index(&self, f: &str) -> (r: Option<usize>)
        ensures
            r is Some <==> self@.has_room(f@),
            r matches Some(i) ==> i < self.rooms@.len() && i == self@.room_idx(f@),
    {
        let n = self.rooms.len();
        let mut i: usize = 0;
        while i < n
            invariant
                i <= n,
                n == self.rooms@.len(),
                forall|j: int| 0 <= j < i ==> self.rooms@[j].0@ != f@,
            decreases n - i,
        {
            if str_eq(self.rooms[i].0.as_str(), f) {
                proof {
                    assert(keys_of(self@.rooms)[i as int] == f@);
                    assert forall|j: int| 0 <= j < i implies keys_of(self@.rooms)[j] != f@ by {}
                    assert(first_idx(keys_of(self@.rooms), f@) == i as int);
                }
                return Some(i);
            }
            i = i + 1;
        }
        proof {
            assert forall|j: int| 0 <= j < keys_of(self@.rooms).len() implies keys_of(
                self@.rooms,
            )[j] != f@ by {}
            assert(!self@.has_room(f@));
        }
        None
    }

    /// Index of the pending marker under `f`, which is its model index.
    fn pend_index(&self, f: &str) -> (r: Option<usize>)
        ensures
            r is Some <==> self@.has_pending(f@),
            r matches Some(i) ==> i < self.pending@.len() && i == self@.pend_idx(f@),
    {
        let n = self.pending.len();
        let mut i: usize = 0;
        while i < n
            invariant
                i <= n,
                n == self.pending@.len(),
                forall|j: int| 0 <= j < i ==> self.pending@[j].0@ != f@,
            decreases n - i,
        {
            if str_eq(self.pending[i].0.as_str(), f) {
                proof {
                    assert(keys_of(self@.pending)[i as int] == f@);
                    assert forall|j: int| 0 <= j < i implies keys_of(self@.pending)[j] != f@ by {}
                    assert(first_idx(keys_of(self@.pending), f@) == i as int);
                }
                return Some(i);
            }
            i = i + 1;
        }
        proof {
            assert forall|j: int| 0 <= j < keys_of(self@.pending).len() implies keys_of(
                self@.pending,
            )[j] != f@ by {}
            assert(!self@.has_pending(f@));
        }
        None
    }

    /// Index of the clients-index entry of `id`, which is its model index.
    fn client_index(&self, id: u64) -> (r: Option<usize>)
        ensures
            r is Some <==> self@.has_client(id),
            r matches Some(i) ==> i < self.clients@.len() && i == self@.client_idx(id),
    {
        let n = self.clients.len();
        let mut i: usize = 0;
        while i < n
            invariant
                i <= n,
                n == self.clients@.len(),
                forall|j: int| 0 <= j < i ==> self.clients@[j].0 != id,
            decreases n - i,
        {
            if self.clients[i].0 == id {
                proof {
                    assert(keys_of(self@.clients)[i as int] == id);
                    assert forall|j: int| 0 <= j < i implies keys_of(self@.clients)[j] != id by {}
                    assert(first_idx(keys_of(self@.clients), id) == i as int);
                }
                return Some(i);
            }
            i = i + 1;
        }
        proof {
            assert forall|j: int| 0 <= j < keys_of(self@.clients).len() implies keys_of(
                self@.clients,
            )[j] != id by {}
            assert(!self@.has_client(id));
        }
        None
    }

    /// Index of the member with `id` in a member list.
    fn member_index(cs: &Vec<ClientRoom>, id: u64) -> (r: Option<usize>)
        ensures
            r is Some <==> ids_of(cs@).contains(id),
            r matches Some(i) ==> i < cs@.len() && cs@[i as int].global_id == id,
    {
        let n = cs.len();
        let mut i: usize = 0;
        while i < n
            invariant
                i <= n,
                n == cs@.len(),
                forall|j: int| 0 <= j < i ==> cs@[j].global_id != id,
            decreases n - i,
        {
            if cs[i].global_id == id {
                proof {
                    assert(ids_of(cs@)[i as int] == id);
                }
                return Some(i);
            }
            i = i + 1;
        }
        proof {
            assert forall|j: int| 0 <= j < ids_of(cs@).len() implies ids_of(cs@)[j] != id by {}
        }
        None
    }

    /// Join `client` to the room/group identity `rg` under configuration
    /// `conf`.
    ///
    /// An existing entry is reused and never re-checked; an in-flight
    /// admission check collects the client as a waiter; a broadcast room
    /// is admitted unconditionally; otherwise a pending marker is opened
    /// and the caller must run the remote existence check and then call
    /// `resolve_admission`. The client's index entry is created on first
    /// contact whatever the outcome. Joining twice changes nothing.
    pub fn add_client_to_rg(
        &mut self,
        conf: &RoomConfig,
        rg: &RoomGroup,
        client: ClientRoom,
    ) -> (r: JoinOutcome)
        ensures
            final(self)@ == join_state(
                old(self)@,
                conf.kind is Broadcast,
                rg@.url is Some && rg@.group is Some,
                rg@.full,
                client.global_id,
            ),
            r == join_outcome(
                old(self)@,
                conf.kind is Broadcast,
                rg@.url is Some && rg@.group is Some,
                rg@.full,
                client.global_id,
            ),
            old(self)@.wf() ==> final(self)@.wf(),
    {
        let ghost m0 = self@;
        let ghost f = rg@.full;
        proof {
            if m0.wf() {
                crate::model::lemma_join_wf(
                    m0,
                    conf.kind is Broadcast,
                    rg@.url is Some && rg@.group is Some,
                    f,
                    client.global_id,
                );
            }
        }
        let id = client.global_id;
        if self.client_index(id).is_none() {
            self.clients.push((id, Vec::new()));
            proof {
                assert(names_of(self.clients@.last().1@) =~= Seq::<Seq<char>>::empty());
                assert(self@.clients =~= with_client(m0, id).clients);
                assert(self@ =~= with_client(m0, id));
            }
        }
        let ghost m1 = self@;
        proof {
            assert(m1 == with_client(m0, id));
            assert(m1.rooms == m0.rooms);
            assert(m1.has_client(id)) by {
                if !m0.has_client(id) {
                    assert(keys_of(m1.clients)[m0.clients.len() as int] == id);
                }
            }
        }
        match self.room_index(rg.full_roomgroup.as_str()) {
            Some(i) => {
                proof {
                    assert(m0.has_room(f));
                    assert(m1.members(f) == ids_of(self.rooms@[i as int].1.clients@));
                }
                if Self::member_index(&self.rooms[i].1.clients, id).is_some() {
                    proof {
                        assert(m0.members(f).contains(id));
                    }
                    JoinOutcome::AlreadyMember
                } else {
                    proof {
                        assert(!m0.members(f).contains(id));
                    }
                    let ghost rs1 = self.rooms@;
                    let mut entry = self.rooms.remove(i);
                    entry.1.clients.push(client);
                    self.rooms.insert(i, entry);
                    proof {
                        assert(self.rooms@ =~= rs1.update(
                            i as int,
                            (rs1[i as int].0, entry.1),
                        ));
                        assert(ids_of(entry.1.clients@) =~= m1.members(f).push(id));
                        assert(self@.rooms =~= m1.rooms.update(
                            m1.room_idx(f),
                            (f, m1.members(f).push(id)),
                        ));
                        assert(self@.has_client(id) == m1.has_client(id));
                    }
                    let ci = self.client_index(id).unwrap();
                    let ghost cs1 = self.clients@;
                    let mut centry = self.clients.remove(ci);
                    centry.1.push(rg.full_roomgroup.clone());
                    self.clients.insert(ci, centry);
                    proof {
                        assert(self.clients@ =~= cs1.update(
                            ci as int,
                            (cs1[ci as int].0, centry.1),
                        ));
                        assert(names_of(centry.1@) =~= m1.rooms_of(id).push(f));
                        assert(self@.clients =~= m1.clients.update(
                            m1.client_idx(id),
                            (id, m1.rooms_of(id).push(f)),
                        ));
                        assert(self@ =~= add_member(m1, f, id));
                    }
                    JoinOutcome::Joined
                }
            },
            None => {
                proof {
                    assert(!m0.has_room(f));
                }
                match self.pend_index(rg.full_roomgroup.as_str()) {
                    Some(pi) => {
                        proof {
                            assert(m0.has_pending(f));
                            assert(m1.waiters(f) == ids_of(self.pending@[pi as int].1@));
                        }
                        if Self::member_index(&self.pending[pi].1, id).is_some() {
                            proof {
                                assert(m0.waiters(f).contains(id));
                            }
                            JoinOutcome::Pending
                        } else {
                            proof {
                                assert(!m0.waiters(f).contains(id));
                            }
                            let ghost ps1 = self.pending@;
                            let mut pentry = self.pending.remove(pi);
                            pentry.1.push(client);
                            self.pending.insert(pi, pentry);
                            proof {
                                assert(self.pending@ =~= ps1.update(
                                    pi as int,
                                    (ps1[pi as int].0, pentry.1),
                                ));
                                assert(ids_of(pentry.1@) =~= m1.waiters(f).push(id));
                                assert(self@.pending =~= m1.pending.update(
                                    m1.pend_idx(f),
                                    (f, m1.waiters(f).push(id)),
                                ));
                                assert(self@ =~= join_state(
                                    m0,
                                    conf.kind is Broadcast,
                                    rg@.url is Some && rg@.group is Some,
                                    f,
                                    id,
                                ));
                            }
                            JoinOutcome::Pending
                        }
                    },
                    None => {
                        proof {
                            assert(!m0.has_pending(f));
                        }
                        if conf.kind.is_broadcast() {
                            let mut ms: Vec<ClientRoom> = Vec::new();
                            ms.push(client);
                            let ghost rs1 = self.rooms@;
                            self.rooms.push((rg.full_roomgroup.clone(), ServerRoom { clients: ms }));
                            proof {
                                assert(ids_of(
                                    self.rooms@[rs1.len() as int].1.clients@,
                                ) =~= seq![id]);
                                assert(self@.rooms =~= m1.rooms.push((f, seq![id])));
                                assert(self@.has_client(id) == m1.has_client(id));
                                assert(self@.client_idx(id) == m1.client_idx(id));
                            }
                            let ci = self.client_index(id).unwrap();
                            let ghost cs1 = self.clients@;
                            let mut centry = self.clients.remove(ci);
                            centry.1.push(rg.full_roomgroup.clone());
                            self.clients.insert(ci, centry);
                            proof {
                                assert(self.clients@ =~= cs1.update(
                                    ci as int,
                                    (cs1[ci as int].0, centry.1),
                                ));
                                assert(names_of(centry.1@) =~= m1.rooms_of(id).push(f));
                                assert(self@.clients =~= m1.clients.update(
                                    m1.client_idx(id),
                                    (id, m1.rooms_of(id).push(f)),
                                ));
                                assert(self@ =~= join_state(
                                    m0,
                                    conf.kind is Broadcast,
                                    rg@.url is Some && rg@.group is Some,
                                    f,
                                    id,
                                ));
                            }
                            JoinOutcome::Joined
                        } else if rg.fetch_url.is_some() && rg.group.is_some() {
                            let mut ws: Vec<ClientRoom> = Vec::new();
                            ws.push(client);
                            self.pending.push((rg.full_roomgroup.clone(), ws));
                            proof {
                                assert(ids_of(
                                    self.pending@[self.pending@.len() - 1].1@,
                                ) =~= seq![id]);
                                assert(self@.pending =~= m1.pending.push((f, seq![id])));
                                assert(self@ =~= join_state(
                                    m0,
                                    conf.kind is Broadcast,
                                    rg@.url is Some && rg@.group is Some,
                                    f,
                                    id,
                                ));
                            }
                            JoinOutcome::NeedsRemoteCheck
                        } else {
                            JoinOutcome::Rejected
                        }
                    },
                }
            },
        }
    }

    /// The members of `cs` without client `id`, order kept.
    fn filter_members(cs: Vec<ClientRoom>, id: u64) -> (kept: Vec<ClientRoom>)
        ensures
            ids_of(kept@) == remove_id(ids_of(cs@), id),
    {
        let ghost cs0 = cs@;
        let mut cs = cs;
        let mut kept: Vec<ClientRoom> = Vec::new();
        let ghost mut done: int = 0;
        proof {
            assert(cs0.skip(0) =~= cs0);
            assert(cs0.take(0) =~= Seq::<ClientRoom>::empty());
            assert(ids_of(kept@) =~= remove_id(ids_of(cs0.take(0)), id));
        }
        while cs.len() > 0
            invariant
                0 <= done <= cs0.len(),
                cs@ =~= cs0.skip(done),
                ids_of(kept@) == remove_id(ids_of(cs0.take(done)), id),
            decreases cs@.len(),
        {
            let c = cs.remove(0);
            let ghost cid = c.global_id;
            proof {
                assert(c == cs0[done]);
            }
            if c.global_id != id {
                kept.push(c);
            }
            proof {
                let pre = ids_of(cs0.take(done));
                let post = ids_of(cs0.take(done + 1));
                assert(post.drop_last() =~= pre);
                assert(post.last() == cid);
                assert(remove_id(post, id) == if cid == id {
                    remove_id(pre, id)
                } else {
                    remove_id(pre, id).push(cid)
                });
                if cid != id {
                    assert(ids_of(kept@) =~= remove_id(pre, id).push(cid));
                }
                done = done + 1;
                assert(cs@ =~= cs0.skip(done));
            }
        }
        proof {
            assert(cs0.take(done) =~= cs0);
        }
        kept
    }

    /// Remove client `id`: delete its index entry, drop its id from every
    /// member set and every waiter list, and delete any room entry left
    /// empty. Removing an absent client is a no-op.
    pub fn rm_client(&mut self, id: u64)
        ensures
            final(self)@ == remove_state(old(self)@, id),
            old(self)@.wf() ==> final(self)@.wf(),
    {
        let ghost m0 = self@;
        proof {
            if m0.wf() {
                crate::model::lemma_remove_wf(m0, id);
            }
        }
        // The clients index loses the entry of `id`.
        let ghost cs0 = self.clients@;
        let mut newc: Vec<(u64, Vec<String>)> = Vec::new();
        let ghost mut done: int = 0;
        proof {
            assert(cs0.skip(0) =~= cs0);
            assert(clients_view(cs0.take(0)) =~= Seq::<(u64, Seq<Seq<char>>)>::empty());
            assert(clients_view(newc@) =~= clients_without(clients_view(cs0.take(0)), id));
        }
        while self.clients.len() > 0
            invariant
                0 <= done <= cs0.len(),
                self.clients@ =~= cs0.skip(done),
                clients_view(newc@) == clients_without(clients_view(cs0.take(done)), id),
                self.rooms@ == old(self).rooms@,
                self.pending@ == old(self).pending@,
            decreases self.clients@.len(),
        {
            let e = self.clients.remove(0);
            let ghost ev = (e.0, names_of(e.1@));
            proof {
                assert(e == cs0[done]);
            }
            let keep = e.0 != id;
            if keep {
                newc.push(e);
            }
            proof {
                let pre = clients_view(cs0.take(done));
                let post = clients_view(cs0.take(done + 1));
                assert(post.drop_last() =~= pre);
                assert(post.last() == ev);
                assert(clients_without(post, id) == if ev.0 == id {
                    clients_without(pre, id)
                } else {
                    clients_without(pre, id).push(ev)
                });
                if keep {
                    assert(clients_view(newc@) =~= clients_without(pre, id).push(ev));
                }
                done = done + 1;
                assert(self.clients@ =~= cs0.skip(done));
            }
        }
        self.clients = newc;
        proof {
            assert(cs0.take(done) =~= cs0);
        }
        // Every room entry loses `id`; entries left empty are dropped.
        let ghost rs0 = self.rooms@;
        let mut newr: Vec<(String, ServerRoom)> = Vec::new();
        let ghost mut rdone: int = 0;
        proof {
            assert(rs0.skip(0) =~= rs0);
            assert(rooms_view(rs0.take(0)) =~= Seq::<(Seq<char>, Seq<u64>)>::empty());
            assert(rooms_view(newr@) =~= rooms_without(rooms_view(rs0.take(0)), id));
        }
        while self.rooms.len() > 0
            invariant
                0 <= rdone <= rs0.len(),
                self.rooms@ =~= rs0.skip(rdone),
                rooms_view(newr@) == rooms_without(rooms_view(rs0.take(rdone)), id),
                self.pending@ == old(self).pending@,
                clients_view(self.clients@) == clients_without(clients_view(cs0), id),
            decreases self.rooms@.len(),
        {
            let e = self.rooms.remove(0);
            let ghost ev = (e.0@, ids_of(e.1.clients@));
            proof {
                assert(e == rs0[rdone]);
            }
            let kept = Self::filter_members(e.1.clients, id);
            let ghost keptv = ids_of(kept@);
            let nonempty = kept.len() > 0;
            if nonempty {
                newr.push((e.0, ServerRoom { clients: kept }));
            }
            proof {
                let pre = rooms_view(rs0.take(rdone));
                let post = rooms_view(rs0.take(rdone + 1));
                assert(post.drop_last() =~= pre);
                assert(post.last() == ev);
                assert(keptv == remove_id(ev.1, id));
                assert(keptv.len() == 0 <==> !nonempty);
                assert(rooms_without(post, id) == if remove_id(ev.1, id).len() == 0 {
                    rooms_without(pre, id)
                } else {
                    rooms_without(pre, id).push((ev.0, remove_id(ev.1, id)))
                });
                if nonempty {
                    assert(rooms_view(newr@) =~= rooms_without(pre, id).push(
                        (ev.0, remove_id(ev.1, id)),
                    ));
                }
                rdone = rdone + 1;
                assert(self.rooms@ =~= rs0.skip(rdone));
            }
        }
        self.rooms = newr;
        proof {
            assert(rs0.take(rdone) =~= rs0);
        }
        // Every pending marker loses the waiter `id`; markers stay.
        let ghost ps0 = self.pending@;
        let mut newp: Vec<(String, Vec<ClientRoom>)> = Vec::new();
        let ghost mut pdone: int = 0;
        proof {
            assert(ps0.skip(0) =~= ps0);
            assert(pend_view(ps0.take(0)) =~= Seq::<(Seq<char>, Seq<u64>)>::empty());
            assert(pend_view(newp@) =~= pending_without(pend_view(ps0.take(0)), id));
        }
        while self.pending.len() > 0
            invariant
                0 <= pdone <= ps0.len(),
                self.pending@ =~= ps0.skip(pdone),
                pend_view(newp@) == pending_without(pend_view(ps0.take(pdone)), id),
                clients_view(self.clients@) == clients_without(clients_view(cs0), id),
                rooms_view(self.rooms@) == rooms_without(rooms_view(rs0), id),
            decreases self.pending@.len(),
        {
            let e = self.pending.remove(0);
            let ghost ev = (e.0@, ids_of(e.1@));
            proof {
                assert(e == ps0[pdone]);
            }
            let kept = Self::filter_members(e.1, id);
            newp.push((e.0, kept));
            proof {
                let pre = pend_view(ps0.take(pdone));
                let post = pend_view(ps0.take(pdone + 1));
                assert(post.drop_last() =~= pre);
                assert(post.last() == ev);
                assert(pending_without(post, id) == pending_without(pre, id).push(
                    (ev.0, remove_id(ev.1, id)),
                ));
                assert(pend_view(newp@) =~= pending_without(pre, id).push(
                    (ev.0, remove_id(ev.1, id)),
                ));
                pdone = pdone + 1;
                assert(self.pending@ =~= ps0.skip(pdone));
            }
        }
        self.pending = newp;
        proof {
            assert(ps0.take(pdone) =~= ps0);
            assert(self@ =~= remove_state(m0, id));
        }
    }

    /// Resolve the in-flight admission check for `full_name`: when the
    /// check reported existence, the pending marker becomes a room entry
    /// holding every waiter, each of which now lists the name; otherwise
    /// the marker is dropped and nobody is admitted. Without a marker
    /// this is a no-op.
    pub fn resolve_admission(&mut self, full_name: &str, exists: bool)
        ensures
            final(self)@ == resolve_state(old(self)@, full_name@, exists),
            old(self)@.wf() ==> final(self)@.wf(),
    {
        let ghost m0 = self@;
        let ghost f = full_name@;
        proof {
            if m0.wf() {
                crate::model::lemma_resolve_wf(m0, f, exists);
            }
        }
        let pi = match self.pend_index(full_name) {
            None => {
                return ;
            },
            Some(pi) => pi,
        };
        let ghost ps0 = self.pending@;
        let entry = self.pending.remove(pi);
        proof {
            assert(self@.pending =~= m0.pending.remove(m0.pend_idx(f)));
        }
        let ws = entry.1;
        let ghost wids = ids_of(ws@);
        proof {
            assert(m0.waiters(f) == wids);
        }
        if exists && ws.len() > 0 {
            // Every waiter's list gains the name.
            let ghost cs0 = self.clients@;
            let n = self.clients.len();
            let mut j: usize = 0;
            while j < n
                invariant
                    j <= n,
                    n == self.clients@.len(),
                    cs0.len() == n,
                    wids == ids_of(ws@),
                    f == full_name@,
                    forall|t: int|
                        0 <= t < j ==> clients_view(self.clients@)[t] == grant_names(
                            clients_view(cs0),
                            wids,
                            f,
                        )[t],
                    forall|t: int| j <= t < n ==> self.clients@[t] == cs0[t],
                    self.rooms@ == old(self).rooms@,
                    pend_view(self.pending@) == m0.pending.remove(m0.pend_idx(f)),
                decreases n - j,
            {
                let cid = self.clients[j].0;
                let ghost cs_prev = self.clients@;
                let ghost g = grant_names(clients_view(cs0), wids, f);
                proof {
                    assert(cs_prev[j as int] == cs0[j as int]);
                }
                if Self::member_index(&ws, cid).is_some() {
                    let mut centry = self.clients.remove(j);
                    centry.1.push(full_name.to_owned());
                    self.clients.insert(j, centry);
                    proof {
                        assert(self.clients@ =~= cs_prev.update(
                            j as int,
                            (cid, centry.1),
                        ));
                        assert(names_of(centry.1@) =~= names_of(cs0[j as int].1@).push(f));
                        assert(clients_view(self.clients@)[j as int] == g[j as int]);
                    }
                } else {
                    proof {
                        assert(clients_view(self.clients@)[j as int] == g[j as int]);
                    }
                }
                proof {
                    assert forall|t: int| 0 <= t < j + 1 implies clients_view(self.clients@)[t]
                        == g[t] by {
                        if t < j {
                            assert(self.clients@[t] == cs_prev[t]);
                        }
                    }
                    assert forall|t: int| j + 1 <= t < n implies self.clients@[t] == cs0[t] by {
                        assert(self.clients@[t] == cs_prev[t]);
                    }
                }
                j = j + 1;
            }
            proof {
                assert(clients_view(self.clients@) =~= grant_names(clients_view(cs0), wids, f));
            }
            self.rooms.push((full_name.to_owned(), ServerRoom { clients: ws }));
            proof {
                assert(self@.rooms =~= m0.rooms.push((f, wids)));
                assert(self@ =~= resolve_state(m0, f, exists));
            }
        } else {
            proof {
                assert(self@ =~= resolve_state(m0, f, exists));
            }
        }
    }

    /// Forcibly evict room/group `full_name`: notify every current member
    /// with a close signal on its outbound channel, then remove each one
    /// as `rm_client` does, which deletes the entry itself. Returns the
    /// evicted ids; a name without an entry evicts nobody.
    pub fn disconnect_group(&mut self, full_name: &str) -> (evicted: Vec<u64>)
        ensures
            final(self)@ == evict_state(old(self)@, full_name@),
            old(self)@.has_room(full_name@) ==> evicted@ == old(self)@.members(full_name@),
            !old(self)@.has_room(full_name@) ==> final(self)@ == old(self)@ && evicted@.len()
                == 0,
            old(self)@.wf() ==> final(self)@.wf(),
    {
        let ghost m0 = self@;
        let ghost f = full_name@;
        proof {
            if m0.wf() {
                crate::model::lemma_teardown_wf(m0, f, false);
            }
        }
        let i = match self.room_index(full_name) {
            None => {
                return Vec::new();
            },
            Some(i) => i,
        };
        let mut ids: Vec<u64> = Vec::new();
        let cs = &self.rooms[i].1.clients;
        let n = cs.len();
        let mut k: usize = 0;
        while k < n
            invariant
                k <= n,
                n == cs@.len(),
                ids@ =~= ids_of(cs@).take(k as int),
            decreases n - k,
        {
            let _ = send_event(&cs[k].c, OutboundEvent::Close);
            ids.push(cs[k].global_id);
            k = k + 1;
        }
        proof {
            assert(ids@ =~= ids_of(cs@));
            assert(ids@ == m0.members(f));
        }
        let m = ids.len();
        let mut k2: usize = 0;
        proof {
            assert(ids@.take(0) =~= Seq::<u64>::empty());
        }
        while k2 < m
            invariant
                k2 <= m,
                m == ids@.len(),
                self@ == remove_all(m0, ids@.take(k2 as int)),
            decreases m - k2,
        {
            self.rm_client(ids[k2]);
            proof {
                assert(ids@.take(k2 as int).push(ids@[k2 as int]) =~= ids@.take(k2 + 1));
                lemma_remove_all_push(m0, ids@.take(k2 as int), ids@[k2 as int]);
            }
            k2 = k2 + 1;
        }
        proof {
            assert(ids@.take(m as int) =~= ids@);
        }
        ids
    }

    /// Act on a teardown directive for the identity `rg` whose
    /// re-validation reported `exists`: when the group is gone (or the
    /// identity carries nothing to check), evict it as `disconnect_group`
    /// does; when it still exists, do nothing. Broadcast identities carry
    /// no group or URL and are never torn down this way.
    pub fn handle_group_destruction(&mut self, rg: &RoomGroup, exists: bool) -> (evicted: Vec<
        u64,
    >)
        ensures
            rg@.group is Some && rg@.url is Some ==> final(self)@ == teardown_state(
                old(self)@,
                rg@.full,
                exists,
            ),
            !(rg@.group is Some && rg@.url is Some) || exists ==> final(self)@ == old(self)@
                && evicted@.len() == 0,
            rg@.group is Some && rg@.url is Some && !exists && old(self)@.has_room(rg@.full)
                ==> evicted@ == old(self)@.members(rg@.full),
            old(self)@.wf() ==> final(self)@.wf(),
    {
        if rg.group.is_none() || rg.fetch_url.is_none() {
            return Vec::new();
        }
        if exists {
            return Vec::new();
        }
        self.disconnect_group(rg.full_roomgroup.as_str())
    }

    /// Is there a room entry under `full_name`?
    pub fn has_group(&self, full_name: &str) -> (r: bool)
        ensures
            r == self@.has_room(full_name@),
    {
        self.room_index(full_name).is_some()
    }

    /// How many members the entry under `full_name` has; 0 without one.
    pub fn group_len(&self, full_name: &str) -> (n: usize)
        ensures
            self@.has_room(full_name@) ==> n == self@.members(full_name@).len(),
            !self@.has_room(full_name@) ==> n == 0,
    {
        match self.room_index(full_name) {
            None => 0,
            Some(i) => self.rooms[i].1.clients.len(),
        }
    }

    /// Is client `id` known to the registry?
    pub fn knows_client(&self, id: u64) -> (r: bool)
        ensures
            r == self@.has_client(id),
    {
        self.client_index(id).is_some()
    }

    /// The room/group names client `id` belongs to; empty if unknown.
    pub fn client_rooms(&self, id: u64) -> (r: Vec<String>)
        ensures
            self@.has_client(id) ==> names_of(r@) == self@.rooms_of(id),
            !self@.has_client(id) ==> r@.len() == 0,
    {
        match self.client_index(id) {
            None => Vec::new(),
            Some(i) => {
                let r = self.clients[i].1.clone();
                proof {
                    assert(names_of(r@) =~= self@.rooms_of(id));
                }
                r
            },
        }
    }

    /// Fan a payload out: send it to every current member of `group`,
    /// independently; a failed send (the member's channel is gone) does
    /// not abort delivery to the rest. Each send is a non-blocking
    /// enqueue on the member's own outbound channel, so a slow client
    /// never stalls delivery, nor a caller that holds the registry
    /// exclusively. Returns the ids delivered to, in member order:
    /// exactly the members of the group, and nobody else.
    pub fn broadcast_to_group(&self, group: &str, msg: &String) -> (sent: Vec<u64>)
        ensures
            self@.has_room(group@) ==> sent@ == self@.members(group@),
            !self@.has_room(group@) ==> sent@ == Seq::<u64>::empty(),
    {
        let mut sent: Vec<u64> = Vec::new();
        let i = match self.room_index(group) {
            None => {
                return sent;
            },
            Some(i) => i,
        };
        let cs = &self.rooms[i].1.clients;
        let n = cs.len();
        let mut k: usize = 0;
        while k < n
            invariant
                k <= n,
                n == cs@.len(),
                sent@ =~= ids_of(cs@).take(k as int),
            decreases n - k,
        {
            let _ = send_event(&cs[k].c, OutboundEvent::Text(msg.clone()));
            sent.push(cs[k].global_id);
            k = k + 1;
        }
        proof {
            assert(sent@ =~= ids_of(cs@));
            assert(self@.members(group@) == ids_of(cs@));
        }
        sent
    }
}

} // verus!
