//! The event store: the append-only per-room log of PDUs, the current-state
//! index over it, the forward extremities, the member index, and the alias
//! map.
//!
//! PDU ids are (room index, counter): the counter is the position in the
//! room's log, so consumers reading by PDU id see append order. The state
//! index always points at the latest state event of its (type, state key)
//! pair, and every event is either a forward extremity or the parent of a
//! later event.

use crate::bytes::{bytes_eq, u64_be};
use crate::json::{bytes_clone, keys_view, Json, JsonV};
use crate::pdu::{pairs_view, sigs_view, wf_pdu, Pdu, PduV};
use vstd::prelude::*;

verus! {

broadcast use vstd::std_specs::vec::group_vec_axioms;

/// One room's slice of the store.
pub struct Room {
    pub room_id: Vec<u8>,
    pub pdus: Vec<Pdu>,
    pub state: Vec<(Vec<u8>, Vec<u8>, usize)>,
    pub extremities: Vec<Vec<u8>>,
    pub members: Vec<(Vec<u8>, Vec<u8>)>,
}

pub open spec fn pdus_view(s: Seq<Pdu>) -> Seq<PduV> {
    Seq::new(
        s.len(),
        |i: int|
            if 0 <= i < s.len() {
                s[i]@
            } else {
                s[0]@
            },
    )
}

pub open spec fn state_view(s: Seq<(Vec<u8>, Vec<u8>, usize)>) -> Seq<(Seq<u8>, Seq<u8>, int)> {
    Seq::new(
        s.len(),
        |i: int|
            if 0 <= i < s.len() {
                (s[i].0@, s[i].1@, s[i].2 as int)
            } else {
                (Seq::empty(), Seq::empty(), 0int)
            },
    )
}

pub open spec fn members_view(s: Seq<(Vec<u8>, Vec<u8>)>) -> Seq<(Seq<u8>, Seq<u8>)> {
    Seq::new(
        s.len(),
        |i: int|
            if 0 <= i < s.len() {
                (s[i].0@, s[i].1@)
            } else {
                (Seq::empty(), Seq::empty())
            },
    )
}

/// The room the first binding of an alias names.
pub open spec fn alias_lookup(s: Seq<(Seq<u8>, Seq<u8>)>, alias: Seq<u8>) -> Option<Seq<u8>>
    decreases s.len(),
{
    if s.len() == 0 {
        None
    } else if s[0].0 == alias {
        Some(s[0].1)
    } else {
        alias_lookup(s.skip(1), alias)
    }
}

/// Whether the member list records the user as joined.
pub open spec fn spec_is_joined(mem: Seq<(Seq<u8>, Seq<u8>)>, user: Seq<u8>) -> bool {
    exists|u: int|
        0 <= u < mem.len() && (#[trigger] mem[u]).0 == user && mem[u].1 == crate::push::k_join()
}

/// Every joined member is listed in `out`.
pub open spec fn joined_all_listed(mem: Seq<(Seq<u8>, Seq<u8>)>, out: Seq<Seq<u8>>) -> bool {
    forall|u: int|
        0 <= u < mem.len() && (#[trigger] mem[u]).1 == crate::push::k_join() ==> out.contains(
            mem[u].0,
        )
}

/// Everything listed in `out` is a joined member.
pub open spec fn listed_all_joined(mem: Seq<(Seq<u8>, Seq<u8>)>, out: Seq<Seq<u8>>) -> bool {
    forall|t: int| 0 <= t < out.len() ==> spec_is_joined(mem, #[trigger] out[t])
}

/// Everything listed in `out` is the id of a stored room.
pub open spec fn listed_are_rooms(rooms: Seq<Room>, out: Seq<Seq<u8>>) -> bool {
    forall|t: int|
        0 <= t < out.len() ==> exists|i: int|
            0 <= i < rooms.len() && (#[trigger] rooms[i]).room_id@ == #[trigger] out[t]
}

/// Whether `pdus[i]` is a state event of the pair `(t, k)`.
pub open spec fn is_state_at(pdus: Seq<PduV>, i: int, t: Seq<u8>, k: Seq<u8>) -> bool {
    0 <= i < pdus.len() && pdus[i].kind == t && pdus[i].state_key == Some(k)
}

/// Whether an event is listed among the parents of some event in the log.
pub open spec fn is_parent(pdus: Seq<PduV>, eid: Seq<u8>) -> bool {
    exists|j: int, t: int|
        0 <= j < pdus.len() && 0 <= t < pdus[j].prev_events.len() && #[trigger] pdus[j].prev_events[t]
            == eid
}

/// The room's well-formedness: every stored PDU is well formed and carries
/// the room's id; event ids are unique; the state index lists each current
/// pair once and points at its latest occurrence; every event is a forward
/// extremity or the parent of a later event; extremities name stored
/// events; members are listed once.
pub open spec fn wf_room(r: &Room) -> bool {
    let pdus = pdus_view(r.pdus@);
    let st = state_view(r.state@);
    let ext = keys_view(r.extremities@);
    let mem = members_view(r.members@);
    &&& crate::pdu::valid_room_id(r.room_id@)
    &&& forall|i: int| 0 <= i < pdus.len() ==> wf_pdu(#[trigger] pdus[i])
    &&& forall|i: int| 0 <= i < pdus.len() ==> (#[trigger] pdus[i]).room_id == r.room_id@
    &&& forall|i: int, j: int|
        0 <= i < j < pdus.len() ==> (#[trigger] pdus[i]).event_id != (#[trigger] pdus[j]).event_id
    // state entries point at their latest occurrence
    &&& forall|e: int|
        0 <= e < st.len() ==> is_state_at(pdus, (#[trigger] st[e]).2, st[e].0, st[e].1)
    &&& forall|e: int, j: int|
        0 <= e < st.len() && st[e].2 < j < pdus.len() ==> !(#[trigger] is_state_at(
            pdus,
            j,
            (#[trigger] st[e]).0,
            st[e].1,
        ))
    // every state event has an entry for its pair
    &&& forall|j: int|
        0 <= j < pdus.len() && (#[trigger] pdus[j]).state_key is Some ==> exists|e: int|
            0 <= e < st.len() && (#[trigger] st[e]).0 == pdus[j].kind && st[e].1
                == pdus[j].state_key->Some_0
    // each pair is listed once
    &&& forall|a: int, b: int|
        0 <= a < b < st.len() ==> !((#[trigger] st[a]).0 == (#[trigger] st[b]).0 && st[a].1
            == st[b].1)
    // every event is an extremity or a parent of a later event
    &&& forall|i: int|
        0 <= i < pdus.len() ==> ext.contains((#[trigger] pdus[i]).event_id) || is_parent(
            pdus,
            pdus[i].event_id,
        )
    // extremities name stored events, once each
    &&& forall|x: int|
        0 <= x < ext.len() ==> exists|i: int|
            0 <= i < pdus.len() && (#[trigger] pdus[i]).event_id == #[trigger] ext[x]
    &&& forall|a: int, b: int| 0 <= a < b < ext.len() ==> ext[a] != ext[b]
    // members are listed once
    &&& forall|a: int, b: int| 0 <= a < b < mem.len() ==> (#[trigger] mem[a]).0 != (
    #[trigger] mem[b]).0
}

/// The durable store: rooms, the alias map, the application-service
/// registry (service id, the room its namespace covers), this server's
/// name, and the server's signing key (version, DER document), if any.
pub struct Store {
    pub rooms: Vec<Room>,
    pub aliases: Vec<(Vec<u8>, Vec<u8>)>,
    pub appservices: Vec<(Vec<u8>, Vec<u8>)>,
    pub server_name: Vec<u8>,
    pub signing_key: Option<(Vec<u8>, Vec<u8>)>,
}

impl Store {
    pub open spec fn wf(&self) -> bool {
        &&& forall|i: int| 0 <= i < self.rooms@.len() ==> wf_room(#[trigger] &self.rooms@[i])
        &&& forall|i: int, j: int|
            0 <= i < j < self.rooms@.len() ==> (#[trigger] self.rooms@[i]).room_id@ != (
            #[trigger] self.rooms@[j]).room_id@
        &&& crate::pdu::valid_server_name(self.server_name@)
        &&& self.server_name@[0] != 43u8 && self.server_name@[0] != 36u8
        // registered service ids survive the queue-key codec
        &&& forall|a: int|
            0 <= a < self.appservices@.len() ==> crate::queue::valid_destination(
                crate::queue::DestinationV::Appservice((#[trigger] pairs_view(self.appservices@)[a]).0),
            )
    }

    /// Which room holds this id.
    pub open spec fn spec_room_index(&self, room_id: Seq<u8>) -> Option<int> {
        if exists|i: int| 0 <= i < self.rooms@.len() && (#[trigger] self.rooms@[i]).room_id@
            == room_id {
            Some(
                choose|i: int|
                    0 <= i < self.rooms@.len() && (#[trigger] self.rooms@[i]).room_id@ == room_id,
            )
        } else {
            None
        }
    }

    pub fn new(server_name: Vec<u8>) -> (r: Store)
        requires
            crate::pdu::valid_server_name(server_name@),
            server_name@[0] != 43u8,
            server_name@[0] != 36u8,
        ensures
            r.wf(),
            r.rooms@.len() == 0,
            r.aliases@.len() == 0,
            r.appservices@.len() == 0,
            r.server_name@ == server_name@,
            r.signing_key is None,
    {
        Store {
            rooms: Vec::new(),
            aliases: Vec::new(),
            appservices: Vec::new(),
            server_name,
            signing_key: None,
        }
    }

    /// Configures the server's signing key: its version and the DER
    /// document of the ed25519 key pair.
    pub fn set_signing_key(&mut self, version: Vec<u8>, key_der: Vec<u8>)
        requires
            old(self).wf(),
        ensures
            final(self).wf(),
            final(self).signing_key == Some((version, key_der)),
            final(self).rooms@ == old(self).rooms@,
            final(self).aliases@ == old(self).aliases@,
            final(self).appservices@ == old(self).appservices@,
            final(self).server_name@ == old(self).server_name@,
    {
        self.signing_key = Some((version, key_der));
    }

    /// Registers an application service whose namespace covers one room.
    pub fn register_appservice(&mut self, id: Vec<u8>, room_id: Vec<u8>)
        requires
            old(self).wf(),
            crate::queue::valid_destination(crate::queue::DestinationV::Appservice(id@)),
        ensures
            final(self).wf(),
            pairs_view(final(self).appservices@) == pairs_view(old(self).appservices@).push(
                (id@, room_id@),
            ),
            final(self).rooms@ == old(self).rooms@,
            final(self).aliases@ == old(self).aliases@,
            final(self).server_name@ == old(self).server_name@,
            final(self).signing_key == old(self).signing_key,
    {
        let ghost pre = pairs_view(self.appservices@);
        self.appservices.push((id, room_id));
        proof {
            assert(pairs_view(self.appservices@) =~= pre.push(
                (self.appservices@.last().0@, self.appservices@.last().1@),
            ));
            assert forall|a: int| 0 <= a < self.appservices@.len()
                implies crate::queue::valid_destination(
                crate::queue::DestinationV::Appservice(
                    (#[trigger] pairs_view(self.appservices@)[a]).0,
                ),
            ) by {
                if a < pre.len() {
                    assert(pairs_view(self.appservices@)[a] == pre[a]);
                }
            }
        }
    }

    /// The position of a room in the store.
    pub fn room_index(&self, room_id: &Vec<u8>) -> (r: Option<usize>)
        requires
            self.wf(),
        ensures
            match r {
                Some(i) => self.spec_room_index(room_id@) == Some(i as int) && i
                    < self.rooms@.len() && self.rooms@[i as int].room_id@ == room_id@,
                None => self.spec_room_index(room_id@) is None,
            },
    {
        let mut i: usize = 0;
        while i < self.rooms.len()
            invariant
                self.wf(),
                0 <= i <= self.rooms@.len(),
                forall|t: int| 0 <= t < i ==> (#[trigger] self.rooms@[t]).room_id@ != room_id@,
            decreases self.rooms@.len() - i,
        {
            if bytes_eq(&self.rooms[i].room_id, room_id) {
                proof {
                    let j = choose|j: int|
                        0 <= j < self.rooms@.len() && (#[trigger] self.rooms@[j]).room_id@
                            == room_id@;
                    if j < i as int {
                        assert(self.rooms@[j].room_id@ != self.rooms@[i as int].room_id@);
                    } else if j > i as int {
                        assert(self.rooms@[i as int].room_id@ != self.rooms@[j].room_id@);
                    }
                }
                return Some(i);
            }
            i = i + 1;
        }
        proof {
            if exists|j: int|
                0 <= j < self.rooms@.len() && (#[trigger] self.rooms@[j]).room_id@ == room_id@ {
                let j = choose|j: int|
                    0 <= j < self.rooms@.len() && (#[trigger] self.rooms@[j]).room_id@ == room_id@;
                assert(self.rooms@[j].room_id@ != room_id@);
            }
        }
        None
    }

    /// The current state entry of a pair, as an index into the room's log.
    pub open spec fn spec_state_get(r: &Room, t: Seq<u8>, k: Seq<u8>) -> Option<int> {
        let st = state_view(r.state@);
        if exists|e: int| 0 <= e < st.len() && (#[trigger] st[e]).0 == t && st[e].1 == k {
            Some(
                (choose|e: int| 0 <= e < st.len() && (#[trigger] st[e]).0 == t && st[e].1 == k),
            )
        } else {
            None
        }
    }

    /// Looks the current state of `(t, k)` up: the latest state event of
    /// that pair in the room, by the state index.
    pub fn room_state_get(&self, room_id: &Vec<u8>, kind: &Vec<u8>, state_key: &Vec<u8>) -> (r:
        Option<Pdu>)
        requires
            self.wf(),
        ensures
            match r {
                Some(p) => {
                    let ri = self.spec_room_index(room_id@);
                    let room = &self.rooms@[ri->Some_0];
                    let e = Store::spec_state_get(room, kind@, state_key@);
                    &&& ri is Some
                    &&& e is Some
                    &&& p@ == pdus_view(room.pdus@)[state_view(room.state@)[e->Some_0].2]
                    &&& wf_pdu(p@)
                    &&& p@.kind == kind@
                    &&& p@.state_key == Some(state_key@)
                },
                None => {
                    let ri = self.spec_room_index(room_id@);
                    ri is None || Store::spec_state_get(
                        &self.rooms@[ri->Some_0],
                        kind@,
                        state_key@,
                    ) is None
                },
            },
    {
        let ri = match self.room_index(room_id) {
            Some(i) => i,
            None => {
                return None;
            },
        };
        let room = &self.rooms[ri];
        let ghost st = state_view(room.state@);
        let mut e: usize = 0;
        while e < room.state.len()
            invariant
                self.wf(),
                0 <= ri < self.rooms@.len(),
                *room == self.rooms@[ri as int],
                self.spec_room_index(room_id@) == Some(ri as int),
                0 <= e <= room.state@.len(),
                st == state_view(room.state@),
                st.len() == room.state@.len(),
                forall|t: int| 0 <= t < e ==> !((#[trigger] st[t]).0 == kind@ && st[t].1
                    == state_key@),
            decreases room.state@.len() - e,
        {
            proof {
                assert(st[e as int] == (room.state@[e as int].0@, room.state@[e as int].1@, room
                    .state@[e as int].2 as int));
            }
            if bytes_eq(&room.state[e].0, kind) && bytes_eq(&room.state[e].1, state_key) {
                let idx = room.state[e].2;
                proof {
                    assert(wf_room(room));
                    assert(is_state_at(pdus_view(room.pdus@), idx as int, st[e as int].0, st[
                        e as int].1));
                    let w = choose|w: int|
                        0 <= w < st.len() && (#[trigger] st[w]).0 == kind@ && st[w].1
                            == state_key@;
                    assert(!(w < e as int) && !(w > e as int)) by {
                        if w < e as int {
                            assert(st[w].0 != kind@ || st[w].1 != state_key@);
                        } else if w > e as int {
                            assert(!((st[e as int]).0 == (st[w]).0 && st[e as int].1 == st[w].1));
                        }
                    }
                    assert(pdus_view(room.pdus@)[idx as int] == room.pdus@[idx as int]@);
                }
                return Some(clone_pdu(&room.pdus[idx]));
            }
            e = e + 1;
        }
        proof {
            if exists|w: int| 0 <= w < st.len() && (#[trigger] st[w]).0 == kind@ && st[w].1
                == state_key@ {
                let w = choose|w: int|
                    0 <= w < st.len() && (#[trigger] st[w]).0 == kind@ && st[w].1 == state_key@;
                assert(!((st[w]).0 == kind@ && st[w].1 == state_key@));
            }
        }
        None
    }

    /// Finds a PDU by its event id, anywhere in the store.
    pub fn get_pdu(&self, event_id: &Vec<u8>) -> (r: Option<Pdu>)
        requires
            self.wf(),
        ensures
            match r {
                Some(p) => wf_pdu(p@) && p@.event_id == event_id@ && exists|ri: int, i: int|
                    0 <= ri < self.rooms@.len() && 0 <= i < self.rooms@[ri].pdus@.len() && (
                    #[trigger] self.rooms@[ri].pdus@[i])@ == p@,
                None => forall|ri: int, i: int|
                    0 <= ri < self.rooms@.len() && 0 <= i < (
                    #[trigger] self.rooms@[ri]).pdus@.len() ==> (#[trigger] self.rooms@[ri].pdus@[i])@.event_id
                        != event_id@,
            },
    {
        let mut ri: usize = 0;
        while ri < self.rooms.len()
            invariant
                0 <= ri <= self.rooms@.len(),
                self.wf(),
                forall|a: int, i: int|
                    0 <= a < ri && 0 <= i < (#[trigger] self.rooms@[a]).pdus@.len() ==> (
                    #[trigger] self.rooms@[a].pdus@[i])@.event_id != event_id@,
            decreases self.rooms@.len() - ri,
        {
            let room = &self.rooms[ri];
            let mut i: usize = 0;
            while i < room.pdus.len()
                invariant
                    0 <= i <= room.pdus@.len(),
                    self.wf(),
                    0 <= ri < self.rooms@.len(),
                    *room == self.rooms@[ri as int],
                    forall|t: int|
                        0 <= t < i ==> (#[trigger] room.pdus@[t])@.event_id != event_id@,
                decreases room.pdus@.len() - i,
            {
                if bytes_eq(&room.pdus[i].event_id, event_id) {
                    proof {
                        assert(wf_room(&self.rooms@[ri as int]));
                        assert(pdus_view(room.pdus@)[i as int] == room.pdus@[i as int]@);
                        assert(wf_pdu(room.pdus@[i as int]@));
                    }
                    return Some(clone_pdu(&room.pdus[i]));
                }
                i = i + 1;
            }
            ri = ri + 1;
        }
        None
    }

    /// The dense append index of an event inside its room, starting at 1;
    /// read receipts use it to order events without seeing PDU ids.
    pub fn get_pdu_count(&self, event_id: &Vec<u8>) -> (r: Option<u64>)
        requires
            self.wf(),
        ensures
            match r {
                Some(n) => 1 <= n && exists|ri: int|
                    0 <= ri < self.rooms@.len() && n - 1 < (
                    #[trigger] self.rooms@[ri]).pdus@.len() && self.rooms@[ri].pdus@[n - 1]@.event_id
                        == event_id@,
                None => forall|ri: int, i: int|
                    0 <= ri < self.rooms@.len() && 0 <= i < (
                    #[trigger] self.rooms@[ri]).pdus@.len() ==> (#[trigger] self.rooms@[ri].pdus@[i])@.event_id
                        != event_id@,
            },
    {
        let mut ri: usize = 0;
        while ri < self.rooms.len()
            invariant
                0 <= ri <= self.rooms@.len(),
                self.wf(),
                forall|a: int, i: int|
                    0 <= a < ri && 0 <= i < (#[trigger] self.rooms@[a]).pdus@.len() ==> (
                    #[trigger] self.rooms@[a].pdus@[i])@.event_id != event_id@,
            decreases self.rooms@.len() - ri,
        {
            let room = &self.rooms[ri];
            let mut i: usize = 0;
            while i < room.pdus.len()
                invariant
                    0 <= i <= room.pdus@.len(),
                    0 <= ri < self.rooms@.len(),
                    *room == self.rooms@[ri as int],
                    forall|t: int|
                        0 <= t < i ==> (#[trigger] room.pdus@[t])@.event_id != event_id@,
                decreases room.pdus@.len() - i,
            {
                if bytes_eq(&room.pdus[i].event_id, event_id) {
                    if i < usize::MAX && (i as u64) < u64::MAX {
                        return Some((i as u64) + 1);
                    } else {
                        return None;
                    }
                }
                i = i + 1;
            }
            ri = ri + 1;
        }
        None
    }

    /// The users whose current membership in the room is `join`.
    pub fn room_members(&self, room_id: &Vec<u8>) -> (r: Vec<Vec<u8>>)
        requires
            self.wf(),
        ensures
            ({
                let ri = self.spec_room_index(room_id@);
                match ri {
                    Some(i) => joined_all_listed(
                        members_view(self.rooms@[i].members@),
                        keys_view(r@),
                    ) && listed_all_joined(members_view(self.rooms@[i].members@), keys_view(r@)),
                    None => r@.len() == 0,
                }
            }),
    {
        let mut out: Vec<Vec<u8>> = Vec::new();
        let ri = match self.room_index(room_id) {
            Some(i) => i,
            None => {
                return out;
            },
        };
        let room = &self.rooms[ri];
        let ghost mem = members_view(room.members@);
        let join = crate::push::key_join();
        let mut i: usize = 0;
        while i < room.members.len()
            invariant
                0 <= ri < self.rooms@.len(),
                *room == self.rooms@[ri as int],
                self.spec_room_index(room_id@) == Some(ri as int),
                0 <= i <= room.members@.len(),
                mem == members_view(room.members@),
                mem.len() == room.members@.len(),
                join@ == crate::push::k_join(),
                listed_all_joined(mem, keys_view(out@)),
                forall|u: int|
                    0 <= u < i && (#[trigger] mem[u]).1 == crate::push::k_join() ==> keys_view(
                        out@,
                    ).contains(mem[u].0),
            decreases room.members@.len() - i,
        {
            proof {
                assert(mem[i as int] == (room.members@[i as int].0@, room.members@[i as int].1@));
            }
            let ghost out_old = out@;
            if bytes_eq(&room.members[i].1, &join) {
                out.push(bytes_clone(&room.members[i].0));
                proof {
                    assert(keys_view(out@)[out_old.len() as int] == mem[i as int].0);
                    assert forall|t: int| 0 <= t < keys_view(out@).len() implies spec_is_joined(
                        mem,
                        #[trigger] keys_view(out@)[t],
                    ) by {
                        if t < out_old.len() {
                            assert(keys_view(out@)[t] == keys_view(out_old)[t]);
                            assert(spec_is_joined(mem, keys_view(out_old)[t]));
                        } else {
                            assert(mem[i as int].0 == keys_view(out@)[t] && mem[i as int].1
                                == crate::push::k_join());
                        }
                    }
                    assert forall|u: int|
                        0 <= u < i + 1 && (#[trigger] mem[u]).1 == crate::push::k_join()
                        implies keys_view(out@).contains(mem[u].0) by {
                        if u < i {
                            assert(keys_view(out_old).contains(mem[u].0));
                            let t = choose|t: int|
                                0 <= t < keys_view(out_old).len() && keys_view(out_old)[t]
                                    == mem[u].0;
                            assert(keys_view(out@)[t] == mem[u].0);
                        } else {
                            assert(keys_view(out@)[out_old.len() as int] == mem[u].0);
                        }
                    }
                }
            } else {
                proof {
                    assert forall|u: int|
                        0 <= u < i + 1 && (#[trigger] mem[u]).1 == crate::push::k_join()
                        implies keys_view(out@).contains(mem[u].0) by {}
                }
            }
            i = i + 1;
        }
        proof {
            assert(room.members@ == self.rooms@[ri as int].members@);
            assert(members_view(self.rooms@[ri as int].members@) == mem);
            assert(joined_all_listed(mem, keys_view(out@)));
        }
        out
    }

    /// Whether the user's current membership in the room is `join`.
    pub fn is_joined(&self, user_id: &Vec<u8>, room_id: &Vec<u8>) -> (r: bool)
        requires
            self.wf(),
        ensures
            r == ({
                let ri = self.spec_room_index(room_id@);
                ri is Some && spec_is_joined(
                    members_view(self.rooms@[ri->Some_0].members@),
                    user_id@,
                )
            }),
    {
        let ri = match self.room_index(room_id) {
            Some(i) => i,
            None => {
                return false;
            },
        };
        let room = &self.rooms[ri];
        let ghost mem = members_view(room.members@);
        let join = crate::push::key_join();
        let mut i: usize = 0;
        while i < room.members.len()
            invariant
                0 <= ri < self.rooms@.len(),
                *room == self.rooms@[ri as int],
                self.spec_room_index(room_id@) == Some(ri as int),
                0 <= i <= room.members@.len(),
                mem == members_view(room.members@),
                mem.len() == room.members@.len(),
                join@ == crate::push::k_join(),
                forall|u: int|
                    0 <= u < i ==> !((#[trigger] mem[u]).0 == user_id@ && mem[u].1
                        == crate::push::k_join()),
            decreases room.members@.len() - i,
        {
            proof {
                assert(mem[i as int] == (room.members@[i as int].0@, room.members@[i as int].1@));
            }
            if bytes_eq(&room.members[i].0, user_id) && bytes_eq(&room.members[i].1, &join) {
                proof {
                    assert(mem[i as int].0 == user_id@ && mem[i as int].1 == crate::push::k_join());
                    assert(spec_is_joined(mem, user_id@));
                    assert(room.members@ == self.rooms@[ri as int].members@);
                    assert(members_view(self.rooms@[ri as int].members@) == mem);
                }
                return true;
            }
            i = i + 1;
        }
        proof {
            if spec_is_joined(mem, user_id@) {
                let u = choose|u: int|
                    0 <= u < mem.len() && (#[trigger] mem[u]).0 == user_id@ && mem[u].1
                        == crate::push::k_join();
                assert(!((mem[u]).0 == user_id@ && mem[u].1 == crate::push::k_join()));
            }
            assert(room.members@ == self.rooms@[ri as int].members@);
            assert(members_view(self.rooms@[ri as int].members@) == mem);
        }
        false
    }

    /// The rooms the user is joined to.
    pub fn rooms_joined(&self, user_id: &Vec<u8>) -> (r: Vec<Vec<u8>>)
        requires
            self.wf(),
        ensures
            listed_are_rooms(self.rooms@, keys_view(r@)),
    {
        let mut out: Vec<Vec<u8>> = Vec::new();
        let mut ri: usize = 0;
        while ri < self.rooms.len()
            invariant
                0 <= ri <= self.rooms@.len(),
                self.wf(),
                listed_are_rooms(self.rooms@, keys_view(out@)),
            decreases self.rooms@.len() - ri,
        {
            let ghost out_old = out@;
            if self.is_joined(user_id, &self.rooms[ri].room_id) {
                out.push(bytes_clone(&self.rooms[ri].room_id));
                proof {
                    assert(keys_view(out@)[out_old.len() as int] == self.rooms@[ri as int].room_id@);
                    assert forall|t: int| 0 <= t < keys_view(out@).len() implies exists|i: int|
                        0 <= i < self.rooms@.len() && (#[trigger] self.rooms@[i]).room_id@
                            == #[trigger] keys_view(out@)[t] by {
                        if t < out_old.len() {
                            assert(keys_view(out@)[t] == keys_view(out_old)[t]);
                            let w = choose|w: int|
                                0 <= w < self.rooms@.len() && (#[trigger] self.rooms@[w]).room_id@
                                    == keys_view(out_old)[t];
                            assert(self.rooms@[w].room_id@ == keys_view(out@)[t]);
                        } else {
                            assert(self.rooms@[ri as int].room_id@ == keys_view(out@)[t]);
                        }
                    }
                }
            }
            ri = ri + 1;
        }
        out
    }

    /// The room an alias maps to: the first binding in the table.
    pub fn id_from_alias(&self, alias: &Vec<u8>) -> (r: Option<Vec<u8>>)
        ensures
            match r {
                Some(id) => alias_lookup(pairs_view(self.aliases@), alias@) == Some(id@),
                None => alias_lookup(pairs_view(self.aliases@), alias@) is None,
            },
    {
        let ghost al = pairs_view(self.aliases@);
        let mut i: usize = 0;
        proof {
            assert(al.skip(0) =~= al);
        }
        while i < self.aliases.len()
            invariant
                0 <= i <= self.aliases@.len(),
                al == pairs_view(self.aliases@),
                al.len() == self.aliases@.len(),
                alias_lookup(al, alias@) == alias_lookup(al.skip(i as int), alias@),
            decreases self.aliases@.len() - i,
        {
            proof {
                assert(al[i as int] == (self.aliases@[i as int].0@, self.aliases@[i as int].1@));
                assert(al.skip(i as int)[0] == al[i as int]);
                assert(al.skip(i as int).skip(1) =~= al.skip(i + 1));
            }
            if bytes_eq(&self.aliases[i].0, alias) {
                return Some(bytes_clone(&self.aliases[i].1));
            }
            i = i + 1;
        }
        proof {
            assert(al.skip(i as int).len() == 0);
        }
        None
    }

    /// Binds an alias to a room.
    pub fn set_alias(&mut self, alias: Vec<u8>, room_id: Vec<u8>)
        requires
            old(self).wf(),
        ensures
            final(self).wf(),
            final(self).aliases@.len() == old(self).aliases@.len() + 1,
            pairs_view(final(self).aliases@) == pairs_view(old(self).aliases@).push(
                (alias@, room_id@),
            ),
            final(self).rooms@ == old(self).rooms@,
            final(self).server_name@ == old(self).server_name@,
    {
        let ghost pre = pairs_view(self.aliases@);
        self.aliases.push((alias, room_id));
        proof {
            assert(pairs_view(self.aliases@) =~= pre.push(
                (self.aliases@.last().0@, self.aliases@.last().1@),
            ));
        }
    }

    /// How many PDUs a room holds.
    pub fn room_len(&self, room_id: &Vec<u8>) -> (r: usize)
        requires
            self.wf(),
        ensures
            match self.spec_room_index(room_id@) {
                Some(i) => r == self.rooms@[i].pdus@.len(),
                None => r == 0,
            },
    {
        match self.room_index(room_id) {
            Some(i) => self.rooms[i].pdus.len(),
            None => 0,
        }
    }

    /// The full current state of a room: the PDUs the state index points at.
    pub fn room_state_full(&self, room_id: &Vec<u8>) -> (r: Vec<Pdu>)
        requires
            self.wf(),
        ensures
            ({
                let ri = self.spec_room_index(room_id@);
                match ri {
                    Some(i) => {
                        let room = &self.rooms@[i];
                        let st = state_view(room.state@);
                        r@.len() == st.len() && forall|t: int|
                            0 <= t < st.len() ==> (#[trigger] r@[t])@ == pdus_view(room.pdus@)[(
                            st[t]).2]
                    },
                    None => r@.len() == 0,
                }
            }),
    {
        let mut out: Vec<Pdu> = Vec::new();
        let ri = match self.room_index(room_id) {
            Some(i) => i,
            None => {
                return out;
            },
        };
        let room = &self.rooms[ri];
        let ghost st = state_view(room.state@);
        let mut e: usize = 0;
        while e < room.state.len()
            invariant
                0 <= e <= room.state@.len(),
                st == state_view(room.state@),
                st.len() == room.state@.len(),
                self.wf(),
                0 <= ri < self.rooms@.len(),
                *room == self.rooms@[ri as int],
                self.spec_room_index(room_id@) == Some(ri as int),
                out@.len() == e,
                forall|t: int|
                    0 <= t < e ==> (#[trigger] out@[t])@ == pdus_view(room.pdus@)[(st[t]).2],
            decreases room.state@.len() - e,
        {
            proof {
                assert(st[e as int] == (room.state@[e as int].0@, room.state@[e as int].1@, room
                    .state@[e as int].2 as int));
                assert(wf_room(&self.rooms@[ri as int]));
                assert(is_state_at(pdus_view(room.pdus@), st[e as int].2, st[e as int].0, st[
                    e as int].1));
                assert(pdus_view(room.pdus@)[st[e as int].2] == room.pdus@[st[e as int].2]@);
            }
            let idx = room.state[e].2;
            out.push(clone_pdu(&room.pdus[idx]));
            e = e + 1;
        }
        out
    }
}

/// The state index answers with the latest: an entry of `(t, k)` points at
/// a state event of that pair, and no later event of the room carries the
/// same pair.
pub proof fn lemma_state_index_latest(room: &Room, e: int)
    requires
        wf_room(room),
        0 <= e < state_view(room.state@).len(),
    ensures
        is_state_at(
            pdus_view(room.pdus@),
            state_view(room.state@)[e].2,
            state_view(room.state@)[e].0,
            state_view(room.state@)[e].1,
        ),
        forall|j: int|
            state_view(room.state@)[e].2 < j < pdus_view(room.pdus@).len() ==> !is_state_at(
                pdus_view(room.pdus@),
                j,
                state_view(room.state@)[e].0,
                state_view(room.state@)[e].1,
            ),
{
}

/// The forward extremities partition the room: every stored event is an
/// extremity or stands among the parents of another stored event.
pub proof fn lemma_extremities_partition(room: &Room, i: int)
    requires
        wf_room(room),
        0 <= i < pdus_view(room.pdus@).len(),
    ensures
        keys_view(room.extremities@).contains(pdus_view(room.pdus@)[i].event_id) || is_parent(
            pdus_view(room.pdus@),
            pdus_view(room.pdus@)[i].event_id,
        ),
{
}

/// A deep copy of a PDU, with the same model.
pub fn clone_pdu(p: &Pdu) -> (r: Pdu)
    ensures
        r@ == p@,
{
    let mut prev: Vec<Vec<u8>> = Vec::new();
    let mut i: usize = 0;
    while i < p.prev_events.len()
        invariant
            0 <= i <= p.prev_events@.len(),
            prev@.len() == i,
            forall|t: int| 0 <= t < i ==> (#[trigger] prev@[t])@ == p.prev_events@[t]@,
        decreases p.prev_events@.len() - i,
    {
        prev.push(bytes_clone(&p.prev_events[i]));
        i = i + 1;
    }
    let mut auth: Vec<Vec<u8>> = Vec::new();
    let mut i2: usize = 0;
    while i2 < p.auth_events.len()
        invariant
            0 <= i2 <= p.auth_events@.len(),
            auth@.len() == i2,
            forall|t: int| 0 <= t < i2 ==> (#[trigger] auth@[t])@ == p.auth_events@[t]@,
        decreases p.auth_events@.len() - i2,
    {
        auth.push(bytes_clone(&p.auth_events[i2]));
        i2 = i2 + 1;
    }
    let mut sigs: Vec<(Vec<u8>, Vec<(Vec<u8>, Vec<u8>)>)> = Vec::new();
    let mut i3: usize = 0;
    while i3 < p.signatures.len()
        invariant
            0 <= i3 <= p.signatures@.len(),
            sigs@.len() == i3,
            forall|t: int|
                0 <= t < i3 ==> (#[trigger] sigs_view(sigs@)[t]) == sigs_view(p.signatures@)[t],
        decreases p.signatures@.len() - i3,
    {
        let q = &p.signatures[i3].1;
        let mut inner: Vec<(Vec<u8>, Vec<u8>)> = Vec::new();
        let mut t: usize = 0;
        while t < q.len()
            invariant
                0 <= t <= q@.len(),
                inner@.len() == t,
                forall|u: int|
                    0 <= u < t ==> (#[trigger] pairs_view(inner@)[u]) == pairs_view(q@)[u],
            decreases q@.len() - t,
        {
            let ghost inner_old = inner@;
            inner.push((bytes_clone(&q[t].0), bytes_clone(&q[t].1)));
            proof {
                assert forall|u: int| 0 <= u < t + 1 implies (#[trigger] pairs_view(inner@)[u])
                    == pairs_view(q@)[u] by {
                    if u < t {
                        assert(inner@[u] == inner_old[u]);
                        assert(pairs_view(inner@)[u] == (inner@[u].0@, inner@[u].1@));
                        assert(pairs_view(inner_old)[u] == (inner_old[u].0@, inner_old[u].1@));
                    } else {
                        assert(pairs_view(inner@)[u] == (inner@[u].0@, inner@[u].1@));
                    }
                    assert(pairs_view(q@)[u] == (q@[u].0@, q@[u].1@));
                }
            }
            t = t + 1;
        }
        proof {
            assert(pairs_view(inner@) =~= pairs_view(q@));
        }
        let ghost sigs_old = sigs@;
        sigs.push((bytes_clone(&p.signatures[i3].0), inner));
        proof {
            assert forall|u: int| 0 <= u < i3 + 1 implies (#[trigger] sigs_view(sigs@)[u])
                == sigs_view(p.signatures@)[u] by {
                if u < i3 {
                    assert(sigs@[u] == sigs_old[u]);
                    assert(sigs_view(sigs@)[u] == (sigs@[u].0@, pairs_view(sigs@[u].1@)));
                    assert(sigs_view(sigs_old)[u] == (sigs_old[u].0@, pairs_view(sigs_old[u].1@)));
                } else {
                    assert(sigs_view(sigs@)[u] == (sigs@[u].0@, pairs_view(sigs@[u].1@)));
                    assert(sigs_view(p.signatures@)[u] == (p.signatures@[u].0@, pairs_view(
                        p.signatures@[u].1@,
                    )));
                }
            }
        }
        i3 = i3 + 1;
    }
    let r = Pdu {
        event_id: bytes_clone(&p.event_id),
        room_id: bytes_clone(&p.room_id),
        sender: bytes_clone(&p.sender),
        origin_server_ts: p.origin_server_ts,
        kind: bytes_clone(&p.kind),
        content: crate::json::json_clone(&p.content),
        state_key: match &p.state_key {
            Some(s) => Some(bytes_clone(s)),
            None => None,
        },
        prev_events: prev,
        depth: p.depth,
        auth_events: auth,
        redacts: match &p.redacts {
            Some(s) => Some(bytes_clone(s)),
            None => None,
        },
        unsigned: crate::pdu::clone_entries(&p.unsigned),
        hashes: bytes_clone(&p.hashes),
        signatures: sigs,
    };
    proof {
        assert(keys_view(r.prev_events@) =~= keys_view(p.prev_events@));
        assert(keys_view(r.auth_events@) =~= keys_view(p.auth_events@));
        assert(sigs_view(r.signatures@) =~= sigs_view(p.signatures@));
        assert(r@ =~~= p@);
    }
    r
}

} // verus!
