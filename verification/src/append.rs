//! The append pipeline: building, authorizing and appending one PDU.
//!
//! A new event takes the room's forward extremities as its parents, sits
//! one deeper than the deepest parent, names the authorizing state events,
//! and is identified by the reference hash of its canonical form. An
//! accepted append updates the state index and the member index, replaces
//! the extremities with the new event, and enqueues the event for
//! federation peers and for push fan-out.
//!
//! Admission here is membership-based: the first event of a room must be
//! its create event; afterwards a sender must be a joined member, except
//! that a user may always set their own membership.

use crate::bytes::{bytes_eq, push_u64_be, server_part};
use crate::dispatch::Dispatcher;
use crate::bytes::hex_of;
use crate::json::{
    bytes_clone, entries_view, json_clone, json_wf_check, keys_view, obj_get, obj_get_v,
    obj_keys_sorted, retain_keys_v, wf_entries, wf_json, Json, JsonV,
};
use crate::pdu::{
    allowed_keys, clone_entries, is_valid_event_id, is_valid_room_id, is_valid_server_name,
    is_valid_user_id, k_m_room_create, k_m_room_member, key_m_room_create, key_m_room_join_rules,
    key_m_room_member, key_m_room_power_levels, opt_view, pairs_view, pdu_hash_entries_v,
    spec_redact, wf_pdu, Pdu, PduV,
};
use crate::queue::{queue_key_v, Destination, DestinationV};
use crate::store::{
    is_parent, is_state_at, members_view, pdus_view, spec_is_joined, state_view, wf_room, Room,
    Store,
};
use crate::Error;
use crate::ErrorKind;
use vstd::prelude::*;

verus! {

broadcast use vstd::std_specs::vec::group_vec_axioms;

/// What a client hands the pipeline: the event type, its content, extra
/// unsigned metadata, the state key for state events, and the event to
/// redact, if any.
pub struct PduBuilder {
    pub event_type: Vec<u8>,
    pub content: Json,
    pub unsigned: Vec<(Vec<u8>, Json)>,
    pub state_key: Option<Vec<u8>>,
    pub redacts: Option<Vec<u8>>,
}

/// Whether the pipeline admits the event into an existing room: the room's
/// create event must stand, and the sender must be a joined member, unless
/// the event sets the sender's own membership. A create event is admitted
/// only as a room's first event.
pub open spec fn spec_authorized(
    room: &Room,
    kind: Seq<u8>,
    state_key: Option<Seq<u8>>,
    sender: Seq<u8>,
) -> bool {
    if kind == k_m_room_create() {
        false
    } else {
        Store::spec_state_get(room, k_m_room_create(), Seq::empty()) is Some && (spec_is_joined(
            members_view(room.members@),
            sender,
        ) || (kind == k_m_room_member() && state_key == Some(sender)))
    }
}

/// The index of the entry of `(t, k)` in the room's state index.
fn room_state_lookup(room: &Room, t: &Vec<u8>, k: &Vec<u8>) -> (r: Option<usize>)
    requires
        wf_room(room),
    ensures
        match r {
            Some(e) => Store::spec_state_get(room, t@, k@) == Some(e as int) && e
                < room.state@.len() && state_view(room.state@)[e as int].0 == t@ && state_view(
                room.state@,
            )[e as int].1 == k@ && 0 <= state_view(room.state@)[e as int].2
                < room.pdus@.len(),
            None => Store::spec_state_get(room, t@, k@) is None,
        },
{
    let ghost st = state_view(room.state@);
    let mut e: usize = 0;
    while e < room.state.len()
        invariant
            wf_room(room),
            0 <= e <= room.state@.len(),
            st == state_view(room.state@),
            st.len() == room.state@.len(),
            forall|u: int| 0 <= u < e ==> !((#[trigger] st[u]).0 == t@ && st[u].1 == k@),
        decreases room.state@.len() - e,
    {
        proof {
            assert(st[e as int] == (room.state@[e as int].0@, room.state@[e as int].1@, room
                .state@[e as int].2 as int));
        }
        if bytes_eq(&room.state[e].0, t) && bytes_eq(&room.state[e].1, k) {
            proof {
                let w = choose|w: int|
                    0 <= w < st.len() && (#[trigger] st[w]).0 == t@ && st[w].1 == k@;
                if w < e as int {
                    assert(!((st[w]).0 == t@ && st[w].1 == k@));
                } else if w > e as int {
                    assert(!((st[e as int]).0 == (st[w]).0 && st[e as int].1 == st[w].1));
                }
                assert(is_state_at(pdus_view(room.pdus@), st[e as int].2, st[e as int].0, st[
                    e as int].1));
            }
            return Some(e);
        }
        e = e + 1;
    }
    proof {
        if exists|w: int| 0 <= w < st.len() && (#[trigger] st[w]).0 == t@ && st[w].1 == k@ {
            let w = choose|w: int|
                0 <= w < st.len() && (#[trigger] st[w]).0 == t@ && st[w].1 == k@;
            assert(!((st[w]).0 == t@ && st[w].1 == k@));
        }
    }
    None
}

/// The id of the event at a log index.
fn event_id_at(room: &Room, i: usize) -> (r: Vec<u8>)
    requires
        wf_room(room),
        i < room.pdus@.len(),
    ensures
        r@ == pdus_view(room.pdus@)[i as int].event_id,
        crate::pdu::valid_event_id(r@),
{
    proof {
        assert(pdus_view(room.pdus@)[i as int] == room.pdus@[i as int]@);
        assert(wf_pdu(pdus_view(room.pdus@)[i as int]));
    }
    bytes_clone(&room.pdus[i].event_id)
}

/// Appends one valid event id to a list of valid event ids.
fn push_id(v: &mut Vec<Vec<u8>>, id: Vec<u8>)
    requires
        crate::pdu::valid_event_id(id@),
        forall|i: int|
            0 <= i < keys_view(old(v)@).len() ==> crate::pdu::valid_event_id(
                #[trigger] keys_view(old(v)@)[i],
            ),
    ensures
        keys_view(final(v)@) == keys_view(old(v)@).push(id@),
        forall|i: int|
            0 <= i < keys_view(final(v)@).len() ==> crate::pdu::valid_event_id(
                #[trigger] keys_view(final(v)@)[i],
            ),
{
    let ghost pre = keys_view(v@);
    v.push(id);
    proof {
        assert(keys_view(v@) =~= pre.push(id@));
        assert forall|i: int| 0 <= i < keys_view(v@).len() implies crate::pdu::valid_event_id(
            #[trigger] keys_view(v@)[i],
        ) by {
            if i < keys_view(v@).len() - 1 {
                assert(keys_view(v@)[i] == pre[i]);
            }
        }
    }
}

/// Whether some of the first `x` extremities names the event at `i`.
pub open spec fn parent_seen(room: &Room, x: int, i: int) -> bool {
    exists|t: int|
        0 <= t < x && #[trigger] keys_view(room.extremities@)[t] == pdus_view(
            room.pdus@,
        )[i].event_id
}

/// The parents of a new event: the room's forward extremities, with the
/// new depth one past the deepest parent. Fails exactly when a parent
/// already sits at the depth cap.
fn collect_parents(room: &Room) -> (r: Result<(Vec<Vec<u8>>, u64), Error>)
    requires
        wf_room(room),
    ensures
        match r {
            Ok(pd) => {
                &&& keys_view(pd.0@) == keys_view(room.extremities@)
                &&& (pd.0@.len() == 0 <==> pd.1 == 0)
                &&& (pd.1 as int) < crate::json::json_int_max()
                &&& (forall|i: int|
                    0 <= i < keys_view(pd.0@).len() ==> crate::pdu::valid_event_id(
                        #[trigger] keys_view(pd.0@)[i],
                    ))
                &&& depth_one_past(room, pd.1)
            },
            Err(e) => e == Error::BadDatabase && depth_maxed(room),
        },
{
    let mut prev_events: Vec<Vec<u8>> = Vec::new();
    let mut depth: u64 = 0;
    let mut x: usize = 0;
    proof {
        assert(keys_view(prev_events@) =~= keys_view(room.extremities@).subrange(0, 0));
    }
    while x < room.extremities.len()
        invariant
            wf_room(room),
            0 <= x <= room.extremities@.len(),
            prev_events@.len() == x,
            depth < crate::json::json_int_max(),
            x > 0 ==> depth > 0,
            x == 0 ==> depth == 0,
            keys_view(prev_events@) == keys_view(room.extremities@).subrange(0, x as int),
            x > 0 ==> exists|i: int|
                0 <= i < pdus_view(room.pdus@).len() && #[trigger] parent_seen(room, x as int, i)
                    && depth == pdus_view(room.pdus@)[i].depth + 1,
            forall|i: int|
                0 <= i < pdus_view(room.pdus@).len() && #[trigger] parent_seen(room, x as int, i)
                    ==> pdus_view(room.pdus@)[i].depth < depth && pdus_view(room.pdus@)[i].depth
                    < 9007199254740991,
        decreases room.extremities@.len() - x,
    {
        proof {
            assert(keys_view(room.extremities@)[x as int] == room.extremities@[x as int]@);
        }
        let eid = bytes_clone(&room.extremities[x]);
        let pi = match find_event(room, &eid) {
            Some(pi) => pi,
            None => {
                // an extremity always names a stored event
                proof {
                    let w = choose|w: int|
                        0 <= w < pdus_view(room.pdus@).len() && (#[trigger] pdus_view(
                            room.pdus@,
                        )[w]).event_id == keys_view(room.extremities@)[x as int];
                    assert(false);
                }
                return Err(Error::BadDatabase);
            },
        };
        let pd = room.pdus[pi].depth;
        proof {
            assert(pdus_view(room.pdus@)[pi as int] == room.pdus@[pi as int]@);
            assert(wf_pdu(pdus_view(room.pdus@)[pi as int]));
        }
        let updated = pd >= depth;
        if updated {
            if pd >= 9007199254740991u64 {
                proof {
                    assert(keys_view(room.extremities@).contains(
                        pdus_view(room.pdus@)[pi as int].event_id,
                    ));
                    assert(depth_maxed(room));
                }
                return Err(Error::BadDatabase);
            }
            depth = pd + 1;
        }
        prev_events.push(eid);
        proof {
            assert(keys_view(prev_events@) =~= keys_view(room.extremities@).subrange(0, x + 1));
            let pdus = pdus_view(room.pdus@);
            assert(parent_seen(room, x + 1, pi as int)) by {
                assert(keys_view(room.extremities@)[x as int] == pdus[pi as int].event_id);
            }
            if updated {
                assert(depth == pdus[pi as int].depth + 1);
            } else {
                let iw = choose|i: int|
                    0 <= i < pdus.len() && #[trigger] parent_seen(room, x as int, i) && depth
                        == pdus[i].depth + 1;
                let tw = choose|t: int|
                    0 <= t < x && #[trigger] keys_view(room.extremities@)[t] == pdus[iw].event_id;
                assert(parent_seen(room, x + 1, iw));
            }
            assert forall|i: int|
                0 <= i < pdus.len() && #[trigger] parent_seen(room, x + 1, i) implies pdus[i].depth
                < depth && pdus[i].depth < 9007199254740991 by {
                let t = choose|t: int|
                    0 <= t < x + 1 && #[trigger] keys_view(room.extremities@)[t]
                        == pdus[i].event_id;
                if t < x {
                    assert(parent_seen(room, x as int, i));
                } else {
                    // the same id stands only once in the log
                    if i != pi as int {
                        if i < pi as int {
                            assert(pdus[i].event_id != pdus[pi as int].event_id);
                        } else {
                            assert(pdus[pi as int].event_id != pdus[i].event_id);
                        }
                    }
                }
            }
        }
        x = x + 1;
    }
    proof {
        assert(keys_view(prev_events@) =~= keys_view(room.extremities@));
        let pdus = pdus_view(room.pdus@);
        let ext = keys_view(room.extremities@);
        assert forall|i: int| 0 <= i < keys_view(prev_events@).len()
            implies crate::pdu::valid_event_id(#[trigger] keys_view(prev_events@)[i]) by {
            let w = choose|w: int|
                0 <= w < pdus.len() && (#[trigger] pdus[w]).event_id == ext[i];
            assert(wf_pdu(pdus[w]));
        }
        assert forall|i: int|
            0 <= i < pdus.len() && ext.contains((#[trigger] pdus[i]).event_id)
            implies pdus[i].depth < depth by {
            let t = choose|t: int| 0 <= t < ext.len() && ext[t] == pdus[i].event_id;
            assert(parent_seen(room, x as int, i));
        }
        if ext.len() > 0 {
            let i0 = choose|i: int|
                0 <= i < pdus.len() && #[trigger] parent_seen(room, x as int, i) && depth
                    == pdus[i].depth + 1;
            let t0 = choose|t: int|
                0 <= t < x && #[trigger] keys_view(room.extremities@)[t] == pdus[i0].event_id;
            assert(ext.contains(pdus[i0].event_id));
        }
    }
    Ok((prev_events, depth))
}

/// The authorizing state events of a new event: the create event, the
/// power levels, the join rules, the sender's member event, and the
/// target's member event for a membership change.
fn select_auth_events(
    room: &Room,
    sender: &Vec<u8>,
    is_member_event: bool,
    state_key: &Option<Vec<u8>>,
    create_e: usize,
) -> (r: Vec<Vec<u8>>)
    requires
        wf_room(room),
        create_e < room.state@.len(),
        0 <= state_view(room.state@)[create_e as int].2 < room.pdus@.len(),
    ensures
        forall|i: int|
            0 <= i < keys_view(r@).len() ==> crate::pdu::valid_event_id(
                #[trigger] keys_view(r@)[i],
            ),
{
    let mut auth_events: Vec<Vec<u8>> = Vec::new();
    proof {
        assert(keys_view(auth_events@) =~= Seq::<Seq<u8>>::empty());
    }
    push_id(&mut auth_events, event_id_at(room, room.state[create_e].2));
    let empty_key: Vec<u8> = Vec::new();
    let kp = key_m_room_power_levels();
    match room_state_lookup(room, &kp, &empty_key) {
        Some(e) => {
            push_id(&mut auth_events, event_id_at(room, room.state[e].2));
        },
        None => {},
    }
    let kj = key_m_room_join_rules();
    match room_state_lookup(room, &kj, &empty_key) {
        Some(e) => {
            push_id(&mut auth_events, event_id_at(room, room.state[e].2));
        },
        None => {},
    }
    let km = key_m_room_member();
    match room_state_lookup(room, &km, sender) {
        Some(e) => {
            push_id(&mut auth_events, event_id_at(room, room.state[e].2));
        },
        None => {},
    }
    if is_member_event {
        match state_key {
            Some(sk) => {
                if !bytes_eq(sk, sender) {
                    match room_state_lookup(room, &km, sk) {
                        Some(e) => {
                            push_id(&mut auth_events, event_id_at(room, room.state[e].2));
                        },
                        None => {},
                    }
                }
            },
            None => {},
        }
    }
    auth_events
}

/// The log index of the first event with this id.
pub open spec fn spec_find_event(pdus: Seq<PduV>, eid: Seq<u8>) -> Option<int>
    decreases pdus.len(),
{
    if pdus.len() == 0 {
        None
    } else if pdus[0].event_id == eid {
        Some(0)
    } else {
        match spec_find_event(pdus.skip(1), eid) {
            Some(i) => Some(i + 1),
            None => None,
        }
    }
}

/// Where `spec_find_event` answers, the event there carries the id.
pub proof fn lemma_find_event_spec(pdus: Seq<PduV>, eid: Seq<u8>)
    ensures
        match spec_find_event(pdus, eid) {
            Some(i) => 0 <= i < pdus.len() && pdus[i].event_id == eid,
            None => forall|i: int| 0 <= i < pdus.len() ==> (#[trigger] pdus[i]).event_id != eid,
        },
    decreases pdus.len(),
{
    if pdus.len() > 0 && pdus[0].event_id != eid {
        lemma_find_event_spec(pdus.skip(1), eid);
        match spec_find_event(pdus.skip(1), eid) {
            Some(i) => {
                assert(pdus[i + 1] == pdus.skip(1)[i]);
            },
            None => {
                assert forall|i: int| 0 <= i < pdus.len() implies (#[trigger] pdus[i]).event_id
                    != eid by {
                    if i > 0 {
                        assert(pdus.skip(1)[i - 1] == pdus[i]);
                    }
                }
            },
        }
    }
}

/// The log index of an event in the room.
fn find_event(room: &Room, eid: &Vec<u8>) -> (r: Option<usize>)
    ensures
        match r {
            Some(i) => spec_find_event(pdus_view(room.pdus@), eid@) == Some(i as int) && i
                < room.pdus@.len() && pdus_view(room.pdus@)[i as int].event_id == eid@,
            None => spec_find_event(pdus_view(room.pdus@), eid@) is None && forall|i: int|
                0 <= i < room.pdus@.len() ==> (#[trigger] pdus_view(room.pdus@)[i]).event_id
                    != eid@,
        },
{
    let ghost pv = pdus_view(room.pdus@);
    let mut i: usize = 0;
    proof {
        assert(pv.skip(0) =~= pv);
    }
    let ghost full = spec_find_event(pv, eid@);
    while i < room.pdus.len()
        invariant
            0 <= i <= room.pdus@.len(),
            pv == pdus_view(room.pdus@),
            pv.len() == room.pdus@.len(),
            full == spec_find_event(pv, eid@),
            (match spec_find_event(pv.skip(i as int), eid@) {
                Some(t) => full == Some(t + i),
                None => full is None,
            }),
            forall|t: int| 0 <= t < i ==> (#[trigger] pv[t]).event_id != eid@,
        decreases room.pdus@.len() - i,
    {
        proof {
            assert(pv[i as int] == room.pdus@[i as int]@);
            assert(pv.skip(i as int)[0] == pv[i as int]);
            assert(pv.skip(i as int).skip(1) =~= pv.skip(i + 1));
        }
        if bytes_eq(&room.pdus[i].event_id, eid) {
            return Some(i);
        }
        i = i + 1;
    }
    proof {
        assert(pv.skip(i as int).len() == 0);
    }
    None
}


/// Replaces the state entry of `(t, k)` with one pointing at `idx`.
fn state_replace(
    st: &mut Vec<(Vec<u8>, Vec<u8>, usize)>,
    t: &Vec<u8>,
    k: &Vec<u8>,
    idx: usize,
)
    ensures
        state_view(final(st)@) == state_view(old(st)@).filter(
            |e: (Seq<u8>, Seq<u8>, int)| !(e.0 == t@ && e.1 == k@),
        ).push((t@, k@, idx as int)),
{
    let ghost pre = state_view(st@);
    let ghost pred = |e: (Seq<u8>, Seq<u8>, int)| !(e.0 == t@ && e.1 == k@);
    let mut out: Vec<(Vec<u8>, Vec<u8>, usize)> = Vec::new();
    let mut e: usize = 0;
    proof {
        reveal(Seq::filter);
        assert(pre.subrange(0, 0) =~= Seq::<(Seq<u8>, Seq<u8>, int)>::empty());
        assert(state_view(out@) =~= pre.subrange(0, 0).filter(pred));
    }
    while e < st.len()
        invariant
            0 <= e <= st@.len(),
            pre == state_view(st@),
            pre.len() == st@.len(),
            pred == (|e: (Seq<u8>, Seq<u8>, int)| !(e.0 == t@ && e.1 == k@)),
            state_view(out@) == pre.subrange(0, e as int).filter(pred),
        decreases st@.len() - e,
    {
        proof {
            reveal(Seq::filter);
            let now = pre.subrange(0, e + 1);
            assert(now.drop_last() =~= pre.subrange(0, e as int));
            assert(now.last() == pre[e as int]);
            assert(pre[e as int] == (st@[e as int].0@, st@[e as int].1@, st@[e as int].2 as int));
        }
        let ghost out_old = state_view(out@);
        if !(bytes_eq(&st[e].0, t) && bytes_eq(&st[e].1, k)) {
            out.push((bytes_clone(&st[e].0), bytes_clone(&st[e].1), st[e].2));
            proof {
                assert(state_view(out@) =~= out_old.push(pre[e as int]));
            }
        }
        proof {
            assert(state_view(out@) =~= pre.subrange(0, e + 1).filter(pred));
        }
        e = e + 1;
    }
    proof {
        assert(pre.subrange(0, pre.len() as int) =~= pre);
    }
    let ghost filtered = state_view(out@);
    out.push((bytes_clone(t), bytes_clone(k), idx));
    proof {
        assert(state_view(out@) =~= filtered.push((t@, k@, idx as int)));
    }
    *st = out;
}

/// Sets or clears the member entry of `user`: any prior entry goes; a new
/// membership other than leave or ban is recorded.
fn member_update(mem: &mut Vec<(Vec<u8>, Vec<u8>)>, user: &Vec<u8>, m: &Vec<u8>)
    ensures
        ({
            let filtered = members_view(old(mem)@).filter(
                |e: (Seq<u8>, Seq<u8>)| e.0 != user@,
            );
            members_view(final(mem)@) == if m@ == crate::push::k_leave() || m@
                == crate::push::k_ban() {
                filtered
            } else {
                filtered.push((user@, m@))
            }
        }),
{
    let ghost pre = members_view(mem@);
    let ghost pred = |e: (Seq<u8>, Seq<u8>)| e.0 != user@;
    let mut out: Vec<(Vec<u8>, Vec<u8>)> = Vec::new();
    let mut e: usize = 0;
    proof {
        reveal(Seq::filter);
        assert(pre.subrange(0, 0) =~= Seq::<(Seq<u8>, Seq<u8>)>::empty());
        assert(members_view(out@) =~= pre.subrange(0, 0).filter(pred));
    }
    while e < mem.len()
        invariant
            0 <= e <= mem@.len(),
            pre == members_view(mem@),
            pre.len() == mem@.len(),
            pred == (|e: (Seq<u8>, Seq<u8>)| e.0 != user@),
            members_view(out@) == pre.subrange(0, e as int).filter(pred),
        decreases mem@.len() - e,
    {
        proof {
            reveal(Seq::filter);
            let now = pre.subrange(0, e + 1);
            assert(now.drop_last() =~= pre.subrange(0, e as int));
            assert(now.last() == pre[e as int]);
            assert(pre[e as int] == (mem@[e as int].0@, mem@[e as int].1@));
        }
        let ghost out_old = members_view(out@);
        if !bytes_eq(&mem[e].0, user) {
            out.push((bytes_clone(&mem[e].0), bytes_clone(&mem[e].1)));
            proof {
                assert(members_view(out@) =~= out_old.push(pre[e as int]));
            }
        }
        proof {
            assert(members_view(out@) =~= pre.subrange(0, e + 1).filter(pred));
        }
        e = e + 1;
    }
    proof {
        assert(pre.subrange(0, pre.len() as int) =~= pre);
    }
    let kl = crate::push::key_leave();
    let kb = crate::push::key_ban();
    let ghost filtered = members_view(out@);
    if !bytes_eq(m, &kl) && !bytes_eq(m, &kb) {
        out.push((bytes_clone(user), bytes_clone(m)));
        proof {
            assert(members_view(out@) =~= filtered.push((user@, m@)));
        }
    }
    *mem = out;
}

/// The membership string of a member event's content.
fn read_membership(content: &Json) -> (r: Result<Vec<u8>, Error>)
    ensures
        match r {
            Ok(m) => content_membership(content@) == Some(m@),
            Err(e) => e == Error::BadRequest(ErrorKind::BadJson) && content_membership(
                content@,
            ) is None,
        },
{
    let entries = match crate::json::as_obj(content) {
        Some(o) => o,
        None => {
            return Err(Error::BadRequest(ErrorKind::BadJson));
        },
    };
    match obj_get(entries, &crate::push::key_membership()) {
        Some(v) => match crate::json::as_str(v) {
            Some(mv) => Ok(bytes_clone(mv)),
            None => Err(Error::BadRequest(ErrorKind::BadJson)),
        },
        None => Err(Error::BadRequest(ErrorKind::BadJson)),
    }
}

/// Two events that agree on every hashed field have the same hash entries.
proof fn lemma_hash_entries_agree(a: PduV, b: PduV)
    requires
        a.content == b.content,
        a.kind == b.kind,
        a.room_id == b.room_id,
        a.sender == b.sender,
        a.origin_server_ts == b.origin_server_ts,
        a.state_key == b.state_key,
        a.prev_events == b.prev_events,
        a.depth == b.depth,
        a.auth_events == b.auth_events,
        a.redacts == b.redacts,
        a.hashes == b.hashes,
    ensures
        pdu_hash_entries_v(a) == pdu_hash_entries_v(b),
{
    assert(pdu_hash_entries_v(a) =~= pdu_hash_entries_v(b));
}

/// Projecting the content by the redaction allow list keeps the event
/// well formed: the filtered object stays sorted and its values stay
/// well formed, and every other field is untouched.
proof fn lemma_wf_retained(np: PduV, np_sign: PduV)
    requires
        wf_pdu(np),
        np_sign == (PduV {
            content: JsonV::Obj(retain_keys_v(np.content->Obj_0, allowed_keys(np.kind))),
            ..np
        }),
    ensures
        wf_pdu(np_sign),
{
    let c0 = np.content->Obj_0;
    let pred = |e: (Seq<u8>, JsonV)| allowed_keys(np.kind).contains(e.0);
    let c1 = c0.filter(pred);
    crate::json::lemma_wf_obj_unfold(c0);
    crate::json::lemma_filter_sorted(c0, pred);
    crate::json::lemma_filter_elements(c0, pred);
    assert forall|i: int| 0 <= i < c1.len() implies wf_json(#[trigger] c1[i].1) by {
        assert(c0.contains(c1[i]));
        let t = choose|t: int| 0 <= t < c0.len() && c0[t] == c1[i];
        assert(wf_json(c0[t].1));
    }
    crate::json::lemma_wf_obj_unfold(c1);
}

/// The filter-and-push form of the state rewrite gives the membership
/// form the contract states.
proof fn lemma_state_updated_from_filter(
    ost: Seq<(Seq<u8>, Seq<u8>, int)>,
    nst: Seq<(Seq<u8>, Seq<u8>, int)>,
    kind: Seq<u8>,
    k: Seq<u8>,
    n: int,
    pred: spec_fn((Seq<u8>, Seq<u8>, int)) -> bool,
)
    requires
        forall|e: (Seq<u8>, Seq<u8>, int)| #[trigger] pred(e) == !(e.0 == kind && e.1 == k),
        nst == ost.filter(pred).push((kind, k, n)),
    ensures
        state_updated(ost, nst, kind, Some(k), n),
{
    let f = ost.filter(pred);
    crate::json::lemma_filter_membership(ost, pred, f);
    crate::json::lemma_filter_elements(ost, pred);
    assert forall|e: int| 0 <= e < nst.len() - 1 implies entry_kept(
        ost,
        #[trigger] nst[e],
        kind,
        k,
    ) by {
        assert(nst[e] == f[e]);
        assert(ost.contains(f[e]));
        let w = choose|w: int| 0 <= w < ost.len() && ost[w] == f[e];
        ost.lemma_filter_pred(pred, e);
        assert(pred(f[e]));
        assert(ost[w] == nst[e] && !(nst[e].0 == kind && nst[e].1 == k));
    }
    assert forall|w: int|
        0 <= w < ost.len() && !((#[trigger] ost[w]).0 == kind && ost[w].1 == k)
        implies entry_listed(nst, ost[w]) by {
        assert(pred(ost[w]));
        assert(f.contains(ost[w]));
        let e = choose|e: int| 0 <= e < f.len() && f[e] == ost[w];
        assert(nst[e] == f[e]);
    }
}

/// Replacing one stored event by its redacted form keeps the room well
/// formed: redaction touches only `content` and `unsigned`, so every
/// identity-, state- and parent-shaped clause survives.
proof fn lemma_room_wf_after_redact(pre: &Room, post: &Room, ti: int, reason: PduV)
    requires
        wf_room(pre),
        wf_pdu(reason),
        0 <= ti < pdus_view(pre.pdus@).len(),
        pdus_view(post.pdus@) == pdus_view(pre.pdus@).update(
            ti,
            spec_redact(pdus_view(pre.pdus@)[ti], reason),
        ),
        post.room_id@ == pre.room_id@,
        post.state@ == pre.state@,
        post.extremities@ == pre.extremities@,
        post.members@ == pre.members@,
    ensures
        wf_room(post),
{
    let opdus = pdus_view(pre.pdus@);
    let pdus = pdus_view(post.pdus@);
    let old_t = opdus[ti];
    let new_t = spec_redact(old_t, reason);
    assert(wf_pdu(old_t));
    crate::pdu::lemma_redact_wf(old_t, reason);
    assert(pdus.len() == opdus.len());
    assert(forall|j: int| 0 <= j < pdus.len() && j != ti ==> pdus[j] == opdus[j]);
    assert(pdus[ti] == new_t);
    assert(new_t.event_id == old_t.event_id && new_t.kind == old_t.kind && new_t.state_key
        == old_t.state_key && new_t.room_id == old_t.room_id && new_t.prev_events
        == old_t.prev_events && new_t.depth == old_t.depth);
    assert forall|i: int| 0 <= i < pdus.len() implies wf_pdu(#[trigger] pdus[i]) by {
        if i != ti {
            assert(pdus[i] == opdus[i]);
        }
    }
    let st = state_view(post.state@);
    assert(st == state_view(pre.state@));
    assert forall|e: int| 0 <= e < st.len() implies is_state_at(
        pdus,
        (#[trigger] st[e]).2,
        st[e].0,
        st[e].1,
    ) by {
        assert(is_state_at(opdus, st[e].2, st[e].0, st[e].1));
    }
    assert forall|e: int, j: int|
        0 <= e < st.len() && st[e].2 < j < pdus.len() implies !(#[trigger] is_state_at(
        pdus,
        j,
        (#[trigger] st[e]).0,
        st[e].1,
    )) by {
        assert(!is_state_at(opdus, j, st[e].0, st[e].1));
    }
    assert forall|j: int|
        0 <= j < pdus.len() && (#[trigger] pdus[j]).state_key is Some implies exists|e: int|
        0 <= e < st.len() && (#[trigger] st[e]).0 == pdus[j].kind && st[e].1
            == pdus[j].state_key->Some_0 by {
        assert(opdus[j].state_key is Some && opdus[j].kind == pdus[j].kind
            && opdus[j].state_key == pdus[j].state_key);
    }
    let ext = keys_view(post.extremities@);
    assert forall|i: int| 0 <= i < pdus.len() implies ext.contains(
        (#[trigger] pdus[i]).event_id,
    ) || is_parent(pdus, pdus[i].event_id) by {
        if ext.contains(opdus[i].event_id) {
        } else {
            assert(is_parent(opdus, opdus[i].event_id));
            let (j, t) = choose|j: int, t: int|
                0 <= j < opdus.len() && 0 <= t < opdus[j].prev_events.len()
                    && #[trigger] opdus[j].prev_events[t] == opdus[i].event_id;
            assert(pdus[j].prev_events == opdus[j].prev_events);
            assert(pdus[j].prev_events[t] == pdus[i].event_id);
            assert(is_parent(pdus, pdus[i].event_id));
        }
    }
    assert forall|x: int| 0 <= x < ext.len() implies exists|i: int|
        0 <= i < pdus.len() && (#[trigger] pdus[i]).event_id == #[trigger] ext[x] by {
        let w = choose|w: int|
            0 <= w < opdus.len() && (#[trigger] opdus[w]).event_id == ext[x];
        assert(pdus[w].event_id == ext[x]);
    }
}

/// Appending one well-formed, non-duplicate event and updating the indexes
/// as the pipeline does keeps the room well formed: the state index keeps
/// pointing at the latest event of each pair, and every event stays an
/// extremity or a parent.
proof fn lemma_room_wf_after_append(
    pre: &Room,
    post: &Room,
    np: PduV,
    spred: spec_fn((Seq<u8>, Seq<u8>, int)) -> bool,
    mem_changed: bool,
    mpred: spec_fn((Seq<u8>, Seq<u8>)) -> bool,
    mu: Seq<u8>,
    mm: Option<Seq<u8>>,
)
    requires
        wf_room(pre),
        wf_pdu(np),
        np.room_id == pre.room_id@,
        post.room_id@ == pre.room_id@,
        pdus_view(post.pdus@) == pdus_view(pre.pdus@).push(np),
        forall|i: int|
            0 <= i < pdus_view(pre.pdus@).len() ==> (#[trigger] pdus_view(pre.pdus@)[i]).event_id
                != np.event_id,
        np.prev_events == keys_view(pre.extremities@),
        keys_view(post.extremities@) == seq![np.event_id],
        np.state_key is Some ==> (forall|e: (Seq<u8>, Seq<u8>, int)|
            #[trigger] spred(e) == !(e.0 == np.kind && e.1 == np.state_key->Some_0)),
        state_view(post.state@) == (match np.state_key {
            Some(k) => state_view(pre.state@).filter(spred).push(
                (np.kind, k, pdus_view(pre.pdus@).len() as int),
            ),
            None => state_view(pre.state@),
        }),
        !mem_changed ==> members_view(post.members@) == members_view(pre.members@),
        mem_changed ==> (forall|e: (Seq<u8>, Seq<u8>)| #[trigger] mpred(e) == (e.0 != mu)),
        mem_changed ==> members_view(post.members@) == (match mm {
            Some(m) => members_view(pre.members@).filter(mpred).push((mu, m)),
            None => members_view(pre.members@).filter(mpred),
        }),
    ensures
        wf_room(post),
{
    let opdus = pdus_view(pre.pdus@);
    let pdus = pdus_view(post.pdus@);
    let n = opdus.len() as int;
    assert(pdus[n] == np);
    assert(forall|i: int| 0 <= i < n ==> pdus[i] == opdus[i]);
    // each pdu well formed, in this room, with a fresh id
    assert(forall|i: int| 0 <= i < pdus.len() ==> wf_pdu(#[trigger] pdus[i]));
    assert(forall|i: int| 0 <= i < pdus.len() ==> (#[trigger] pdus[i]).room_id == post.room_id@);
    assert forall|i: int, j: int| 0 <= i < j < pdus.len() implies (#[trigger] pdus[i]).event_id
        != (#[trigger] pdus[j]).event_id by {
        if j < n {
        } else {
            assert(pdus[i] == opdus[i] && pdus[j] == np);
        }
    }
    // the state index
    let ost = state_view(pre.state@);
    let st = state_view(post.state@);
    match np.state_key {
        Some(k) => {
            let pred = |e: (Seq<u8>, Seq<u8>, int)| !(e.0 == np.kind && e.1 == k);
            crate::json::lemma_filter_congruent(ost, spred, pred);
            let filtered = ost.filter(pred);
            crate::json::lemma_filter_membership(ost, pred, filtered);
            crate::json::lemma_filter_elements(ost, pred);
            assert(st == filtered.push((np.kind, k, n)));
            // entries point at their latest occurrence
            assert forall|e: int| 0 <= e < st.len() implies is_state_at(
                pdus,
                (#[trigger] st[e]).2,
                st[e].0,
                st[e].1,
            ) by {
                if e < st.len() - 1 {
                    assert(st[e] == filtered[e]);
                    assert(ost.contains(filtered[e]));
                    let w = choose|w: int| 0 <= w < ost.len() && ost[w] == filtered[e];
                    assert(is_state_at(opdus, ost[w].2, ost[w].0, ost[w].1));
                    assert(pdus[st[e].2] == opdus[st[e].2]);
                } else {
                    assert(st[e] == (np.kind, k, n));
                    assert(pdus[n] == np);
                }
            }
            assert forall|e: int, j: int|
                0 <= e < st.len() && st[e].2 < j < pdus.len() implies !(#[trigger] is_state_at(
                pdus,
                j,
                (#[trigger] st[e]).0,
                st[e].1,
            )) by {
                if e < st.len() - 1 {
                    assert(st[e] == filtered[e]);
                    assert(ost.contains(filtered[e]));
                    ost.lemma_filter_pred(pred, e);
                    let w = choose|w: int| 0 <= w < ost.len() && ost[w] == filtered[e];
                    if j < n {
                        assert(!is_state_at(opdus, j, ost[w].0, ost[w].1));
                        assert(pdus[j] == opdus[j]);
                    } else {
                        // the new event's pair differs from every kept entry's
                        assert(pdus[j] == np);
                        assert(!(st[e].0 == np.kind && st[e].1 == k));
                    }
                } else {
                    assert(st[e].2 == n);
                }
            }
            // completeness
            assert forall|j: int|
                0 <= j < pdus.len() && (#[trigger] pdus[j]).state_key is Some implies exists|
                e: int,
            |
                0 <= e < st.len() && (#[trigger] st[e]).0 == pdus[j].kind && st[e].1
                    == pdus[j].state_key->Some_0 by {
                if j < n {
                    assert(pdus[j] == opdus[j]);
                    let e0 = choose|e0: int|
                        0 <= e0 < ost.len() && (#[trigger] ost[e0]).0 == opdus[j].kind && ost[
                        e0].1 == opdus[j].state_key->Some_0;
                    if ost[e0].0 == np.kind && ost[e0].1 == k {
                        assert(st[st.len() - 1] == (np.kind, k, n));
                    } else {
                        assert(filtered.contains(ost[e0]));
                        let t = choose|t: int| 0 <= t < filtered.len() && filtered[t] == ost[e0];
                        assert(st[t] == ost[e0]);
                    }
                } else {
                    assert(pdus[j] == np);
                    assert(st[st.len() - 1] == (np.kind, k, n));
                }
            }
            // each pair once
            assert(forall|a: int, b: int| 0 <= a < b < ost.len() ==> ost[a] != ost[b]) by {
                assert forall|a: int, b: int| 0 <= a < b < ost.len() implies ost[a] != ost[b] by {
                    assert(!((ost[a]).0 == (ost[b]).0 && ost[a].1 == ost[b].1));
                }
            }
            crate::json::lemma_filter_distinct_values(ost, pred);
            assert forall|a: int, b: int| 0 <= a < b < st.len() implies !((#[trigger] st[a]).0 == (
            #[trigger] st[b]).0 && st[a].1 == st[b].1) by {
                if b < st.len() - 1 {
                    assert(st[a] == filtered[a] && st[b] == filtered[b]);
                    assert(ost.contains(filtered[a]) && ost.contains(filtered[b]));
                    let wa = choose|w: int| 0 <= w < ost.len() && ost[w] == filtered[a];
                    let wb = choose|w: int| 0 <= w < ost.len() && ost[w] == filtered[b];
                    if st[a].0 == st[b].0 && st[a].1 == st[b].1 {
                        assert(filtered[a] != filtered[b]);
                        assert(wa != wb);
                        if wa < wb {
                            assert(!((ost[wa]).0 == (ost[wb]).0 && ost[wa].1 == ost[wb].1));
                        } else {
                            assert(!((ost[wb]).0 == (ost[wa]).0 && ost[wb].1 == ost[wa].1));
                        }
                    }
                } else {
                    assert(st[b] == (np.kind, k, n));
                    assert(st[a] == filtered[a]);
                    ost.lemma_filter_pred(pred, a);
                }
            }
        },
        None => {
            assert(st == ost);
            assert forall|e: int| 0 <= e < st.len() implies is_state_at(
                pdus,
                (#[trigger] st[e]).2,
                st[e].0,
                st[e].1,
            ) by {
                assert(is_state_at(opdus, st[e].2, st[e].0, st[e].1));
                assert(pdus[st[e].2] == opdus[st[e].2]);
            }
            assert forall|e: int, j: int|
                0 <= e < st.len() && st[e].2 < j < pdus.len() implies !(#[trigger] is_state_at(
                pdus,
                j,
                (#[trigger] st[e]).0,
                st[e].1,
            )) by {
                if j < n {
                    assert(!is_state_at(opdus, j, st[e].0, st[e].1));
                    assert(pdus[j] == opdus[j]);
                } else {
                    assert(pdus[j] == np);
                    assert(np.state_key is None);
                }
            }
            assert forall|j: int|
                0 <= j < pdus.len() && (#[trigger] pdus[j]).state_key is Some implies exists|
                e: int,
            |
                0 <= e < st.len() && (#[trigger] st[e]).0 == pdus[j].kind && st[e].1
                    == pdus[j].state_key->Some_0 by {
                assert(j < n);
                assert(pdus[j] == opdus[j]);
            }
        },
    }
    // extremities
    let oext = keys_view(pre.extremities@);
    let ext = keys_view(post.extremities@);
    assert(ext == seq![np.event_id]);
    assert forall|i: int| 0 <= i < pdus.len() implies ext.contains(
        (#[trigger] pdus[i]).event_id,
    ) || is_parent(pdus, pdus[i].event_id) by {
        if i < n {
            assert(pdus[i] == opdus[i]);
            if oext.contains(opdus[i].event_id) {
                let t = choose|t: int| 0 <= t < oext.len() && oext[t] == opdus[i].event_id;
                assert(np.prev_events[t] == opdus[i].event_id);
                assert(pdus[n].prev_events[t] == opdus[i].event_id);
                assert(is_parent(pdus, pdus[i].event_id));
            } else {
                assert(is_parent(opdus, opdus[i].event_id));
                let (j, t) = choose|j: int, t: int|
                    0 <= j < opdus.len() && 0 <= t < opdus[j].prev_events.len()
                        && #[trigger] opdus[j].prev_events[t] == opdus[i].event_id;
                assert(pdus[j] == opdus[j]);
                assert(pdus[j].prev_events[t] == opdus[i].event_id);
                assert(is_parent(pdus, pdus[i].event_id));
            }
        } else {
            assert(ext[0] == np.event_id);
            assert(ext.contains(pdus[i].event_id));
        }
    }
    assert forall|x: int| 0 <= x < ext.len() implies exists|i: int|
        0 <= i < pdus.len() && (#[trigger] pdus[i]).event_id == #[trigger] ext[x] by {
        assert(pdus[n].event_id == ext[x]);
    }
    // members
    let omem = members_view(pre.members@);
    let mem = members_view(post.members@);
    assert(forall|a: int, b: int| 0 <= a < b < omem.len() ==> omem[a] != omem[b]) by {
        assert forall|a: int, b: int| 0 <= a < b < omem.len() implies omem[a] != omem[b] by {
            assert((omem[a]).0 != (omem[b]).0);
        }
    }
    if mem_changed {
        {
            let u = mu;
            let pred = |e: (Seq<u8>, Seq<u8>)| e.0 != mu;
            crate::json::lemma_filter_congruent(omem, mpred, pred);
            let filtered = omem.filter(pred);
            crate::json::lemma_filter_membership(omem, pred, filtered);
            crate::json::lemma_filter_elements(omem, pred);
            crate::json::lemma_filter_distinct_values(omem, pred);
            match mm {
                Some(m) => {
                    assert(mem == filtered.push((u, m)));
                    assert forall|a: int, b: int| 0 <= a < b < mem.len() implies (
                    #[trigger] mem[a]).0 != (#[trigger] mem[b]).0 by {
                        if b < mem.len() - 1 {
                            assert(mem[a] == filtered[a] && mem[b] == filtered[b]);
                            assert(omem.contains(filtered[a]) && omem.contains(filtered[b]));
                            let wa = choose|w: int| 0 <= w < omem.len() && omem[w] == filtered[a];
                            let wb = choose|w: int| 0 <= w < omem.len() && omem[w] == filtered[b];
                            if mem[a].0 == mem[b].0 {
                                assert(filtered[a] != filtered[b]);
                                if wa < wb {
                                    assert((omem[wa]).0 != (omem[wb]).0);
                                } else if wb < wa {
                                    assert((omem[wb]).0 != (omem[wa]).0);
                                }
                            }
                        } else {
                            assert(mem[b] == (u, m));
                            assert(mem[a] == filtered[a]);
                            omem.lemma_filter_pred(pred, a);
                        }
                    }
                },
                None => {
                    assert(mem == filtered);
                    assert forall|a: int, b: int| 0 <= a < b < mem.len() implies (
                    #[trigger] mem[a]).0 != (#[trigger] mem[b]).0 by {
                        assert(filtered[a] != filtered[b]);
                        assert(omem.contains(filtered[a]) && omem.contains(filtered[b]));
                        let wa = choose|w: int| 0 <= w < omem.len() && omem[w] == filtered[a];
                        let wb = choose|w: int| 0 <= w < omem.len() && omem[w] == filtered[b];
                        if mem[a].0 == mem[b].0 {
                            if wa < wb {
                                assert((omem[wa]).0 != (omem[wb]).0);
                            } else if wb < wa {
                                assert((omem[wb]).0 != (omem[wa]).0);
                            }
                        }
                    }
                },
            }
        }
    }
}

/// What a successful preparation guarantees of the built event.
pub open spec fn prepared_ok(
    s: &Store,
    builder: &PduBuilder,
    sender: Seq<u8>,
    room_id: Seq<u8>,
    now_ms: u64,
    np: PduV,
    ri: int,
    is_create: bool,
    has_mem: bool,
) -> bool {
    &&& wf_pdu(np)
    &&& np.kind == builder.event_type@
    &&& np.content == builder.content@
    &&& np.unsigned == entries_view(builder.unsigned@)
    &&& np.state_key == opt_view(builder.state_key)
    &&& np.redacts == opt_view(builder.redacts)
    &&& np.sender == sender
    &&& np.room_id == room_id
    &&& np.origin_server_ts == now_ms
    &&& np.event_id == seq![36u8] + crate::hashes::reference_hash_of(
        crate::json::encode_json(JsonV::Obj(pdu_hash_entries_v(np))),
    )
    &&& (np.prev_events.len() == 0 <==> np.depth == 0)
    &&& (is_create ==> s.spec_room_index(room_id) is None && ri == s.rooms@.len()
        && np.prev_events.len() == 0)
    &&& (!is_create ==> s.spec_room_index(room_id) == Some(ri) && 0 <= ri < s.rooms@.len()
        && np.prev_events == keys_view(s.rooms@[ri].extremities@) && no_such_event(
        &s.rooms@[ri],
        np.event_id,
    ) && depth_one_past(&s.rooms@[ri], np.depth))
    &&& np.signatures == spec_signatures(s, np)
    &&& (has_mem <==> np.kind == k_m_room_member() && np.state_key is Some)
    &&& (has_mem ==> content_membership(builder.content@) is Some)
}

/// No stored event of the room carries this id.
pub open spec fn no_such_event(room: &Room, eid: Seq<u8>) -> bool {
    forall|i: int|
        0 <= i < pdus_view(room.pdus@).len() ==> (#[trigger] pdus_view(room.pdus@)[i]).event_id
            != eid
}

/// The input validations the pipeline runs first.
pub open spec fn valid_inputs(builder: &PduBuilder, sender: Seq<u8>, room_id: Seq<u8>) -> bool {
    &&& crate::pdu::valid_user_id(sender)
    &&& crate::pdu::valid_room_id(room_id)
    &&& builder.event_type@.len() > 0
    &&& (opt_view(builder.redacts) matches Some(rv) ==> crate::pdu::valid_event_id(rv))
}

/// The content checks: a well-formed object as content, a well-formed
/// unsigned map.
pub open spec fn content_wf_ok(builder: &PduBuilder) -> bool {
    &&& wf_json(builder.content@)
    &&& builder.content@ is Obj
    &&& obj_keys_sorted(entries_view(builder.unsigned@))
    &&& wf_entries(entries_view(builder.unsigned@))
}

/// The membership string a member event carries.
pub open spec fn content_membership(content: JsonV) -> Option<Seq<u8>> {
    match content {
        JsonV::Obj(o) => match obj_get_v(o, crate::push::k_membership()) {
            Some(v) => if v is Str {
                Some(v->Str_0)
            } else {
                None
            },
            None => None,
        },
        _ => None,
    }
}

/// A member state event must carry a string membership.
pub open spec fn membership_ok(builder: &PduBuilder) -> bool {
    builder.event_type@ == k_m_room_member() && opt_view(builder.state_key) is Some
        ==> content_membership(builder.content@) is Some
}

/// A forward extremity already at the depth cap: nothing can go deeper.
pub open spec fn depth_maxed(room: &Room) -> bool {
    exists|i: int|
        0 <= i < pdus_view(room.pdus@).len() && keys_view(room.extremities@).contains(
            (#[trigger] pdus_view(room.pdus@)[i]).event_id,
        ) && pdus_view(room.pdus@)[i].depth >= 9007199254740991
}

/// The new depth sits one past the deepest parent: some extremity's event
/// is exactly one below it, and every extremity's event is below it.
pub open spec fn depth_one_past(room: &Room, depth: u64) -> bool {
    let pdus = pdus_view(room.pdus@);
    let ext = keys_view(room.extremities@);
    &&& (ext.len() > 0 ==> exists|i: int|
        0 <= i < pdus.len() && ext.contains((#[trigger] pdus[i]).event_id) && depth == pdus[i].depth
            + 1)
    &&& (forall|i: int|
        0 <= i < pdus.len() && ext.contains((#[trigger] pdus[i]).event_id) ==> pdus[i].depth
            < depth)
}

/// An event shaped as this append would build it: the builder's fields,
/// the caller's ids and timestamp, and the room's extremities as parents.
pub open spec fn shaped_like(
    np: PduV,
    s: &Store,
    builder: &PduBuilder,
    sender: Seq<u8>,
    room_id: Seq<u8>,
    now_ms: u64,
) -> bool {
    &&& np.kind == builder.event_type@
    &&& np.content == builder.content@
    &&& np.unsigned == entries_view(builder.unsigned@)
    &&& np.state_key == opt_view(builder.state_key)
    &&& np.redacts == opt_view(builder.redacts)
    &&& np.sender == sender
    &&& np.room_id == room_id
    &&& np.origin_server_ts == now_ms
    &&& (match s.spec_room_index(room_id) {
        Some(ri) => np.prev_events == keys_view(s.rooms@[ri].extremities@),
        None => np.prev_events.len() == 0,
    })
}

/// The room already stores an event under the id the built event would
/// get: the reference hash of its canonical form.
pub open spec fn duplicate_of_built(
    s: &Store,
    builder: &PduBuilder,
    sender: Seq<u8>,
    room_id: Seq<u8>,
    now_ms: u64,
) -> bool {
    exists|np: PduV|
        #[trigger] shaped_like(np, s, builder, sender, room_id, now_ms) && (
        match s.spec_room_index(room_id) {
            Some(ri) => exists|i: int|
                0 <= i < pdus_view(s.rooms@[ri].pdus@).len() && (#[trigger] pdus_view(
                    s.rooms@[ri].pdus@,
                )[i]).event_id == seq![36u8] + crate::hashes::reference_hash_of(
                    crate::json::encode_json(JsonV::Obj(pdu_hash_entries_v(np))),
                ),
            None => false,
        })
}

/// Ruma refused the canonical bytes of the built event at the content- or
/// reference-hash step.
pub open spec fn hash_step_failed(
    s: &Store,
    builder: &PduBuilder,
    sender: Seq<u8>,
    room_id: Seq<u8>,
    now_ms: u64,
) -> bool {
    exists|np: PduV|
        #[trigger] shaped_like(np, s, builder, sender, room_id, now_ms) && (
        !crate::hashes::content_hash_ok(crate::json::encode_json(crate::pdu::pdu_obj_v(np)))
            || !crate::hashes::reference_hash_ok(
            crate::json::encode_json(JsonV::Obj(pdu_hash_entries_v(np))),
        ))
}

/// The rejections of the append pipeline: each error kind comes exactly
/// when its condition is the first in the pipeline's order to fail, and
/// the two outside-decided kinds carry what must have gone wrong.
pub open spec fn append_err_ok(
    s: &Store,
    builder: &PduBuilder,
    sender: Seq<u8>,
    room_id: Seq<u8>,
    now_ms: u64,
    e: Error,
) -> bool {
    let v = valid_inputs(builder, sender, room_id);
    let c = content_wf_ok(builder);
    let create = builder.event_type@ == k_m_room_create();
    let found = s.spec_room_index(room_id) is Some;
    let f = forbidden_cause(s, builder, sender, room_id);
    let missing = !create && !found;
    let admitted = v && c && !f && !missing;
    let dm = found && depth_maxed(&s.rooms@[s.spec_room_index(room_id)->Some_0]);
    let m_ok = membership_ok(builder);
    &&& (e == Error::BadRequest(ErrorKind::InvalidParam) <==> !v)
    &&& (e == Error::BadRequest(ErrorKind::BadJson) <==> ((v && !c) || (admitted && !dm && !m_ok)))
    &&& (e == Error::BadRequest(ErrorKind::Forbidden) <==> v && c && f)
    &&& (e == Error::BadRequest(ErrorKind::NotFound) <==> v && c && missing)
    &&& (e == Error::BadDatabase <==> admitted && dm)
    &&& (e == Error::Conflict ==> admitted && !dm && m_ok && duplicate_of_built(
        s,
        builder,
        sender,
        room_id,
        now_ms,
    ))
    &&& (e == Error::BadServerResponse ==> admitted && !dm && m_ok && (hash_step_failed(
        s,
        builder,
        sender,
        room_id,
        now_ms,
    ) || (s.signing_key matches Some(k) && !crate::hashes::ed25519_key_ok(k.0@, k.1@))))
    &&& (e == Error::BadRequest(ErrorKind::UnknownToken) ==> false)
    &&& (e == Error::BadRequest(ErrorKind::MissingToken) ==> false)
}

/// The key id of the server's signing key.
pub open spec fn key_id_of(version: Seq<u8>) -> Seq<u8> {
    crate::json::ascii_seq("ed25519:"@) + version
}

/// The bytes the server signs: the canonical form of the event with its
/// content projected by the redaction allow list, without `event_id`,
/// `unsigned` and `signatures`.
pub open spec fn signing_input(np: PduV) -> Seq<u8> {
    let projected = PduV {
        content: JsonV::Obj(retain_keys_v(np.content->Obj_0, allowed_keys(np.kind))),
        ..np
    };
    crate::json::encode_json(JsonV::Obj(pdu_hash_entries_v(projected)))
}

/// The signatures a built event carries: the server's one signature over
/// the signing input when a key is configured, nothing otherwise.
pub open spec fn spec_signatures(s: &Store, np: PduV) -> Seq<(Seq<u8>, Seq<(Seq<u8>, Seq<u8>)>)> {
    match s.signing_key {
        Some(k) => {
            let sig = crate::hashes::ed25519_signature_of(signing_input(np), k.0@, k.1@);
            let inner = seq![(key_id_of(k.0@), sig)];
            seq![(s.server_name@, inner)]
        },
        None => Seq::empty(),
    }
}

/// A `Forbidden` rejection comes from a create event into an existing room
/// or from the admission rule.
pub open spec fn forbidden_cause(
    s: &Store,
    builder: &PduBuilder,
    sender: Seq<u8>,
    room_id: Seq<u8>,
) -> bool {
    let ri = s.spec_room_index(room_id);
    ||| (builder.event_type@ == k_m_room_create() && ri is Some)
    ||| (ri is Some && !spec_authorized(
        &s.rooms@[ri->Some_0],
        builder.event_type@,
        opt_view(builder.state_key),
        sender,
    ))
}

/// The redaction an appended event applies: its target, if stored, is
/// replaced by its redacted form, with the new event as the reason.
pub open spec fn redaction_applied(opdus: Seq<PduV>, np: PduV) -> Seq<PduV> {
    match np.redacts {
        Some(t) => match spec_find_event(opdus, t) {
            Some(i) => opdus.update(i, spec_redact(opdus[i], np)),
            None => opdus,
        },
        None => opdus,
    }
}

/// Whether `x` is an old state entry of a pair other than `(kind, k)`.
pub open spec fn entry_kept(
    ost: Seq<(Seq<u8>, Seq<u8>, int)>,
    x: (Seq<u8>, Seq<u8>, int),
    kind: Seq<u8>,
    k: Seq<u8>,
) -> bool {
    exists|w: int|
        0 <= w < ost.len() && #[trigger] ost[w] == x && !(x.0 == kind && x.1 == k)
}

/// Whether `x` stands among the first `len - 1` entries of `nst`.
pub open spec fn entry_listed(nst: Seq<(Seq<u8>, Seq<u8>, int)>, x: (Seq<u8>, Seq<u8>, int)) -> bool {
    exists|e: int| 0 <= e < nst.len() - 1 && #[trigger] nst[e] == x
}

/// How a state event rewrites the state index: the pair's old entry goes,
/// every other entry stays, and the pair now points at log position `n`.
pub open spec fn state_updated(
    ost: Seq<(Seq<u8>, Seq<u8>, int)>,
    nst: Seq<(Seq<u8>, Seq<u8>, int)>,
    kind: Seq<u8>,
    skey: Option<Seq<u8>>,
    n: int,
) -> bool {
    match skey {
        Some(k) => {
            &&& nst.len() >= 1
            &&& nst.last() == (kind, k, n)
            &&& (forall|e: int| 0 <= e < nst.len() - 1 ==> entry_kept(ost, #[trigger] nst[e], kind, k))
            &&& (forall|w: int|
                0 <= w < ost.len() && !((#[trigger] ost[w]).0 == kind && ost[w].1 == k)
                    ==> entry_listed(nst, ost[w]))
        },
        None => nst == ost,
    }
}

/// How an accepted append rewrites the room: the log is the old log, with
/// a named redaction applied, extended by exactly the new event; the new
/// event's parents were the old forward extremities and it sits one past
/// the deepest of them; the state index is rewritten for its pair; and the
/// extremity set becomes old minus parents plus the new event.
pub open spec fn room_log_extended(pre: &Store, post: &Store, ri: int, room_id: Seq<u8>) -> bool {
    let rpost = &post.rooms@[ri];
    let pv = pdus_view(rpost.pdus@);
    let np = pv[pv.len() - 1];
    match pre.spec_room_index(room_id) {
        Some(pri) => {
            let rpre = &pre.rooms@[pri];
            let opdus = pdus_view(rpre.pdus@);
            &&& ri == pri
            &&& post.rooms@.len() == pre.rooms@.len()
            &&& (forall|j: int|
                0 <= j < pre.rooms@.len() && j != ri ==> post.rooms@[j] == #[trigger] pre.rooms@[j])
            &&& pv == redaction_applied(opdus, np).push(np)
            &&& np.prev_events == keys_view(rpre.extremities@)
            &&& depth_one_past(rpre, np.depth)
            &&& state_updated(
                state_view(rpre.state@),
                state_view(rpost.state@),
                np.kind,
                np.state_key,
                opdus.len() as int,
            )
            &&& keys_view(rpost.extremities@).to_set() == keys_view(
                rpre.extremities@,
            ).to_set().difference(np.prev_events.to_set()).insert(np.event_id)
        },
        None => {
            &&& post.rooms@.len() == pre.rooms@.len() + 1
            &&& ri == pre.rooms@.len()
            &&& (forall|j: int|
                0 <= j < pre.rooms@.len() ==> post.rooms@[j] == #[trigger] pre.rooms@[j])
            &&& pv.len() == 1
            &&& np.prev_events.len() == 0
            &&& np.depth == 0
            &&& state_updated(
                Seq::empty(),
                state_view(rpost.state@),
                np.kind,
                np.state_key,
                0,
            )
            &&& keys_view(rpost.extremities@).to_set() == Set::empty().insert(np.event_id)
        },
    }
}

/// Every joined member's foreign server has the event pending.
pub open spec fn servers_enqueued(
    room: &Room,
    disp: &Dispatcher,
    own: Seq<u8>,
    pdu_id: Seq<u8>,
) -> bool {
    forall|u: int|
        0 <= u < members_view(room.members@).len() && (#[trigger] members_view(room.members@)[u]).1
            == crate::push::k_join() && crate::queue::valid_destination(
            DestinationV::Normal(server_part(members_view(room.members@)[u].0)),
        ) && server_part(members_view(room.members@)[u].0) != own ==> disp.pending@.contains(
            queue_key_v(
                DestinationV::Normal(server_part(members_view(room.members@)[u].0)),
                pdu_id,
            ),
        )
}

/// Every application service registered for the room has the event pending.
pub open spec fn appservices_enqueued(
    s: &Store,
    disp: &Dispatcher,
    room_id: Seq<u8>,
    pdu_id: Seq<u8>,
) -> bool {
    forall|a: int|
        0 <= a < pairs_view(s.appservices@).len() && (#[trigger] pairs_view(s.appservices@)[a]).1
            == room_id ==> disp.pending@.contains(
            queue_key_v(DestinationV::Appservice(pairs_view(s.appservices@)[a].0), pdu_id),
        )
}

/// What a successful append guarantees: the room ends in the new event,
/// whose fields are the builder's, whose identity is the reference hash of
/// its canonical form, which carries the server's signature when a key is
/// configured, and which is now the room's one forward extremity; the room
/// rewrite is exact; the push fan-out entry, every joined member's foreign
/// server and every registered application service are enqueued, and
/// nothing else left the queues.
pub open spec fn append_ok(
    pre: &Store,
    post: &Store,
    disp_pre: &Dispatcher,
    disp_post: &Dispatcher,
    builder: &PduBuilder,
    sender: Seq<u8>,
    room_id: Seq<u8>,
    now_ms: u64,
    eid: Seq<u8>,
) -> bool {
    let ri = post.spec_room_index(room_id);
    let pv = pdus_view(post.rooms@[ri->Some_0].pdus@);
    &&& ri is Some
    &&& appended_room_ok(&post.rooms@[ri->Some_0], builder, sender, room_id, now_ms, eid)
    &&& pv[pv.len() - 1].signatures == spec_signatures(pre, pv[pv.len() - 1])
    &&& room_log_extended(pre, post, ri->Some_0, room_id)
    &&& post.aliases@ == pre.aliases@
    &&& post.appservices@ == pre.appservices@
    &&& post.server_name@ == pre.server_name@
    &&& post.signing_key == pre.signing_key
    &&& disp_post.pending@.contains(
        queue_key_v(
            DestinationV::Push(hex_of(pdu_id_bytes(ri->Some_0, pv.len() - 1))),
            pdu_id_bytes(ri->Some_0, pv.len() - 1),
        ),
    )
    &&& servers_enqueued(
        &post.rooms@[ri->Some_0],
        disp_post,
        pre.server_name@,
        pdu_id_bytes(ri->Some_0, pv.len() - 1),
    )
    &&& appservices_enqueued(pre, disp_post, room_id, pdu_id_bytes(ri->Some_0, pv.len() - 1))
    &&& (forall|x: Seq<u8>|
        #[trigger] disp_pre.pending@.contains(x) ==> disp_post.pending@.contains(x))
    &&& disp_post.current@ == disp_pre.current@
    &&& disp_post.in_flight@ == disp_pre.in_flight@
}

/// The room's last event is the appended one.
pub open spec fn appended_room_ok(
    room: &Room,
    builder: &PduBuilder,
    sender: Seq<u8>,
    room_id: Seq<u8>,
    now_ms: u64,
    eid: Seq<u8>,
) -> bool {
    let pv = pdus_view(room.pdus@);
    let np = pv[pv.len() - 1];
    &&& pv.len() >= 1
    &&& wf_pdu(np)
    &&& np.kind == builder.event_type@
    &&& np.content == builder.content@
    &&& np.unsigned == entries_view(builder.unsigned@)
    &&& np.state_key == opt_view(builder.state_key)
    &&& np.redacts == opt_view(builder.redacts)
    &&& np.sender == sender
    &&& np.room_id == room_id
    &&& np.origin_server_ts == now_ms
    &&& np.event_id == eid
    &&& eid == seq![36u8] + crate::hashes::reference_hash_of(
        crate::json::encode_json(JsonV::Obj(pdu_hash_entries_v(np))),
    )
    &&& (np.prev_events.len() == 0 <==> np.depth == 0)
    &&& keys_view(room.extremities@) == seq![np.event_id]
}

/// Seals a built event: fills the content hash, then assigns the event id
/// from the reference hash of the canonical form. Fails exactly when ruma
/// refuses the canonical bytes at either step.
fn seal_pdu(np0: Pdu) -> (r: Result<Pdu, Error>)
    requires
        wf_pdu(np0@),
    ensures
        ({
            let ch_in = crate::json::encode_json(crate::pdu::pdu_obj_v(np0@));
            let np1 = PduV { hashes: crate::hashes::content_hash_of(ch_in), ..np0@ };
            let rh_in = crate::json::encode_json(JsonV::Obj(pdu_hash_entries_v(np1)));
            match r {
                Ok(np) => {
                    &&& crate::hashes::content_hash_ok(ch_in)
                    &&& crate::hashes::reference_hash_ok(rh_in)
                    &&& wf_pdu(np@)
                    &&& np@ == PduV {
                        event_id: seq![36u8] + crate::hashes::reference_hash_of(rh_in),
                        ..np1
                    }
                    &&& np@.event_id == seq![36u8] + crate::hashes::reference_hash_of(
                        crate::json::encode_json(JsonV::Obj(pdu_hash_entries_v(np@))),
                    )
                },
                Err(e) => e == Error::BadServerResponse && (!crate::hashes::content_hash_ok(ch_in)
                    || !crate::hashes::reference_hash_ok(rh_in)),
            }
        }),
{
    let mut np = np0;
    let cobj = np.to_canonical_object();
    let cbytes = crate::json::to_canonical_bytes(&cobj);
    let ch = match crate::hashes::content_hash(&cbytes) {
        Some(h) => h,
        None => {
            return Err(Error::BadServerResponse);
        },
    };
    np.hashes = ch;
    proof {
        assert(wf_pdu(np@));
    }
    let hobj = np.to_hash_object();
    let hbytes = crate::json::to_canonical_bytes(&hobj);
    let rh = match crate::hashes::reference_hash(&hbytes) {
        Some(h) => h,
        None => {
            return Err(Error::BadServerResponse);
        },
    };
    let mut eid: Vec<u8> = Vec::new();
    eid.push(36);
    let mut hi: usize = 0;
    while hi < rh.len()
        invariant
            0 <= hi <= rh@.len(),
            eid@ == seq![36u8] + rh@.subrange(0, hi as int),
        decreases rh@.len() - hi,
    {
        eid.push(rh[hi]);
        proof {
            assert(eid@ =~= seq![36u8] + rh@.subrange(0, hi + 1));
        }
        hi = hi + 1;
    }
    proof {
        assert(rh@.subrange(0, rh@.len() as int) =~= rh@);
    }
    let ghost np_pre = np@;
    np.event_id = eid;
    proof {
        assert(pdu_hash_entries_v(np@) =~= pdu_hash_entries_v(np_pre));
        assert(crate::pdu::valid_event_id(np@.event_id));
        assert(wf_pdu(np@));
        assert(np@ =~~= PduV { event_id: np@.event_id, ..np_pre });
    }
    Ok(np)
}

impl Store {
    /// Validates, authorizes and builds one PDU without writing anything:
    /// parents and depth from the forward extremities, auth events from the
    /// current state, the event id from the reference hash of the canonical
    /// form. Returns the event, the room's position (or the position a new
    /// room will take), whether this founds the room, and the membership a
    /// member event carries.
    #[verifier::rlimit(100)]
    fn prepare_pdu(
        &self,
        builder: &PduBuilder,
        sender: &Vec<u8>,
        room_id: &Vec<u8>,
        now_ms: u64,
    ) -> (r: Result<(Pdu, usize, bool, Option<Vec<u8>>), Error>)
        requires
            self.wf(),
            now_ms < crate::json::json_int_max(),
        ensures
            match r {
                Ok(out) => prepared_ok(
                    self,
                    builder,
                    sender@,
                    room_id@,
                    now_ms,
                    out.0@,
                    out.1 as int,
                    out.2,
                    out.3 is Some,
                ),
                Err(e) => append_err_ok(self, builder, sender@, room_id@, now_ms, e),
            },
    {
        if !is_valid_user_id(sender) || !is_valid_room_id(room_id) {
            return Err(Error::BadRequest(ErrorKind::InvalidParam));
        }
        if builder.event_type.len() == 0 {
            return Err(Error::BadRequest(ErrorKind::InvalidParam));
        }
        match &builder.redacts {
            Some(rv) => {
                if !is_valid_event_id(rv) {
                    return Err(Error::BadRequest(ErrorKind::InvalidParam));
                }
            },
            None => {},
        }
        if !json_wf_check(&builder.content) {
            return Err(Error::BadRequest(ErrorKind::BadJson));
        }
        let content = json_clone(&builder.content);
        match &content {
            Json::Obj(_) => {},
            _ => {
                return Err(Error::BadRequest(ErrorKind::BadJson));
            },
        }
        let cloned_unsigned = clone_entries(&builder.unsigned);
        proof {
            crate::json::lemma_view_obj(cloned_unsigned);
        }
        let unsigned_probe = Json::Obj(cloned_unsigned);
        if !json_wf_check(&unsigned_probe) {
            return Err(Error::BadRequest(ErrorKind::BadJson));
        }
        proof {
            crate::json::lemma_wf_obj_unfold(entries_view(builder.unsigned@));
        }
        let kc = key_m_room_create();
        let is_create = bytes_eq(&builder.event_type, &kc);
        let ri_opt = self.room_index(room_id);
        let ri: usize = match ri_opt {
            Some(i) => {
                if is_create {
                    return Err(Error::BadRequest(ErrorKind::Forbidden));
                }
                i
            },
            None => {
                if !is_create {
                    return Err(Error::BadRequest(ErrorKind::NotFound));
                }
                self.rooms.len()
            },
        };
        let km = key_m_room_member();
        let is_member_event = bytes_eq(&builder.event_type, &km);
        let mut auth_events: Vec<Vec<u8>> = Vec::new();
        let mut prev_events: Vec<Vec<u8>> = Vec::new();
        let mut depth: u64 = 0;
        if !is_create {
            let empty_key: Vec<u8> = Vec::new();
            proof {
                assert(wf_room(&self.rooms@[ri as int]));
            }
            let create_e = match room_state_lookup(&self.rooms[ri], &kc, &empty_key) {
                Some(e) => e,
                None => {
                    return Err(Error::BadRequest(ErrorKind::Forbidden));
                },
            };
            let own_membership = is_member_event && (match &builder.state_key {
                Some(sk) => bytes_eq(sk, sender),
                None => false,
            });
            if !own_membership && !self.is_joined(sender, room_id) {
                return Err(Error::BadRequest(ErrorKind::Forbidden));
            }
            auth_events = select_auth_events(
                &self.rooms[ri],
                sender,
                is_member_event,
                &builder.state_key,
                create_e,
            );
            let pd = match collect_parents(&self.rooms[ri]) {
                Ok(p) => p,
                Err(e) => {
                    return Err(e);
                },
            };
            prev_events = pd.0;
            depth = pd.1;
        }
        proof {
            if !is_create {
                // parents collected: no extremity sits at the depth cap
                assert(!depth_maxed(&self.rooms@[ri as int]));
            }
        }
        let membership: Option<Vec<u8>> = if is_member_event && builder.state_key.is_some() {
            match read_membership(&content) {
                Ok(m) => Some(m),
                Err(e) => {
                    return Err(e);
                },
            }
        } else {
            None
        };
        let mut placeholder: Vec<u8> = Vec::new();
        placeholder.push(36);
        placeholder.push(48);
        let mut np = Pdu {
            event_id: placeholder,
            room_id: bytes_clone(room_id),
            sender: bytes_clone(sender),
            origin_server_ts: now_ms,
            kind: bytes_clone(&builder.event_type),
            content,
            state_key: match &builder.state_key {
                Some(sk) => Some(bytes_clone(sk)),
                None => None,
            },
            prev_events,
            depth,
            auth_events,
            redacts: match &builder.redacts {
                Some(rv) => Some(bytes_clone(rv)),
                None => None,
            },
            unsigned: clone_entries(&builder.unsigned),
            hashes: Vec::new(),
            signatures: Vec::new(),
        };
        proof {
            assert(wf_pdu(np@));
        }
        let ghost np0v = np@;
        let mut np = match seal_pdu(np) {
            Ok(p) => p,
            Err(e) => {
                proof {
                    // ruma refused the canonical bytes of this very event
                    assert(shaped_like(np0v, self, builder, sender@, room_id@, now_ms));
                    let ch_in = crate::json::encode_json(crate::pdu::pdu_obj_v(np0v));
                    let np1 = PduV { hashes: crate::hashes::content_hash_of(ch_in), ..np0v };
                    if crate::hashes::content_hash_ok(ch_in) {
                        assert(shaped_like(np1, self, builder, sender@, room_id@, now_ms));
                    }
                    assert(hash_step_failed(self, builder, sender@, room_id@, now_ms));
                }
                return Err(e);
            },
        };
        // the server's signature, when a key is configured
        match &self.signing_key {
            Some(key) => {
                let allowed = crate::pdu::allowed_list(&np.kind);
                let retained = match &np.content {
                    Json::Obj(entries) => {
                        proof {
                            crate::json::lemma_view_obj(*entries);
                        }
                        crate::json::obj_retain_keys(entries, &allowed)
                    },
                    _ => {
                        proof {
                            assert(false);
                        }
                        Vec::new()
                    },
                };
                proof {
                    crate::json::lemma_view_obj(retained);
                }
                let mut np_sign = crate::store::clone_pdu(&np);
                np_sign.content = Json::Obj(retained);
                proof {
                    assert(np_sign@ =~~= (PduV {
                        content: JsonV::Obj(
                            retain_keys_v(np@.content->Obj_0, allowed_keys(np@.kind)),
                        ),
                        ..np@
                    }));
                    lemma_wf_retained(np@, np_sign@);
                }
                let sobj = np_sign.to_hash_object();
                let sbytes = crate::json::to_canonical_bytes(&sobj);
                let sig = match crate::hashes::ed25519_sign(&sbytes, &key.0, &key.1) {
                    Some(sg) => sg,
                    None => {
                        return Err(Error::BadServerResponse);
                    },
                };
                proof {
                    reveal_strlit("ed25519:");
                }
                let mut key_id = crate::json::ascii_bytes("ed25519:");
                proof {
                    assert(key_id@ =~= key_id_of(key.0@).subrange(0, 8));
                }
                let mut t: usize = 0;
                while t < key.0.len()
                    invariant
                        0 <= t <= key.0@.len(),
                        key_id@ == key_id_of(key.0@).subrange(0, 8 + t as int),
                        key_id_of(key.0@).len() == 8 + key.0@.len(),
                    decreases key.0@.len() - t,
                {
                    key_id.push(key.0[t]);
                    proof {
                        assert(key_id@ =~= key_id_of(key.0@).subrange(0, 8 + t + 1));
                    }
                    t = t + 1;
                }
                proof {
                    assert(key_id@ =~= key_id_of(key.0@));
                }
                let mut inner: Vec<(Vec<u8>, Vec<u8>)> = Vec::new();
                inner.push((key_id, sig));
                let mut sigs: Vec<(Vec<u8>, Vec<(Vec<u8>, Vec<u8>)>)> = Vec::new();
                sigs.push((bytes_clone(&self.server_name), inner));
                let ghost np_sealed = np@;
                np.signatures = sigs;
                proof {
                    let projected = PduV {
                        content: JsonV::Obj(
                            retain_keys_v(np@.content->Obj_0, allowed_keys(np@.kind)),
                        ),
                        ..np@
                    };
                    lemma_hash_entries_agree(np_sign@, projected);
                    assert(sbytes@ == signing_input(np@));
                    assert(np@.signatures =~~= spec_signatures(self, np@));
                    lemma_hash_entries_agree(np@, np_sealed);
                    assert(wf_pdu(np@));
                }
            },
            None => {
                proof {
                    assert(np@.signatures =~= spec_signatures(self, np@));
                }
            },
        }
        if !is_create {
            match find_event(&self.rooms[ri], &np.event_id) {
                Some(_) => {
                    proof {
                        // the built event's id is already stored
                        assert(shaped_like(np@, self, builder, sender@, room_id@, now_ms));
                        assert(duplicate_of_built(self, builder, sender@, room_id@, now_ms));
                    }
                    return Err(Error::Conflict);
                },
                None => {},
            }
        }
        Ok((np, ri, is_create, membership))
    }

    /// Builds, authorizes and appends one PDU, per the append pipeline, and
    /// enqueues it for every joined member's foreign server and for push
    /// fan-out. Nothing is written when any step rejects the event.
    #[verifier::rlimit(100)]
    pub fn build_and_append_pdu(
        &mut self,
        disp: &mut Dispatcher,
        builder: &PduBuilder,
        sender: &Vec<u8>,
        room_id: &Vec<u8>,
        now_ms: u64,
    ) -> (r: Result<Vec<u8>, Error>)
        requires
            old(self).wf(),
            old(disp).wf(),
            now_ms < crate::json::json_int_max(),
        ensures
            final(self).wf(),
            final(disp).wf(),
            match r {
                Ok(eid) => append_ok(
                    old(self),
                    final(self),
                    old(disp),
                    final(disp),
                    builder,
                    sender@,
                    room_id@,
                    now_ms,
                    eid@,
                ),
                Err(e) => {
                    &&& final(self).rooms@ == old(self).rooms@
                    &&& final(self).aliases@ == old(self).aliases@
                    &&& final(self).appservices@ == old(self).appservices@
                    &&& final(self).server_name@ == old(self).server_name@
                    &&& final(self).signing_key == old(self).signing_key
                    &&& final(disp).pending@ == old(disp).pending@
                    &&& final(disp).current@ == old(disp).current@
                    &&& final(disp).in_flight@ == old(disp).in_flight@
                    &&& append_err_ok(old(self), builder, sender@, room_id@, now_ms, e)
                },
            },
    {
        let prepared = match self.prepare_pdu(builder, sender, room_id, now_ms) {
            Ok(p) => p,
            Err(e) => {
                return Err(e);
            },
        };
        let (np, ri, is_create, membership) = prepared;
        let eid = bytes_clone(&np.event_id);
        let ghost npv = np@;
        // from here on nothing fails: take the room out, extend it, put it back
        let ghost rooms_pre = self.rooms@;
        let mut room: Room = if is_create {
            Room {
                room_id: bytes_clone(room_id),
                pdus: Vec::new(),
                state: Vec::new(),
                extremities: Vec::new(),
                members: Vec::new(),
            }
        } else {
            self.rooms.remove(ri)
        };
        let ghost room_orig = room;
        // a named redaction replaces its stored target by the projection
        match &np.redacts {
            Some(tgt) => {
                match find_event(&room, tgt) {
                    Some(ti) => {
                        let ghost pdus_orig = pdus_view(room.pdus@);
                        let mut target = room.pdus.remove(ti);
                        proof {
                            assert(target@ == pdus_orig[ti as int]);
                            assert(wf_room(&room_orig));
                            assert(wf_pdu(target@));
                        }
                        match target.redact(&np) {
                            Ok(()) => {},
                            Err(_) => {
                                proof {
                                    // stored content is an object under wf
                                    assert(false);
                                }
                            },
                        }
                        room.pdus.insert(ti, target);
                        proof {
                            assert(pdus_view(room.pdus@) =~= pdus_orig.update(
                                ti as int,
                                spec_redact(pdus_orig[ti as int], npv),
                            ));
                            lemma_room_wf_after_redact(&room_orig, &room, ti as int, npv);
                            assert(pdus_view(room.pdus@) == redaction_applied(pdus_orig, npv));
                        }
                    },
                    None => {
                        proof {
                            assert(pdus_view(room.pdus@) == redaction_applied(
                                pdus_view(room.pdus@),
                                npv,
                            ));
                        }
                    },
                }
            },
            None => {
                proof {
                    assert(pdus_view(room.pdus@) == redaction_applied(
                        pdus_view(room.pdus@),
                        npv,
                    ));
                }
            },
        }
        let ghost room_pre = room;
        proof {
            assert(pdus_view(room_pre.pdus@) == redaction_applied(
                pdus_view(room_orig.pdus@),
                npv,
            ));
        }
        let new_index = room.pdus.len();
        proof {
            assert(pdus_view(room.pdus@.push(np)) =~= pdus_view(room.pdus@).push(npv));
        }
        room.pdus.push(np);
        let ghost st_pre = state_view(room.state@);
        proof {
            assert(st_pre == state_view(room_orig.state@));
        }
        match &builder.state_key {
            Some(sk) => {
                state_replace(&mut room.state, &builder.event_type, sk, new_index);
                proof {
                    lemma_state_updated_from_filter(
                        st_pre,
                        state_view(room.state@),
                        builder.event_type@,
                        sk@,
                        new_index as int,
                        |e: (Seq<u8>, Seq<u8>, int)| !(e.0 == builder.event_type@ && e.1 == sk@),
                    );
                    assert(state_updated(
                        st_pre,
                        state_view(room.state@),
                        npv.kind,
                        npv.state_key,
                        new_index as int,
                    ));
                }
            },
            None => {
                proof {
                    assert(state_updated(
                        st_pre,
                        state_view(room.state@),
                        npv.kind,
                        npv.state_key,
                        new_index as int,
                    ));
                }
            },
        }
        let ghost st_post = state_view(room.state@);
        let mut ex: Vec<Vec<u8>> = Vec::new();
        ex.push(bytes_clone(&eid));
        room.extremities = ex;
        proof {
            assert(keys_view(room.extremities@) =~= seq![eid@]);
            if is_create {
                assert(keys_view(room_pre.extremities@) =~= Seq::<Seq<u8>>::empty());
                assert(npv.prev_events =~= keys_view(room_pre.extremities@));
            } else {
                assert(room_orig == old(self).rooms@[ri as int]);
                assert(room_pre.extremities@ == room_orig.extremities@);
                assert(room_pre.state@ == room_orig.state@);
                assert(room_pre.members@ == room_orig.members@);
            }
            assert(pdus_view(room.pdus@) == pdus_view(room_pre.pdus@).push(npv));
            assert(st_pre == state_view(room_pre.state@));
        }
        match (&membership, &builder.state_key) {
            (Some(m), Some(sk)) => {
                member_update(&mut room.members, sk, m);
                proof {
                    let mm: Option<Seq<u8>> = if m@ == crate::push::k_leave() || m@
                        == crate::push::k_ban() {
                        None
                    } else {
                        Some(m@)
                    };
                    assert(npv.state_key == Some(sk@));
                    assert(npv.kind == builder.event_type@);
                    lemma_room_wf_after_append(
                        &room_pre,
                        &room,
                        npv,
                        |e: (Seq<u8>, Seq<u8>, int)| !(e.0 == builder.event_type@ && e.1 == sk@),
                        true,
                        |e: (Seq<u8>, Seq<u8>)| e.0 != sk@,
                        sk@,
                        mm,
                    );
                }
            },
            (None, Some(sk)) => {
                proof {
                    assert(npv.state_key == Some(sk@));
                    assert(npv.kind == builder.event_type@);
                    lemma_room_wf_after_append(
                        &room_pre,
                        &room,
                        npv,
                        |e: (Seq<u8>, Seq<u8>, int)| !(e.0 == builder.event_type@ && e.1 == sk@),
                        false,
                        |e: (Seq<u8>, Seq<u8>)| true,
                        Seq::empty(),
                        None,
                    );
                }
            },
            (_, None) => {
                proof {
                    assert(npv.state_key is None);
                    lemma_room_wf_after_append(
                        &room_pre,
                        &room,
                        npv,
                        |e: (Seq<u8>, Seq<u8>, int)| true,
                        false,
                        |e: (Seq<u8>, Seq<u8>)| true,
                        Seq::empty(),
                        None,
                    );
                }
            },
        }
        // enqueue: one entry per foreign joined server, one push fan-out entry
        let mut pdu_id: Vec<u8> = Vec::new();
        push_u64_be(&mut pdu_id, ri as u64);
        pdu_id.push(255);
        push_u64_be(&mut pdu_id, new_index as u64);
        let own = bytes_clone(&self.server_name);
        let kjoin = crate::push::key_join();
        let ghost mem = members_view(room.members@);
        let mut t: usize = 0;
        while t < room.members.len()
            invariant
                disp.wf(),
                0 <= t <= room.members@.len(),
                pdu_id@.len() > 0,
                own@ == self.server_name@,
                kjoin@ == crate::push::k_join(),
                mem == members_view(room.members@),
                mem.len() == room.members@.len(),
                forall|x: Seq<u8>|
                    #[trigger] old(disp).pending@.contains(x) ==> disp.pending@.contains(x),
                disp.current@ == old(disp).current@,
                disp.in_flight@ == old(disp).in_flight@,
                forall|u: int|
                    0 <= u < t && (#[trigger] mem[u]).1 == crate::push::k_join()
                        && crate::queue::valid_destination(
                        DestinationV::Normal(server_part(mem[u].0)),
                    ) && server_part(mem[u].0) != own@ ==> disp.pending@.contains(
                        queue_key_v(DestinationV::Normal(server_part(mem[u].0)), pdu_id@),
                    ),
            decreases room.members@.len() - t,
        {
            proof {
                assert(mem[t as int] == (room.members@[t as int].0@, room.members@[t as int].1@));
            }
            let ghost pend_iter = disp.pending@;
            if bytes_eq(&room.members[t].1, &kjoin) {
                let server = crate::bytes::server_of(&room.members[t].0);
                let sendable = is_valid_server_name(&server) && server[0] != 43 && server[0] != 36
                    && !bytes_eq(&server, &own);
                if sendable {
                    let dest = Destination::Normal(server);
                    let ghost pend_pre = disp.pending@;
                    disp.enqueue(&dest, &pdu_id);
                    proof {
                        assert forall|x: Seq<u8>| #[trigger] pend_pre.contains(x)
                            implies disp.pending@.contains(x) by {
                            let u = choose|u: int| 0 <= u < pend_pre.len() && pend_pre[u] == x;
                            if disp.pending@ != pend_pre {
                                assert(disp.pending@[u] == x);
                            }
                        }
                        assert(disp.pending@.contains(queue_key_v(dest@, pdu_id@))) by {
                            if pend_pre.contains(queue_key_v(dest@, pdu_id@)) {
                                let u = choose|u: int|
                                    0 <= u < pend_pre.len() && pend_pre[u] == queue_key_v(
                                        dest@,
                                        pdu_id@,
                                    );
                                assert(disp.pending@[u] == queue_key_v(dest@, pdu_id@));
                            } else {
                                assert(disp.pending@[pend_pre.len() as int] == queue_key_v(
                                    dest@,
                                    pdu_id@,
                                ));
                            }
                        }
                        assert(dest@ == DestinationV::Normal(server_part(mem[t as int].0)));
                    }
                } else {
                    proof {
                        assert(!(crate::queue::valid_destination(
                            DestinationV::Normal(server_part(mem[t as int].0)),
                        ) && server_part(mem[t as int].0) != own@));
                    }
                }
            } else {
                proof {
                    assert(mem[t as int].1 != crate::push::k_join());
                }
            }
            proof {
                assert forall|u: int|
                    0 <= u < t + 1 && (#[trigger] mem[u]).1 == crate::push::k_join()
                        && crate::queue::valid_destination(
                        DestinationV::Normal(server_part(mem[u].0)),
                    ) && server_part(mem[u].0) != own@ implies disp.pending@.contains(
                    queue_key_v(DestinationV::Normal(server_part(mem[u].0)), pdu_id@),
                ) by {
                    if u < t {
                        assert(pend_iter.contains(
                            queue_key_v(DestinationV::Normal(server_part(mem[u].0)), pdu_id@),
                        ));
                        let w = choose|w: int|
                            0 <= w < pend_iter.len() && pend_iter[w] == queue_key_v(
                                DestinationV::Normal(server_part(mem[u].0)),
                                pdu_id@,
                            );
                        if disp.pending@ != pend_iter {
                            assert(disp.pending@[w] == pend_iter[w]);
                        }
                    }
                }
            }
            t = t + 1;
        }
        // one entry per application service registered for the room
        let ghost asv = pairs_view(self.appservices@);
        let mut a: usize = 0;
        while a < self.appservices.len()
            invariant
                disp.wf(),
                0 <= a <= self.appservices@.len(),
                pdu_id@.len() > 0,
                asv == pairs_view(self.appservices@),
                asv.len() == self.appservices@.len(),
                forall|u: int|
                    0 <= u < asv.len() ==> crate::queue::valid_destination(
                        DestinationV::Appservice((#[trigger] asv[u]).0),
                    ),
                forall|x: Seq<u8>|
                    #[trigger] old(disp).pending@.contains(x) ==> disp.pending@.contains(x),
                disp.current@ == old(disp).current@,
                disp.in_flight@ == old(disp).in_flight@,
                forall|u: int|
                    0 <= u < a && (#[trigger] asv[u]).1 == room_id@ ==> disp.pending@.contains(
                        queue_key_v(DestinationV::Appservice(asv[u].0), pdu_id@),
                    ),
                forall|u: int|
                    0 <= u < room.members@.len() && (#[trigger] mem[u]).1 == crate::push::k_join()
                        && crate::queue::valid_destination(
                        DestinationV::Normal(server_part(mem[u].0)),
                    ) && server_part(mem[u].0) != own@ ==> disp.pending@.contains(
                        queue_key_v(DestinationV::Normal(server_part(mem[u].0)), pdu_id@),
                    ),
                mem == members_view(room.members@),
                mem.len() == room.members@.len(),
                own@ == self.server_name@,
            decreases self.appservices@.len() - a,
        {
            proof {
                assert(asv[a as int] == (
                    self.appservices@[a as int].0@,
                    self.appservices@[a as int].1@,
                ));
            }
            if bytes_eq(&self.appservices[a].1, room_id) {
                let dest = Destination::Appservice(bytes_clone(&self.appservices[a].0));
                let ghost pend_pre = disp.pending@;
                disp.enqueue(&dest, &pdu_id);
                proof {
                    assert forall|x: Seq<u8>| #[trigger] pend_pre.contains(x)
                        implies disp.pending@.contains(x) by {
                        let u = choose|u: int| 0 <= u < pend_pre.len() && pend_pre[u] == x;
                        if disp.pending@ != pend_pre {
                            assert(disp.pending@[u] == x);
                        }
                    }
                    assert(disp.pending@.contains(queue_key_v(dest@, pdu_id@))) by {
                        if pend_pre.contains(queue_key_v(dest@, pdu_id@)) {
                            let u = choose|u: int|
                                0 <= u < pend_pre.len() && pend_pre[u] == queue_key_v(
                                    dest@,
                                    pdu_id@,
                                );
                            assert(disp.pending@[u] == queue_key_v(dest@, pdu_id@));
                        } else {
                            assert(disp.pending@[pend_pre.len() as int] == queue_key_v(
                                dest@,
                                pdu_id@,
                            ));
                        }
                    }
                }
            }
            a = a + 1;
        }
        proof {
            crate::bytes::lemma_hex_of_bytes_ascii(pdu_id@);
            crate::bytes::lemma_hex_of_len(pdu_id@);
        }
        let push_tag = crate::bytes::hex_encode(&pdu_id);
        let pdest = Destination::Push(push_tag);
        let ghost pend_pre2 = disp.pending@;
        disp.enqueue(&pdest, &pdu_id);
        proof {
            assert(disp.pending@.contains(queue_key_v(pdest@, pdu_id@))) by {
                if pend_pre2.contains(queue_key_v(pdest@, pdu_id@)) {
                    let u = choose|u: int|
                        0 <= u < pend_pre2.len() && pend_pre2[u] == queue_key_v(pdest@, pdu_id@);
                    assert(disp.pending@[u] == queue_key_v(pdest@, pdu_id@));
                } else {
                    assert(disp.pending@[pend_pre2.len() as int] == queue_key_v(pdest@, pdu_id@));
                }
            }
            assert forall|x: Seq<u8>| #[trigger] pend_pre2.contains(x)
                implies disp.pending@.contains(x) by {
                let u = choose|u: int| 0 <= u < pend_pre2.len() && pend_pre2[u] == x;
                if disp.pending@ != pend_pre2 {
                    assert(disp.pending@[u] == x);
                }
            }
            assert(pdu_id@ =~= pdu_id_bytes(ri as int, new_index as int));
        }
        // the room goes back in
        let ghost room_final = room;
        if is_create {
            self.rooms.push(room);
            proof {
                lemma_store_wf_push(self, rooms_pre, room_id@);
            }
        } else {
            self.rooms.insert(ri, room);
            proof {
                assert(self.rooms@ =~= rooms_pre.remove(ri as int).insert(ri as int, room_final));
                lemma_store_wf_update(self, rooms_pre, ri as int, &room_pre);
            }
        }
        proof {
            // the room is found again where it was put
            assert(self.rooms@[ri as int] == room_final);
            assert(room_final.room_id@ == room_id@) by {
                if !is_create {
                    assert(old(self).spec_room_index(room_id@) == Some(ri as int));
                    let j = choose|j: int|
                        0 <= j < old(self).rooms@.len() && (#[trigger] old(
                            self,
                        ).rooms@[j]).room_id@ == room_id@;
                    assert(old(self).rooms@[j].room_id@ == room_id@);
                    assert(room_pre.room_id@ == room_id@);
                }
            }
            assert(self.spec_room_index(room_id@) == Some(ri as int)) by {
                assert(self.rooms@[ri as int].room_id@ == room_id@);
                let j = choose|j: int|
                    0 <= j < self.rooms@.len() && (#[trigger] self.rooms@[j]).room_id@ == room_id@;
                if j != ri as int {
                    if j < ri as int {
                        assert(self.rooms@[j].room_id@ != self.rooms@[ri as int].room_id@);
                    } else {
                        assert(self.rooms@[ri as int].room_id@ != self.rooms@[j].room_id@);
                    }
                }
            }
            // the appended event stands last, as built
            let pv = pdus_view(room_final.pdus@);
            assert(pv == pdus_view(room_pre.pdus@).push(npv));
            assert(pv.len() == new_index + 1);
            assert(pv[pv.len() - 1] == npv);
            assert(keys_view(room_final.extremities@) == seq![npv.event_id]);
            assert(eid@ == npv.event_id);
            // the signature clause carries over from the preparation
            assert(npv.signatures == spec_signatures(old(self), npv));
            // the exact room rewrite
            assert(pv == redaction_applied(pdus_view(room_orig.pdus@), npv).push(npv));
            assert(state_updated(st_pre, state_view(room_final.state@), npv.kind, npv.state_key,
                new_index as int)) by {
                assert(state_view(room_final.state@) == st_post);
            }
            if !is_create {
                let rpre = &old(self).rooms@[ri as int];
                assert(room_orig == old(self).rooms@[ri as int]);
                assert(npv.prev_events == keys_view(rpre.extremities@));
                assert(depth_one_past(rpre, npv.depth));
                assert(pdus_view(rpre.pdus@).len() == new_index);
                assert(keys_view(room_final.extremities@).to_set() =~= keys_view(
                    rpre.extremities@,
                ).to_set().difference(npv.prev_events.to_set()).insert(npv.event_id)) by {
                    assert(npv.prev_events =~= keys_view(rpre.extremities@));
                    assert forall|x: Seq<u8>|
                        keys_view(rpre.extremities@).to_set().difference(
                            npv.prev_events.to_set(),
                        ).contains(x) implies false by {
                        assert(keys_view(rpre.extremities@).to_set().contains(x)
                            && !npv.prev_events.to_set().contains(x));
                    }
                    assert(keys_view(room_final.extremities@).to_set().contains(npv.event_id)) by {
                        assert(keys_view(room_final.extremities@)[0] == npv.event_id);
                        assert(keys_view(room_final.extremities@).contains(npv.event_id));
                    }
                    assert forall|x: Seq<u8>|
                        #[trigger] keys_view(room_final.extremities@).to_set().contains(x)
                        implies x == npv.event_id by {
                        assert(keys_view(room_final.extremities@).contains(x));
                        let w = choose|w: int|
                            0 <= w < keys_view(room_final.extremities@).len() && keys_view(
                                room_final.extremities@,
                            )[w] == x;
                    }
                }
            } else {
                assert(old(self).spec_room_index(room_id@) is None);
                assert(self.rooms@.len() == rooms_pre.len() + 1);
                assert(pv.len() == 1);
                assert(st_pre =~= Seq::<(Seq<u8>, Seq<u8>, int)>::empty());
                assert(state_updated(
                    Seq::empty(),
                    state_view(room_final.state@),
                    npv.kind,
                    npv.state_key,
                    0,
                )) by {
                    assert(state_view(room_final.state@) == st_post);
                    assert(new_index == 0);
                }
                assert(keys_view(room_final.extremities@).to_set() =~= Set::empty().insert(
                    npv.event_id,
                )) by {
                    assert(keys_view(room_final.extremities@).to_set().contains(npv.event_id)) by {
                        assert(keys_view(room_final.extremities@)[0] == npv.event_id);
                        assert(keys_view(room_final.extremities@).contains(npv.event_id));
                    }
                    assert forall|x: Seq<u8>|
                        #[trigger] keys_view(room_final.extremities@).to_set().contains(x)
                        implies x == npv.event_id by {
                        assert(keys_view(room_final.extremities@).contains(x));
                        let w = choose|w: int|
                            0 <= w < keys_view(room_final.extremities@).len() && keys_view(
                                room_final.extremities@,
                            )[w] == x;
                    }
                }
            }
            // the queues: fan-out entries present, nothing dropped
            assert(pdu_id@ == pdu_id_bytes(ri as int, new_index as int));
            assert(servers_enqueued(&self.rooms@[ri as int], disp, old(self).server_name@, pdu_id@))
                by {
                assert(room_final.members@ == room.members@ || true);
                assert(members_view(self.rooms@[ri as int].members@) == members_view(
                    room_final.members@,
                ));
            }
            assert(appservices_enqueued(old(self), disp, room_id@, pdu_id@)) by {
                assert(pairs_view(old(self).appservices@) == pairs_view(self.appservices@));
            }
        }
        Ok(eid)
    }
}

/// The PDU id of the event at `counter` in room number `ri`: the room
/// index, the delimiter, the counter, all big-endian.
pub open spec fn pdu_id_bytes(ri: int, counter: int) -> Seq<u8> {
    crate::bytes::u64_be(ri as u64) + seq![255u8] + crate::bytes::u64_be(counter as u64)
}

/// Appending a room keeps the store well formed.
proof fn lemma_store_wf_push(post: &Store, pre: Seq<Room>, rid: Seq<u8>)
    requires
        post.rooms@.len() == pre.len() + 1,
        post.rooms@ == pre.push(post.rooms@.last()),
        wf_room(&post.rooms@[post.rooms@.len() - 1]),
        post.rooms@.last().room_id@ == rid,
        forall|i: int| 0 <= i < pre.len() ==> wf_room(#[trigger] &pre[i]),
        forall|i: int, j: int|
            0 <= i < j < pre.len() ==> (#[trigger] pre[i]).room_id@ != (#[trigger] pre[j]).room_id@,
        forall|i: int| 0 <= i < pre.len() ==> (#[trigger] pre[i]).room_id@ != rid,
        crate::pdu::valid_server_name(post.server_name@),
        post.server_name@[0] != 43u8,
        post.server_name@[0] != 36u8,
        forall|a: int|
            0 <= a < post.appservices@.len() ==> crate::queue::valid_destination(
                crate::queue::DestinationV::Appservice(
                    (#[trigger] pairs_view(post.appservices@)[a]).0,
                ),
            ),
    ensures
        post.wf(),
{
    assert forall|i: int| 0 <= i < post.rooms@.len() implies wf_room(
        #[trigger] &post.rooms@[i],
    ) by {
        if i < pre.len() {
            assert(post.rooms@[i] == pre[i]);
        }
    }
    assert forall|i: int, j: int| 0 <= i < j < post.rooms@.len() implies (
    #[trigger] post.rooms@[i]).room_id@ != (#[trigger] post.rooms@[j]).room_id@ by {
        if j < pre.len() {
            assert(post.rooms@[i] == pre[i] && post.rooms@[j] == pre[j]);
        } else {
            assert(post.rooms@[i] == pre[i]);
        }
    }
}

/// Replacing one room by its extension keeps the store well formed.
proof fn lemma_store_wf_update(post: &Store, pre: Seq<Room>, ri: int, room_pre: &Room)
    requires
        0 <= ri < pre.len(),
        post.rooms@.len() == pre.len(),
        post.rooms@ == pre.remove(ri).insert(ri, post.rooms@[ri]),
        wf_room(&post.rooms@[ri]),
        post.rooms@[ri].room_id@ == pre[ri].room_id@,
        forall|i: int| 0 <= i < pre.len() ==> wf_room(#[trigger] &pre[i]),
        forall|i: int, j: int|
            0 <= i < j < pre.len() ==> (#[trigger] pre[i]).room_id@ != (#[trigger] pre[j]).room_id@,
        crate::pdu::valid_server_name(post.server_name@),
        post.server_name@[0] != 43u8,
        post.server_name@[0] != 36u8,
        forall|a: int|
            0 <= a < post.appservices@.len() ==> crate::queue::valid_destination(
                crate::queue::DestinationV::Appservice(
                    (#[trigger] pairs_view(post.appservices@)[a]).0,
                ),
            ),
    ensures
        post.wf(),
{
    assert(post.rooms@ =~= pre.update(ri, post.rooms@[ri]));
    assert forall|i: int| 0 <= i < post.rooms@.len() implies wf_room(
        #[trigger] &post.rooms@[i],
    ) by {
        if i != ri {
            assert(post.rooms@[i] == pre[i]);
        }
    }
    assert forall|i: int, j: int| 0 <= i < j < post.rooms@.len() implies (
    #[trigger] post.rooms@[i]).room_id@ != (#[trigger] post.rooms@[j]).room_id@ by {
        if i != ri && j != ri {
            assert(post.rooms@[i] == pre[i] && post.rooms@[j] == pre[j]);
        } else if i == ri {
            assert(post.rooms@[j] == pre[j]);
            assert(pre[ri].room_id@ != pre[j].room_id@);
        } else {
            assert(post.rooms@[i] == pre[i]);
            assert(pre[i].room_id@ != pre[ri].room_id@);
        }
    }
}

} // verus!
