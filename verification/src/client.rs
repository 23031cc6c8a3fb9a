//! Client-facing helpers over the core: the state-event sender with its
//! canonical-alias admission rule.
//!
//! A client may only publish an `m.room.canonical_alias` event whose
//! aliases all live on this server and already resolve to the room the
//! event is sent into; a violating request is refused and nothing is
//! appended or enqueued.

use crate::append::PduBuilder;
use crate::bytes::{bytes_eq, server_of, server_part};
use crate::dispatch::Dispatcher;
use crate::json::{ascii_bytes, ascii_seq, bytes_clone, obj_get, obj_get_v, Json, JsonV};
use crate::pdu::{k_m_room_canonical_alias, key_m_room_canonical_alias, strs_of, strs_ok};
use crate::pdu::pairs_view;
use crate::store::{alias_lookup, Store};
use crate::Error;
use crate::ErrorKind;
use vstd::prelude::*;

verus! {

broadcast use vstd::std_specs::vec::group_vec_axioms;

/// The aliases an `m.room.canonical_alias` event names: `alt_aliases` in
/// order, then `alias` if set. `None` when either field has the wrong
/// shape.
pub open spec fn listed_aliases(content: JsonV) -> Option<Seq<Seq<u8>>> {
    if !(content is Obj) {
        None
    } else {
        let o = content->Obj_0;
        let alts: Seq<Seq<u8>> = match obj_get_v(o, ascii_seq("alt_aliases"@)) {
            Some(v) => if v is Arr && strs_ok(v->Arr_0) {
                strs_of(v->Arr_0)
            } else {
                Seq::empty()
            },
            None => Seq::empty(),
        };
        let shape_ok = match obj_get_v(o, ascii_seq("alt_aliases"@)) {
            Some(v) => v is Arr && strs_ok(v->Arr_0),
            None => true,
        };
        if !shape_ok {
            None
        } else {
            match obj_get_v(o, ascii_seq("alias"@)) {
                Some(v) => if v is Str {
                    Some(alts.push(v->Str_0))
                } else {
                    None
                },
                None => Some(alts),
            }
        }
    }
}

/// Whether every listed alias lives on this server and already resolves
/// to this room.
pub open spec fn aliases_all_ours(
    aliases_tbl: Seq<(Seq<u8>, Seq<u8>)>,
    server: Seq<u8>,
    room_id: Seq<u8>,
    listed: Seq<Seq<u8>>,
) -> bool {
    forall|i: int|
        0 <= i < listed.len() ==> server_part(#[trigger] listed[i]) == server && alias_lookup(
            aliases_tbl,
            listed[i],
        ) == Some(room_id)
}

/// Reads the listed aliases out of the event content.
fn read_aliases(content: &Json) -> (r: Result<Vec<Vec<u8>>, Error>)
    ensures
        match r {
            Ok(v) => listed_aliases(content@) == Some(crate::json::keys_view(v@)),
            Err(e) => e == Error::BadRequest(ErrorKind::BadJson) && listed_aliases(
                content@,
            ) is None,
        },
{
    proof {
        reveal_strlit("alt_aliases");
        reveal_strlit("alias");
    }
    let entries = match crate::json::as_obj(content) {
        Some(o) => o,
        None => {
            return Err(Error::BadRequest(ErrorKind::BadJson));
        },
    };
    let ka = ascii_bytes("alt_aliases");
    let mut out: Vec<Vec<u8>> = Vec::new();
    match obj_get(entries, &ka) {
        Some(v) => match crate::json::as_arr(v) {
            Some(a) => {
                let ghost av = crate::json::elems_view(a@);
                proof {
                    assert(obj_get_v(content@->Obj_0, ascii_seq("alt_aliases"@)) == Some(
                        JsonV::Arr(av),
                    ));
                }
                let mut i: usize = 0;
                while i < a.len()
                    invariant
                        0 <= i <= a@.len(),
                        av == crate::json::elems_view(a@),
                        av.len() == a@.len(),
                        content@ is Obj,
                        obj_get_v(content@->Obj_0, ascii_seq("alt_aliases"@)) == Some(
                            JsonV::Arr(av),
                        ),
                        out@.len() == i,
                        forall|t: int| 0 <= t < i ==> (#[trigger] av[t]) is Str,
                        forall|t: int|
                            0 <= t < i ==> (#[trigger] crate::json::keys_view(out@)[t]) == av[t]
                                ->Str_0,
                    decreases a@.len() - i,
                {
                    proof {
                        assert(av[i as int] == crate::json::json_view(a@[i as int]));
                    }
                    let ghost out_old = crate::json::keys_view(out@);
                    match crate::json::as_str(&a[i]) {
                        Some(s) => {
                            out.push(bytes_clone(s));
                            proof {
                                assert(crate::json::keys_view(out@) =~= out_old.push(
                                    av[i as int]->Str_0,
                                ));
                            }
                        },
                        None => {
                            proof {
                                assert(!strs_ok(av));
                            }
                            return Err(Error::BadRequest(ErrorKind::BadJson));
                        },
                    }
                    i = i + 1;
                }
                proof {
                    assert(strs_ok(av));
                    assert(crate::json::keys_view(out@) =~= strs_of(av));
                }
            },
            None => {
                return Err(Error::BadRequest(ErrorKind::BadJson));
            },
        },
        None => {
            proof {
                assert(crate::json::keys_view(out@) =~= Seq::<Seq<u8>>::empty());
            }
        },
    }
    let kal = ascii_bytes("alias");
    match obj_get(entries, &kal) {
        Some(v) => match crate::json::as_str(v) {
            Some(s) => {
                let ghost pre = crate::json::keys_view(out@);
                out.push(bytes_clone(s));
                proof {
                    assert(crate::json::keys_view(out@) =~= pre.push(s@));
                }
                Ok(out)
            },
            None => Err(Error::BadRequest(ErrorKind::BadJson)),
        },
        None => Ok(out),
    }
}

/// Sends one state event: an `m.room.canonical_alias` event is admitted only
/// when every alias it names lives on this server and already resolves to
/// this room; any other state event goes straight to the append pipeline.
/// A refusal appends nothing and enqueues nothing.
pub fn send_state_event_for_key_helper(
    store: &mut Store,
    disp: &mut Dispatcher,
    builder: &PduBuilder,
    sender: &Vec<u8>,
    room_id: &Vec<u8>,
    now_ms: u64,
) -> (r: Result<Vec<u8>, Error>)
    requires
        old(store).wf(),
        old(disp).wf(),
        now_ms < crate::json::json_int_max(),
    ensures
        final(store).wf(),
        final(disp).wf(),
        // a canonical-alias event that names a foreign or unbound alias is
        // refused as forbidden, with nothing written
        builder.event_type@ == k_m_room_canonical_alias() && (listed_aliases(builder.content@)
            matches Some(listed) && !aliases_all_ours(
            pairs_view(old(store).aliases@),
            old(store).server_name@,
            room_id@,
            listed,
        )) ==> r == Err::<Vec<u8>, Error>(Error::BadRequest(ErrorKind::Forbidden)),
        // one whose alias fields have the wrong shape is refused as bad JSON
        builder.event_type@ == k_m_room_canonical_alias() && listed_aliases(builder.content@)
            is None ==> r == Err::<Vec<u8>, Error>(Error::BadRequest(ErrorKind::BadJson)),
        r is Err ==> final(store).rooms@ == old(store).rooms@ && final(store).aliases@ == old(
            store,
        ).aliases@ && final(disp).pending@ == old(disp).pending@ && final(disp).current@ == old(
            disp,
        ).current@ && final(disp).in_flight@ == old(disp).in_flight@,
        r is Ok ==> crate::append::append_ok(
            old(store),
            final(store),
            old(disp),
            final(disp),
            builder,
            sender@,
            room_id@,
            now_ms,
            r->Ok_0@,
        ),
{
    let kc = key_m_room_canonical_alias();
    if bytes_eq(&builder.event_type, &kc) {
        let listed = match read_aliases(&builder.content) {
            Ok(v) => v,
            Err(e) => {
                return Err(e);
            },
        };
        let ghost lv = crate::json::keys_view(listed@);
        let mut i: usize = 0;
        while i < listed.len()
            invariant
                old(store) == store,
                old(disp) == disp,
                store.wf(),
                disp.wf(),
                0 <= i <= listed@.len(),
                lv == crate::json::keys_view(listed@),
                lv.len() == listed@.len(),
                listed_aliases(builder.content@) == Some(lv),
                forall|t: int|
                    0 <= t < i ==> server_part(#[trigger] lv[t]) == store.server_name@
                        && alias_lookup(pairs_view(store.aliases@), lv[t]) == Some(room_id@),
            decreases listed@.len() - i,
        {
            proof {
                assert(lv[i as int] == listed@[i as int]@);
            }
            let server = server_of(&listed[i]);
            if !bytes_eq(&server, &store.server_name) {
                return Err(Error::BadRequest(ErrorKind::Forbidden));
            }
            match store.id_from_alias(&listed[i]) {
                Some(bound) => {
                    if !bytes_eq(&bound, room_id) {
                        return Err(Error::BadRequest(ErrorKind::Forbidden));
                    }
                },
                None => {
                    return Err(Error::BadRequest(ErrorKind::Forbidden));
                },
            }
            i = i + 1;
        }
        proof {
            assert(aliases_all_ours(
                pairs_view(store.aliases@),
                store.server_name@,
                room_id@,
                lv,
            ));
        }
    }
    store.build_and_append_pdu(disp, builder, sender, room_id, now_ms)
}

} // verus!
