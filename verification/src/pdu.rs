//! The Persistent Data Unit and its canonical JSON codec.
//!
//! A PDU is the signed room event that the store appends and federation
//! exchanges. Its identity is content-addressed: the event id is the
//! reference hash of the event without `event_id`, `unsigned` and
//! `signatures`, prefixed with `$`.

use crate::bytes::{
    bytes_eq, lemma_lex_lt_irreflexive, lemma_lex_lt_transitive, lemma_lex_lt_unfold, lex_lt,
};
use crate::Error;
use crate::json::{
    ascii_bytes, ascii_seq, bytes_clone, entries_view, json_clone, json_view, keys_view, obj_get_v,
    obj_keys_sorted, wf_entries, wf_json, Json, JsonV,
};
use vstd::prelude::*;

verus! {

broadcast use vstd::std_specs::vec::group_vec_axioms;

/// Mathematical model of a PDU.
#[verifier::ext_equal]
pub struct PduV {
    pub event_id: Seq<u8>,
    pub room_id: Seq<u8>,
    pub sender: Seq<u8>,
    pub origin_server_ts: u64,
    pub kind: Seq<u8>,
    pub content: JsonV,
    pub state_key: Option<Seq<u8>>,
    pub prev_events: Seq<Seq<u8>>,
    pub depth: u64,
    pub auth_events: Seq<Seq<u8>>,
    pub redacts: Option<Seq<u8>>,
    pub unsigned: Seq<(Seq<u8>, JsonV)>,
    pub hashes: Seq<u8>,
    pub signatures: Seq<(Seq<u8>, Seq<(Seq<u8>, Seq<u8>)>)>,
}

/// A persistent data unit. All text fields are UTF-8 byte strings; `kind`
/// is the event type, `hashes` the base64 content hash, and `signatures`
/// maps a server name to a map from key id to signature.
pub struct Pdu {
    pub event_id: Vec<u8>,
    pub room_id: Vec<u8>,
    pub sender: Vec<u8>,
    pub origin_server_ts: u64,
    pub kind: Vec<u8>,
    pub content: Json,
    pub state_key: Option<Vec<u8>>,
    pub prev_events: Vec<Vec<u8>>,
    pub depth: u64,
    pub auth_events: Vec<Vec<u8>>,
    pub redacts: Option<Vec<u8>>,
    pub unsigned: Vec<(Vec<u8>, Json)>,
    pub hashes: Vec<u8>,
    pub signatures: Vec<(Vec<u8>, Vec<(Vec<u8>, Vec<u8>)>)>,
}

pub open spec fn opt_view(o: Option<Vec<u8>>) -> Option<Seq<u8>> {
    match o {
        Some(v) => Some(v@),
        None => None,
    }
}

pub open spec fn pairs_view(s: Seq<(Vec<u8>, Vec<u8>)>) -> Seq<(Seq<u8>, Seq<u8>)> {
    Seq::new(
        s.len(),
        |i: int|
            if 0 <= i < s.len() {
                (s[i].0@, s[i].1@)
            } else {
                (Seq::empty(), Seq::empty())
            },
    )
}

pub open spec fn sigs_view(s: Seq<(Vec<u8>, Vec<(Vec<u8>, Vec<u8>)>)>) -> Seq<
    (Seq<u8>, Seq<(Seq<u8>, Seq<u8>)>),
> {
    Seq::new(
        s.len(),
        |i: int|
            if 0 <= i < s.len() {
                (s[i].0@, pairs_view(s[i].1@))
            } else {
                (Seq::empty(), Seq::empty())
            },
    )
}

impl View for Pdu {
    type V = PduV;

    open spec fn view(&self) -> PduV {
        PduV {
            event_id: self.event_id@,
            room_id: self.room_id@,
            sender: self.sender@,
            origin_server_ts: self.origin_server_ts,
            kind: self.kind@,
            content: self.content@,
            state_key: opt_view(self.state_key),
            prev_events: keys_view(self.prev_events@),
            depth: self.depth,
            auth_events: keys_view(self.auth_events@),
            redacts: opt_view(self.redacts),
            unsigned: entries_view(self.unsigned@),
            hashes: self.hashes@,
            signatures: sigs_view(self.signatures@),
        }
    }
}

/// Event ids are `$` plus the reference hash.
pub open spec fn valid_event_id(s: Seq<u8>) -> bool {
    s.len() >= 2 && s[0] == 36u8
}

/// Room ids begin with `!`.
pub open spec fn valid_room_id(s: Seq<u8>) -> bool {
    s.len() >= 2 && s[0] == 33u8
}

/// User ids are `@localpart:server` with both parts non-empty.
pub open spec fn valid_user_id(s: Seq<u8>) -> bool {
    s.len() >= 4 && s[0] == 64u8 && exists|i: int| 2 <= i < s.len() - 1 && s[i] == 58u8
}

/// A byte a server name may hold: ASCII letters and digits, `-`, `.`, `:`.
/// The queue-key delimiter `0xff` and the tag bytes `+` and `$` are not
/// among them.
pub open spec fn is_server_byte(b: u8) -> bool {
    (48 <= b <= 57) || (65 <= b <= 90) || (97 <= b <= 122) || b == 45u8 || b == 46u8 || b == 58u8
}

pub open spec fn valid_server_name(s: Seq<u8>) -> bool {
    1 <= s.len() && forall|i: int| 0 <= i < s.len() ==> is_server_byte(#[trigger] s[i])
}

pub open spec fn sigs_sorted(s: Seq<(Seq<u8>, Seq<(Seq<u8>, Seq<u8>)>)>) -> bool {
    (forall|i: int, j: int| 0 <= i < j < s.len() ==> lex_lt(s[i].0, s[j].0)) && (forall|i: int|
        0 <= i < s.len() ==> inner_sorted(#[trigger] s[i].1))
}

pub open spec fn inner_sorted(s: Seq<(Seq<u8>, Seq<u8>)>) -> bool {
    forall|i: int, j: int| 0 <= i < j < s.len() ==> lex_lt(s[i].0, s[j].0)
}

/// A well-formed PDU: valid identifiers, timestamps and depth inside the
/// canonical JSON integer range, object content, and sorted unsigned and
/// signature maps.
pub open spec fn wf_pdu(p: PduV) -> bool {
    &&& valid_event_id(p.event_id)
    &&& valid_room_id(p.room_id)
    &&& valid_user_id(p.sender)
    &&& p.kind.len() > 0
    &&& (p.origin_server_ts as int) < crate::json::json_int_max()
    &&& (p.depth as int) < crate::json::json_int_max()
    &&& p.content is Obj
    &&& wf_json(p.content)
    &&& obj_keys_sorted(p.unsigned)
    &&& wf_entries(p.unsigned)
    &&& (p.redacts matches Some(r) ==> valid_event_id(r))
    &&& (forall|i: int|
        0 <= i < p.prev_events.len() ==> valid_event_id(#[trigger] p.prev_events[i]))
    &&& (forall|i: int|
        0 <= i < p.auth_events.len() ==> valid_event_id(#[trigger] p.auth_events[i]))
    &&& sigs_sorted(p.signatures)
}

// The keys of the canonical PDU object, in their one canonical (ascending)
// order.
pub open spec fn k_auth_events() -> Seq<u8> {
    ascii_seq("auth_events"@)
}

pub open spec fn k_content() -> Seq<u8> {
    ascii_seq("content"@)
}

pub open spec fn k_depth() -> Seq<u8> {
    ascii_seq("depth"@)
}

pub open spec fn k_event_id() -> Seq<u8> {
    ascii_seq("event_id"@)
}

pub open spec fn k_hashes() -> Seq<u8> {
    ascii_seq("hashes"@)
}

pub open spec fn k_origin_server_ts() -> Seq<u8> {
    ascii_seq("origin_server_ts"@)
}

pub open spec fn k_prev_events() -> Seq<u8> {
    ascii_seq("prev_events"@)
}

pub open spec fn k_redacts() -> Seq<u8> {
    ascii_seq("redacts"@)
}

pub open spec fn k_room_id() -> Seq<u8> {
    ascii_seq("room_id"@)
}

pub open spec fn k_sender() -> Seq<u8> {
    ascii_seq("sender"@)
}

pub open spec fn k_signatures() -> Seq<u8> {
    ascii_seq("signatures"@)
}

pub open spec fn k_state_key() -> Seq<u8> {
    ascii_seq("state_key"@)
}

pub open spec fn k_type() -> Seq<u8> {
    ascii_seq("type"@)
}

pub open spec fn k_unsigned() -> Seq<u8> {
    ascii_seq("unsigned"@)
}

pub open spec fn k_sha256() -> Seq<u8> {
    ascii_seq("sha256"@)
}

pub open spec fn k_redacted_because() -> Seq<u8> {
    ascii_seq("redacted_because"@)
}

pub open spec fn k_transaction_id() -> Seq<u8> {
    ascii_seq("transaction_id"@)
}

/// The fourteen keys in ascending order.
pub open spec fn pdu_key_list() -> Seq<Seq<u8>> {
    seq![
        k_auth_events(),
        k_content(),
        k_depth(),
        k_event_id(),
        k_hashes(),
        k_origin_server_ts(),
        k_prev_events(),
        k_redacts(),
        k_room_id(),
        k_sender(),
        k_signatures(),
        k_state_key(),
        k_type(),
        k_unsigned(),
    ]
}

proof fn lemma_lex_at(a: Seq<u8>, b: Seq<u8>, i: int)
    requires
        0 <= i < a.len(),
        i < b.len(),
        a[i] < b[i],
        a.subrange(0, i) == b.subrange(0, i),
    ensures
        lex_lt(a, b),
{
    lemma_lex_lt_unfold(a, b);
}

proof fn lemma_seq_chain_lt(ks: Seq<Seq<u8>>, i: int, j: int)
    requires
        forall|k: int| 0 <= k < ks.len() - 1 ==> lex_lt(#[trigger] ks[k], ks[k + 1]),
        0 <= i < j < ks.len(),
    ensures
        lex_lt(ks[i], ks[j]),
    decreases j - i,
{
    if j == i + 1 {
    } else {
        lemma_seq_chain_lt(ks, i, j - 1);
        lemma_lex_lt_transitive(ks[i], ks[j - 1], ks[j]);
    }
}

/// The canonical keys ascend pairwise, so they are pairwise distinct.
pub proof fn lemma_pdu_keys_order()
    ensures
        forall|i: int, j: int|
            0 <= i < j < pdu_key_list().len() ==> lex_lt(
                #[trigger] pdu_key_list()[i],
                #[trigger] pdu_key_list()[j],
            ),
        forall|i: int, j: int|
            0 <= i < j < pdu_key_list().len() ==> #[trigger] pdu_key_list()[i]
                != #[trigger] pdu_key_list()[j],
{
    reveal_strlit("auth_events");
    reveal_strlit("content");
    reveal_strlit("depth");
    reveal_strlit("event_id");
    reveal_strlit("hashes");
    reveal_strlit("origin_server_ts");
    reveal_strlit("prev_events");
    reveal_strlit("redacts");
    reveal_strlit("room_id");
    reveal_strlit("sender");
    reveal_strlit("signatures");
    reveal_strlit("state_key");
    reveal_strlit("type");
    reveal_strlit("unsigned");
    let ks = pdu_key_list();
    assert(ks[0].subrange(0, 0) =~= ks[1].subrange(0, 0));
    lemma_lex_at(ks[0], ks[1], 0);
    assert(ks[1].subrange(0, 0) =~= ks[2].subrange(0, 0));
    lemma_lex_at(ks[1], ks[2], 0);
    assert(ks[2].subrange(0, 0) =~= ks[3].subrange(0, 0));
    lemma_lex_at(ks[2], ks[3], 0);
    assert(ks[3].subrange(0, 0) =~= ks[4].subrange(0, 0));
    lemma_lex_at(ks[3], ks[4], 0);
    assert(ks[4].subrange(0, 0) =~= ks[5].subrange(0, 0));
    lemma_lex_at(ks[4], ks[5], 0);
    assert(ks[5].subrange(0, 0) =~= ks[6].subrange(0, 0));
    lemma_lex_at(ks[5], ks[6], 0);
    assert(ks[6].subrange(0, 0) =~= ks[7].subrange(0, 0));
    lemma_lex_at(ks[6], ks[7], 0);
    assert(ks[7].subrange(0, 1) =~= ks[8].subrange(0, 1));
    lemma_lex_at(ks[7], ks[8], 1);
    assert(ks[8].subrange(0, 0) =~= ks[9].subrange(0, 0));
    lemma_lex_at(ks[8], ks[9], 0);
    assert(ks[9].subrange(0, 1) =~= ks[10].subrange(0, 1));
    lemma_lex_at(ks[9], ks[10], 1);
    assert(ks[10].subrange(0, 1) =~= ks[11].subrange(0, 1));
    lemma_lex_at(ks[10], ks[11], 1);
    assert(ks[11].subrange(0, 0) =~= ks[12].subrange(0, 0));
    lemma_lex_at(ks[11], ks[12], 0);
    assert(ks[12].subrange(0, 0) =~= ks[13].subrange(0, 0));
    lemma_lex_at(ks[12], ks[13], 0);
    assert(forall|k: int| 0 <= k < ks.len() - 1 ==> lex_lt(#[trigger] ks[k], ks[k + 1]));
    assert forall|i: int, j: int| 0 <= i < j < ks.len() implies lex_lt(
        #[trigger] ks[i],
        #[trigger] ks[j],
    ) by {
        lemma_seq_chain_lt(ks, i, j);
    }
    assert forall|i: int, j: int| 0 <= i < j < ks.len() implies #[trigger] ks[i]
        != #[trigger] ks[j] by {
        lemma_lex_lt_irreflexive(ks[i]);
    }
}

/// Event ids as an array of JSON strings.
pub open spec fn str_arr_v(ids: Seq<Seq<u8>>) -> Seq<JsonV> {
    Seq::new(
        ids.len(),
        |i: int|
            if 0 <= i < ids.len() {
                JsonV::Str(ids[i])
            } else {
                JsonV::Null
            },
    )
}

/// A key-id/signature map as JSON object entries.
pub open spec fn sig_inner_obj_v(p: Seq<(Seq<u8>, Seq<u8>)>) -> Seq<(Seq<u8>, JsonV)> {
    Seq::new(
        p.len(),
        |i: int|
            if 0 <= i < p.len() {
                (p[i].0, JsonV::Str(p[i].1))
            } else {
                (Seq::empty(), JsonV::Null)
            },
    )
}

/// The signatures map as a JSON object.
pub open spec fn sig_obj_v(s: Seq<(Seq<u8>, Seq<(Seq<u8>, Seq<u8>)>)>) -> JsonV {
    JsonV::Obj(
        Seq::new(
            s.len(),
            |i: int|
                if 0 <= i < s.len() {
                    (s[i].0, JsonV::Obj(sig_inner_obj_v(s[i].1)))
                } else {
                    (Seq::empty(), JsonV::Null)
                },
        ),
    )
}

/// The entries of the canonical JSON object of a PDU, in ascending key
/// order. `state_key` and `redacts` appear only when set, `unsigned` only
/// when non-empty.
pub open spec fn pdu_entries_v(p: PduV) -> Seq<(Seq<u8>, JsonV)> {
    seq![
        (k_auth_events(), JsonV::Arr(str_arr_v(p.auth_events))),
        (k_content(), p.content),
        (k_depth(), JsonV::Int(p.depth as int)),
        (k_event_id(), JsonV::Str(p.event_id)),
        (k_hashes(), JsonV::Obj(seq![(k_sha256(), JsonV::Str(p.hashes))])),
        (k_origin_server_ts(), JsonV::Int(p.origin_server_ts as int)),
        (k_prev_events(), JsonV::Arr(str_arr_v(p.prev_events))),
    ] + (match p.redacts {
        Some(r) => seq![(k_redacts(), JsonV::Str(r))],
        None => Seq::empty(),
    }) + seq![
        (k_room_id(), JsonV::Str(p.room_id)),
        (k_sender(), JsonV::Str(p.sender)),
        (k_signatures(), sig_obj_v(p.signatures)),
    ] + (match p.state_key {
        Some(sk) => seq![(k_state_key(), JsonV::Str(sk))],
        None => Seq::empty(),
    }) + seq![(k_type(), JsonV::Str(p.kind))] + (if p.unsigned.len() > 0 {
        seq![(k_unsigned(), JsonV::Obj(p.unsigned))]
    } else {
        Seq::empty()
    })
}

/// The canonical JSON object of a PDU.
pub open spec fn pdu_obj_v(p: PduV) -> JsonV {
    JsonV::Obj(pdu_entries_v(p))
}

/// The object that is hashed to derive the event id: the PDU without
/// `event_id`, `unsigned` and `signatures`.
pub open spec fn pdu_hash_entries_v(p: PduV) -> Seq<(Seq<u8>, JsonV)> {
    seq![
        (k_auth_events(), JsonV::Arr(str_arr_v(p.auth_events))),
        (k_content(), p.content),
        (k_depth(), JsonV::Int(p.depth as int)),
        (k_hashes(), JsonV::Obj(seq![(k_sha256(), JsonV::Str(p.hashes))])),
        (k_origin_server_ts(), JsonV::Int(p.origin_server_ts as int)),
        (k_prev_events(), JsonV::Arr(str_arr_v(p.prev_events))),
    ] + (match p.redacts {
        Some(r) => seq![(k_redacts(), JsonV::Str(r))],
        None => Seq::empty(),
    }) + seq![(k_room_id(), JsonV::Str(p.room_id)), (k_sender(), JsonV::Str(p.sender))] + (
    match p.state_key {
        Some(sk) => seq![(k_state_key(), JsonV::Str(sk))],
        None => Seq::empty(),
    }) + seq![(k_type(), JsonV::Str(p.kind))]
}

// Reading a PDU back out of a canonical object.
pub open spec fn strs_ok(a: Seq<JsonV>) -> bool {
    forall|i: int| 0 <= i < a.len() ==> (#[trigger] a[i]) is Str
}

pub open spec fn ids_ok(a: Seq<JsonV>) -> bool {
    strs_ok(a) && forall|i: int| 0 <= i < a.len() ==> valid_event_id((#[trigger] a[i])->Str_0)
}

pub open spec fn strs_of(a: Seq<JsonV>) -> Seq<Seq<u8>> {
    Seq::new(
        a.len(),
        |i: int|
            if 0 <= i < a.len() {
                a[i]->Str_0
            } else {
                Seq::empty()
            },
    )
}

pub open spec fn sig_inner_strs(q: Seq<(Seq<u8>, JsonV)>) -> bool {
    forall|i: int| 0 <= i < q.len() ==> (#[trigger] q[i]).1 is Str
}

pub open spec fn inner_of(q: Seq<(Seq<u8>, JsonV)>) -> Seq<(Seq<u8>, Seq<u8>)> {
    Seq::new(
        q.len(),
        |i: int|
            if 0 <= i < q.len() {
                (q[i].0, q[i].1->Str_0)
            } else {
                (Seq::empty(), Seq::empty())
            },
    )
}

pub open spec fn sigs_shape_ok(so: Seq<(Seq<u8>, JsonV)>) -> bool {
    forall|i: int|
        0 <= i < so.len() ==> (#[trigger] so[i]).1 is Obj && sig_inner_strs(so[i].1->Obj_0)
}

pub open spec fn sigs_of(so: Seq<(Seq<u8>, JsonV)>) -> Seq<(Seq<u8>, Seq<(Seq<u8>, Seq<u8>)>)> {
    Seq::new(
        so.len(),
        |i: int|
            if 0 <= i < so.len() {
                (so[i].0, inner_of(so[i].1->Obj_0))
            } else {
                (Seq::empty(), Seq::empty())
            },
    )
}

/// Whether a canonical object carries every PDU field in the right shape,
/// under the given event id.
pub open spec fn from_ok(o: Seq<(Seq<u8>, JsonV)>, event_id: Seq<u8>) -> bool {
    &&& valid_event_id(event_id)
    &&& obj_get_v(o, k_auth_events()) is Some
    &&& obj_get_v(o, k_auth_events())->Some_0 is Arr
    &&& ids_ok(obj_get_v(o, k_auth_events())->Some_0->Arr_0)
    &&& obj_get_v(o, k_prev_events()) is Some
    &&& obj_get_v(o, k_prev_events())->Some_0 is Arr
    &&& ids_ok(obj_get_v(o, k_prev_events())->Some_0->Arr_0)
    &&& obj_get_v(o, k_content()) is Some
    &&& obj_get_v(o, k_content())->Some_0 is Obj
    &&& wf_json(obj_get_v(o, k_content())->Some_0)
    &&& obj_get_v(o, k_depth()) is Some
    &&& obj_get_v(o, k_depth())->Some_0 is Int
    &&& 0 <= obj_get_v(o, k_depth())->Some_0->Int_0 < crate::json::json_int_max()
    &&& obj_get_v(o, k_origin_server_ts()) is Some
    &&& obj_get_v(o, k_origin_server_ts())->Some_0 is Int
    &&& 0 <= obj_get_v(o, k_origin_server_ts())->Some_0->Int_0 < crate::json::json_int_max()
    &&& obj_get_v(o, k_hashes()) is Some
    &&& obj_get_v(o, k_hashes())->Some_0 is Obj
    &&& obj_get_v(o, k_hashes())->Some_0->Obj_0.len() == 1
    &&& obj_get_v(o, k_hashes())->Some_0->Obj_0[0].0 == k_sha256()
    &&& obj_get_v(o, k_hashes())->Some_0->Obj_0[0].1 is Str
    &&& obj_get_v(o, k_room_id()) is Some
    &&& obj_get_v(o, k_room_id())->Some_0 is Str
    &&& valid_room_id(obj_get_v(o, k_room_id())->Some_0->Str_0)
    &&& obj_get_v(o, k_sender()) is Some
    &&& obj_get_v(o, k_sender())->Some_0 is Str
    &&& valid_user_id(obj_get_v(o, k_sender())->Some_0->Str_0)
    &&& obj_get_v(o, k_type()) is Some
    &&& obj_get_v(o, k_type())->Some_0 is Str
    &&& obj_get_v(o, k_type())->Some_0->Str_0.len() > 0
    &&& obj_get_v(o, k_signatures()) is Some
    &&& obj_get_v(o, k_signatures())->Some_0 is Obj
    &&& sigs_shape_ok(obj_get_v(o, k_signatures())->Some_0->Obj_0)
    &&& sigs_sorted(sigs_of(obj_get_v(o, k_signatures())->Some_0->Obj_0))
    &&& match obj_get_v(o, k_redacts()) {
        Option::None => true,
        Option::Some(v) => v is Str && valid_event_id(v->Str_0),
    }
    &&& match obj_get_v(o, k_state_key()) {
        Option::None => true,
        Option::Some(v) => v is Str,
    }
    &&& match obj_get_v(o, k_unsigned()) {
        Option::None => true,
        Option::Some(v) => v is Obj && obj_keys_sorted(v->Obj_0) && wf_entries(v->Obj_0),
    }
}

pub open spec fn opt_str_of(o: Seq<(Seq<u8>, JsonV)>, k: Seq<u8>) -> Option<Seq<u8>> {
    match obj_get_v(o, k) {
        Option::Some(v) => Some(v->Str_0),
        Option::None => None,
    }
}

pub open spec fn unsigned_of(o: Seq<(Seq<u8>, JsonV)>) -> Seq<(Seq<u8>, JsonV)> {
    match obj_get_v(o, k_unsigned()) {
        Option::Some(v) => v->Obj_0,
        Option::None => Seq::empty(),
    }
}

/// The PDU a canonical object denotes, under the given event id.
pub open spec fn from_fields(o: Seq<(Seq<u8>, JsonV)>, event_id: Seq<u8>) -> PduV {
    PduV {
        event_id: event_id,
        room_id: obj_get_v(o, k_room_id())->Some_0->Str_0,
        sender: obj_get_v(o, k_sender())->Some_0->Str_0,
        origin_server_ts: obj_get_v(o, k_origin_server_ts())->Some_0->Int_0 as u64,
        kind: obj_get_v(o, k_type())->Some_0->Str_0,
        content: obj_get_v(o, k_content())->Some_0,
        state_key: opt_str_of(o, k_state_key()),
        prev_events: strs_of(obj_get_v(o, k_prev_events())->Some_0->Arr_0),
        depth: obj_get_v(o, k_depth())->Some_0->Int_0 as u64,
        auth_events: strs_of(obj_get_v(o, k_auth_events())->Some_0->Arr_0),
        redacts: opt_str_of(o, k_redacts()),
        unsigned: unsigned_of(o),
        hashes: obj_get_v(o, k_hashes())->Some_0->Obj_0[0].1->Str_0,
        signatures: sigs_of(obj_get_v(o, k_signatures())->Some_0->Obj_0),
    }
}

/// What a full canonical object (carrying its own `event_id`) denotes.
pub open spec fn pdu_from_obj_v(v: JsonV) -> Option<PduV> {
    if v is Obj {
        let o = v->Obj_0;
        if obj_get_v(o, k_event_id()) is Some && obj_get_v(o, k_event_id())->Some_0 is Str
            && from_ok(o, obj_get_v(o, k_event_id())->Some_0->Str_0) {
            Some(from_fields(o, obj_get_v(o, k_event_id())->Some_0->Str_0))
        } else {
            None
        }
    } else {
        None
    }
}

// Event types the core logic matches on.
pub open spec fn k_m_room_create() -> Seq<u8> {
    ascii_seq("m.room.create"@)
}

pub fn key_m_room_create() -> (r: Vec<u8>)
    ensures
        r@ == k_m_room_create(),
{
    proof {
        reveal_strlit("m.room.create");
    }
    ascii_bytes("m.room.create")
}

pub open spec fn k_m_room_member() -> Seq<u8> {
    ascii_seq("m.room.member"@)
}

pub fn key_m_room_member() -> (r: Vec<u8>)
    ensures
        r@ == k_m_room_member(),
{
    proof {
        reveal_strlit("m.room.member");
    }
    ascii_bytes("m.room.member")
}

pub open spec fn k_m_room_power_levels() -> Seq<u8> {
    ascii_seq("m.room.power_levels"@)
}

pub fn key_m_room_power_levels() -> (r: Vec<u8>)
    ensures
        r@ == k_m_room_power_levels(),
{
    proof {
        reveal_strlit("m.room.power_levels");
    }
    ascii_bytes("m.room.power_levels")
}

pub open spec fn k_m_room_join_rules() -> Seq<u8> {
    ascii_seq("m.room.join_rules"@)
}

pub fn key_m_room_join_rules() -> (r: Vec<u8>)
    ensures
        r@ == k_m_room_join_rules(),
{
    proof {
        reveal_strlit("m.room.join_rules");
    }
    ascii_bytes("m.room.join_rules")
}

pub open spec fn k_m_room_message() -> Seq<u8> {
    ascii_seq("m.room.message"@)
}

pub fn key_m_room_message() -> (r: Vec<u8>)
    ensures
        r@ == k_m_room_message(),
{
    proof {
        reveal_strlit("m.room.message");
    }
    ascii_bytes("m.room.message")
}

pub open spec fn k_m_room_canonical_alias() -> Seq<u8> {
    ascii_seq("m.room.canonical_alias"@)
}

pub fn key_m_room_canonical_alias() -> (r: Vec<u8>)
    ensures
        r@ == k_m_room_canonical_alias(),
{
    proof {
        reveal_strlit("m.room.canonical_alias");
    }
    ascii_bytes("m.room.canonical_alias")
}

pub open spec fn k_m_room_history_visibility() -> Seq<u8> {
    ascii_seq("m.room.history_visibility"@)
}

pub fn key_m_room_history_visibility() -> (r: Vec<u8>)
    ensures
        r@ == k_m_room_history_visibility(),
{
    proof {
        reveal_strlit("m.room.history_visibility");
    }
    ascii_bytes("m.room.history_visibility")
}

// Exec forms of the keys.
pub fn key_auth_events() -> (r: Vec<u8>)
    ensures
        r@ == k_auth_events(),
{
    proof {
        reveal_strlit("auth_events");
    }
    ascii_bytes("auth_events")
}

pub fn key_content() -> (r: Vec<u8>)
    ensures
        r@ == k_content(),
{
    proof {
        reveal_strlit("content");
    }
    ascii_bytes("content")
}

pub fn key_depth() -> (r: Vec<u8>)
    ensures
        r@ == k_depth(),
{
    proof {
        reveal_strlit("depth");
    }
    ascii_bytes("depth")
}

pub fn key_event_id() -> (r: Vec<u8>)
    ensures
        r@ == k_event_id(),
{
    proof {
        reveal_strlit("event_id");
    }
    ascii_bytes("event_id")
}

pub fn key_hashes() -> (r: Vec<u8>)
    ensures
        r@ == k_hashes(),
{
    proof {
        reveal_strlit("hashes");
    }
    ascii_bytes("hashes")
}

pub fn key_origin_server_ts() -> (r: Vec<u8>)
    ensures
        r@ == k_origin_server_ts(),
{
    proof {
        reveal_strlit("origin_server_ts");
    }
    ascii_bytes("origin_server_ts")
}

pub fn key_prev_events() -> (r: Vec<u8>)
    ensures
        r@ == k_prev_events(),
{
    proof {
        reveal_strlit("prev_events");
    }
    ascii_bytes("prev_events")
}

pub fn key_redacts() -> (r: Vec<u8>)
    ensures
        r@ == k_redacts(),
{
    proof {
        reveal_strlit("redacts");
    }
    ascii_bytes("redacts")
}

pub fn key_room_id() -> (r: Vec<u8>)
    ensures
        r@ == k_room_id(),
{
    proof {
        reveal_strlit("room_id");
    }
    ascii_bytes("room_id")
}

pub fn key_sender() -> (r: Vec<u8>)
    ensures
        r@ == k_sender(),
{
    proof {
        reveal_strlit("sender");
    }
    ascii_bytes("sender")
}

pub fn key_signatures() -> (r: Vec<u8>)
    ensures
        r@ == k_signatures(),
{
    proof {
        reveal_strlit("signatures");
    }
    ascii_bytes("signatures")
}

pub fn key_state_key() -> (r: Vec<u8>)
    ensures
        r@ == k_state_key(),
{
    proof {
        reveal_strlit("state_key");
    }
    ascii_bytes("state_key")
}

pub fn key_type() -> (r: Vec<u8>)
    ensures
        r@ == k_type(),
{
    proof {
        reveal_strlit("type");
    }
    ascii_bytes("type")
}

pub fn key_unsigned() -> (r: Vec<u8>)
    ensures
        r@ == k_unsigned(),
{
    proof {
        reveal_strlit("unsigned");
    }
    ascii_bytes("unsigned")
}

pub fn key_sha256() -> (r: Vec<u8>)
    ensures
        r@ == k_sha256(),
{
    proof {
        reveal_strlit("sha256");
    }
    ascii_bytes("sha256")
}

pub fn key_redacted_because() -> (r: Vec<u8>)
    ensures
        r@ == k_redacted_because(),
{
    proof {
        reveal_strlit("redacted_because");
    }
    ascii_bytes("redacted_because")
}

pub fn key_transaction_id() -> (r: Vec<u8>)
    ensures
        r@ == k_transaction_id(),
{
    proof {
        reveal_strlit("transaction_id");
    }
    ascii_bytes("transaction_id")
}

proof fn lemma_chain_pairwise<T>(s: Seq<(Seq<u8>, T)>, i: int, j: int)
    requires
        forall|k: int| 0 <= k < s.len() - 1 ==> lex_lt((#[trigger] s[k]).0, s[k + 1].0),
        0 <= i < j < s.len(),
    ensures
        lex_lt(s[i].0, s[j].0),
    decreases j - i,
{
    if j == i + 1 {
    } else {
        lemma_chain_pairwise(s, i, j - 1);
        lemma_lex_lt_transitive(s[i].0, s[j - 1].0, s[j].0);
    }
}

/// Keys that ascend between neighbours ascend pairwise.
pub proof fn lemma_adjacent_pairwise<T>(s: Seq<(Seq<u8>, T)>)
    requires
        forall|k: int| 0 <= k < s.len() - 1 ==> lex_lt((#[trigger] s[k]).0, s[k + 1].0),
    ensures
        forall|i: int, j: int| 0 <= i < j < s.len() ==> lex_lt(s[i].0, s[j].0),
{
    assert forall|i: int, j: int| 0 <= i < j < s.len() implies lex_lt(s[i].0, s[j].0) by {
        lemma_chain_pairwise(s, i, j);
    }
}

/// Whether the bytes are a valid event id.
pub fn is_valid_event_id(s: &Vec<u8>) -> (r: bool)
    ensures
        r == valid_event_id(s@),
{
    if s.len() >= 2 {
        s[0] == 36
    } else {
        false
    }
}

/// Whether the bytes are a valid room id.
pub fn is_valid_room_id(s: &Vec<u8>) -> (r: bool)
    ensures
        r == valid_room_id(s@),
{
    if s.len() >= 2 {
        s[0] == 33
    } else {
        false
    }
}

/// Whether the bytes are a valid user id.
pub fn is_valid_user_id(s: &Vec<u8>) -> (r: bool)
    ensures
        r == valid_user_id(s@),
{
    if s.len() < 4 || s[0] != 64 {
        return false;
    }
    let mut i: usize = 2;
    while i < s.len() - 1
        invariant
            4 <= s@.len(),
            s@.len() <= usize::MAX,
            s@[0] == 64u8,
            2 <= i <= s@.len() - 1,
            forall|t: int| 2 <= t < i ==> s@[t] != 58u8,
        decreases s@.len() - i,
    {
        if s[i] == 58 {
            return true;
        }
        i = i + 1;
    }
    proof {
        if valid_user_id(s@) {
            let t = choose|t: int| 2 <= t < s@.len() - 1 && s@[t] == 58u8;
            assert(s@[t] != 58u8);
        }
    }
    false
}

/// Whether the bytes are a valid server name.
pub fn is_valid_server_name(s: &Vec<u8>) -> (r: bool)
    ensures
        r == valid_server_name(s@),
{
    if s.len() == 0 {
        return false;
    }
    let mut i: usize = 0;
    while i < s.len()
        invariant
            0 <= i <= s@.len(),
            forall|t: int| 0 <= t < i ==> is_server_byte(#[trigger] s@[t]),
        decreases s@.len() - i,
    {
        let b = s[i];
        let ok = (48 <= b && b <= 57) || (65 <= b && b <= 90) || (97 <= b && b <= 122) || b == 45
            || b == 46 || b == 58;
        if !ok {
            return false;
        }
        i = i + 1;
    }
    true
}

/// Reads an array of event ids from an object field.
fn read_id_array(entries: &Vec<(Vec<u8>, Json)>, key: &Vec<u8>) -> (r: Result<Vec<Vec<u8>>, Error>)
    ensures
        ({
            let g = obj_get_v(entries_view(entries@), key@);
            match r {
                Ok(v) => g is Some && g->Some_0 is Arr && ids_ok(g->Some_0->Arr_0) && keys_view(v@)
                    == strs_of(g->Some_0->Arr_0),
                Err(e) => e == Error::BadDatabase && !(g is Some && g->Some_0 is Arr && ids_ok(
                    g->Some_0->Arr_0,
                )),
            }
        }),
{
    let g = match crate::json::obj_get(entries, key) {
        Some(j) => j,
        None => {
            return Err(Error::BadDatabase);
        },
    };
    let a = match crate::json::as_arr(g) {
        Some(a) => a,
        None => {
            return Err(Error::BadDatabase);
        },
    };
    let ghost av = crate::json::elems_view(a@);
    proof {
        assert(obj_get_v(entries_view(entries@), key@) == Some(JsonV::Arr(av)));
    }
    let mut out: Vec<Vec<u8>> = Vec::new();
    let mut i: usize = 0;
    while i < a.len()
        invariant
            0 <= i <= a@.len(),
            av == crate::json::elems_view(a@),
            av.len() == a@.len(),
            obj_get_v(entries_view(entries@), key@) == Some(JsonV::Arr(av)),
            out@.len() == i,
            forall|t: int| 0 <= t < i ==> (#[trigger] av[t]) is Str,
            forall|t: int| 0 <= t < i ==> valid_event_id((#[trigger] av[t])->Str_0),
            forall|t: int| 0 <= t < i ==> (#[trigger] out@[t])@ == av[t]->Str_0,
        decreases a@.len() - i,
    {
        proof {
            assert(av[i as int] == json_view(a@[i as int]));
        }
        let s = match crate::json::as_str(&a[i]) {
            Some(s) => s,
            None => {
                return Err(Error::BadDatabase);
            },
        };
        if !is_valid_event_id(s) {
            return Err(Error::BadDatabase);
        }
        out.push(bytes_clone(s));
        i = i + 1;
    }
    proof {
        assert(keys_view(out@) =~= strs_of(av));
    }
    Ok(out)
}

/// Reads a required string field.
fn read_req_str(entries: &Vec<(Vec<u8>, Json)>, key: &Vec<u8>) -> (r: Result<Vec<u8>, Error>)
    ensures
        ({
            let g = obj_get_v(entries_view(entries@), key@);
            match r {
                Ok(v) => g is Some && g->Some_0 is Str && v@ == g->Some_0->Str_0,
                Err(e) => e == Error::BadDatabase && !(g is Some && g->Some_0 is Str),
            }
        }),
{
    match crate::json::obj_get(entries, key) {
        Some(j) => match crate::json::as_str(j) {
            Some(s) => Ok(bytes_clone(s)),
            None => Err(Error::BadDatabase),
        },
        None => Err(Error::BadDatabase),
    }
}

/// Reads an optional string field.
fn read_opt_str(entries: &Vec<(Vec<u8>, Json)>, key: &Vec<u8>) -> (r: Result<
    Option<Vec<u8>>,
    Error,
>)
    ensures
        ({
            let g = obj_get_v(entries_view(entries@), key@);
            match r {
                Ok(v) => match v {
                    Option::Some(s) => g is Some && g->Some_0 is Str && s@ == g->Some_0->Str_0,
                    Option::None => g is None,
                },
                Err(e) => e == Error::BadDatabase && g is Some && !(g->Some_0 is Str),
            }
        }),
{
    match crate::json::obj_get(entries, key) {
        Some(j) => match crate::json::as_str(j) {
            Some(s) => Ok(Some(bytes_clone(s))),
            None => Err(Error::BadDatabase),
        },
        None => Ok(None),
    }
}

/// Reads an integer field in the canonical range.
fn read_int_u64(entries: &Vec<(Vec<u8>, Json)>, key: &Vec<u8>) -> (r: Result<u64, Error>)
    ensures
        ({
            let g = obj_get_v(entries_view(entries@), key@);
            match r {
                Ok(v) => g is Some && g->Some_0 is Int && 0 <= g->Some_0->Int_0
                    < crate::json::json_int_max() && v as int == g->Some_0->Int_0,
                Err(e) => e == Error::BadDatabase && !(g is Some && g->Some_0 is Int && 0 <= g
                    ->Some_0->Int_0 < crate::json::json_int_max()),
            }
        }),
{
    match crate::json::obj_get(entries, key) {
        Some(j) => match crate::json::as_int(j) {
            Some(x) => {
                if 0 <= x && x < 9007199254740992i64 {
                    Ok(x as u64)
                } else {
                    Err(Error::BadDatabase)
                }
            },
            None => Err(Error::BadDatabase),
        },
        None => Err(Error::BadDatabase),
    }
}

/// Reads the `hashes` object: exactly one `sha256` entry.
fn read_hash(entries: &Vec<(Vec<u8>, Json)>) -> (r: Result<Vec<u8>, Error>)
    ensures
        ({
            let g = obj_get_v(entries_view(entries@), k_hashes());
            let ok = g is Some && g->Some_0 is Obj && g->Some_0->Obj_0.len() == 1 && g
                ->Some_0->Obj_0[0].0 == k_sha256() && g->Some_0->Obj_0[0].1 is Str;
            match r {
                Ok(v) => ok && v@ == g->Some_0->Obj_0[0].1->Str_0,
                Err(e) => e == Error::BadDatabase && !ok,
            }
        }),
{
    let kh = key_hashes();
    let g = match crate::json::obj_get(entries, &kh) {
        Some(j) => j,
        None => {
            return Err(Error::BadDatabase);
        },
    };
    let h = match crate::json::as_obj(g) {
        Some(h) => h,
        None => {
            return Err(Error::BadDatabase);
        },
    };
    if h.len() != 1 {
        return Err(Error::BadDatabase);
    }
    let ks = key_sha256();
    if !bytes_eq(&h[0].0, &ks) {
        proof {
            assert(entries_view(h@)[0].0 == h@[0].0@);
        }
        return Err(Error::BadDatabase);
    }
    proof {
        assert(entries_view(h@)[0] == (h@[0].0@, json_view(h@[0].1)));
    }
    match crate::json::as_str(&h[0].1) {
        Some(s) => Ok(bytes_clone(s)),
        None => Err(Error::BadDatabase),
    }
}

/// Reads the signatures map, checking shape and key order.
fn read_sigs(entries: &Vec<(Vec<u8>, Json)>) -> (r: Result<
    Vec<(Vec<u8>, Vec<(Vec<u8>, Vec<u8>)>)>,
    Error,
>)
    ensures
        ({
            let g = obj_get_v(entries_view(entries@), k_signatures());
            let ok = g is Some && g->Some_0 is Obj && sigs_shape_ok(g->Some_0->Obj_0)
                && sigs_sorted(sigs_of(g->Some_0->Obj_0));
            match r {
                Ok(v) => ok && sigs_view(v@) == sigs_of(g->Some_0->Obj_0),
                Err(e) => e == Error::BadDatabase && !ok,
            }
        }),
{
    let kk = key_signatures();
    let g = match crate::json::obj_get(entries, &kk) {
        Some(j) => j,
        None => {
            return Err(Error::BadDatabase);
        },
    };
    let so = match crate::json::as_obj(g) {
        Some(o) => o,
        None => {
            return Err(Error::BadDatabase);
        },
    };
    let ghost sov = entries_view(so@);
    let ghost target = obj_get_v(entries_view(entries@), k_signatures());
    proof {
        assert(target == Some(JsonV::Obj(sov)));
    }
    let mut out: Vec<(Vec<u8>, Vec<(Vec<u8>, Vec<u8>)>)> = Vec::new();
    let mut i: usize = 0;
    while i < so.len()
        invariant
            0 <= i <= so@.len(),
            sov == entries_view(so@),
            sov.len() == so@.len(),
            target == obj_get_v(entries_view(entries@), k_signatures()),
            target == Some(JsonV::Obj(sov)),
            out@.len() == i,
            forall|t: int|
                0 <= t < i ==> (#[trigger] sov[t]).1 is Obj && sig_inner_strs(sov[t].1->Obj_0),
            forall|t: int| 0 <= t < i ==> (#[trigger] sigs_view(out@)[t]) == sigs_of(sov)[t],
            forall|t: int| 0 <= t < i - 1 ==> lex_lt((#[trigger] sov[t]).0, sov[t + 1].0),
            forall|t: int| 0 <= t < i ==> inner_sorted(inner_of((#[trigger] sov[t]).1->Obj_0)),
        decreases so@.len() - i,
    {
        proof {
            assert(sov[i as int] == (so@[i as int].0@, json_view(so@[i as int].1)));
            if i > 0 {
                assert(sov[i - 1] == (so@[i - 1].0@, json_view(so@[i - 1].1)));
            }
        }
        if i > 0 {
            if !crate::bytes::bytes_lt(&so[i - 1].0, &so[i].0) {
                proof {
                    assert(sigs_of(sov)[i - 1].0 == sov[i - 1].0);
                    assert(sigs_of(sov)[i as int].0 == sov[i as int].0);
                    if sigs_sorted(sigs_of(sov)) {
                        assert(lex_lt(sigs_of(sov)[i - 1].0, sigs_of(sov)[i as int].0));
                    }
                }
                return Err(Error::BadDatabase);
            }
        }
        let q = match crate::json::as_obj(&so[i].1) {
            Some(q) => q,
            None => {
                proof {
                    if sigs_shape_ok(sov) {
                        assert((sov[i as int]).1 is Obj);
                    }
                }
                return Err(Error::BadDatabase);
            },
        };
        let ghost qv = entries_view(q@);
        proof {
            assert(sov[i as int].1 == JsonV::Obj(qv));
        }
        let mut inner: Vec<(Vec<u8>, Vec<u8>)> = Vec::new();
        let mut t: usize = 0;
        while t < q.len()
            invariant
                0 <= t <= q@.len(),
                qv == entries_view(q@),
                qv.len() == q@.len(),
                target == obj_get_v(entries_view(entries@), k_signatures()),
                target == Some(JsonV::Obj(sov)),
                0 <= i < sov.len(),
                sov[i as int].1 == JsonV::Obj(qv),
                inner@.len() == t,
                forall|u: int| 0 <= u < t ==> (#[trigger] qv[u]).1 is Str,
                forall|u: int| 0 <= u < t ==> (#[trigger] pairs_view(inner@)[u]) == inner_of(qv)[u],
                forall|u: int| 0 <= u < t - 1 ==> lex_lt((#[trigger] qv[u]).0, qv[u + 1].0),
            decreases q@.len() - t,
        {
            proof {
                assert(qv[t as int] == (q@[t as int].0@, json_view(q@[t as int].1)));
                if t > 0 {
                    assert(qv[t - 1] == (q@[t - 1].0@, json_view(q@[t - 1].1)));
                }
            }
            if t > 0 {
                if !crate::bytes::bytes_lt(&q[t - 1].0, &q[t].0) {
                    proof {
                        assert(inner_of(qv)[t - 1].0 == qv[t - 1].0);
                        assert(inner_of(qv)[t as int].0 == qv[t as int].0);
                        if sigs_sorted(sigs_of(sov)) {
                            assert(sigs_of(sov)[i as int].1 == inner_of(qv));
                            assert(inner_sorted(inner_of(qv)));
                            assert(lex_lt(inner_of(qv)[t - 1].0, inner_of(qv)[t as int].0));
                        }
                    }
                    return Err(Error::BadDatabase);
                }
            }
            let s = match crate::json::as_str(&q[t].1) {
                Some(s) => s,
                None => {
                    proof {
                        if sigs_shape_ok(sov) {
                            assert((sov[i as int]).1 is Obj && sig_inner_strs(
                                sov[i as int].1->Obj_0,
                            ));
                            assert((qv[t as int]).1 is Str);
                        }
                    }
                    return Err(Error::BadDatabase);
                },
            };
            let ghost inner_old = inner@;
            inner.push((bytes_clone(&q[t].0), bytes_clone(s)));
            proof {
                assert forall|u: int| 0 <= u < t + 1 implies (#[trigger] pairs_view(inner@)[u])
                    == inner_of(qv)[u] by {
                    if u < t {
                        assert(inner@[u] == inner_old[u]);
                        assert(pairs_view(inner@)[u] == (inner@[u].0@, inner@[u].1@));
                        assert(pairs_view(inner_old)[u] == (inner_old[u].0@, inner_old[u].1@));
                    } else {
                        assert(pairs_view(inner@)[u] == (inner@[u].0@, inner@[u].1@));
                    }
                }
            }
            t = t + 1;
        }
        proof {
            lemma_adjacent_pairwise(qv);
            assert(inner_sorted(inner_of(qv))) by {
                assert forall|x: int, y: int|
                    0 <= x < y < inner_of(qv).len() implies lex_lt(
                    (#[trigger] inner_of(qv)[x]).0,
                    (#[trigger] inner_of(qv)[y]).0,
                ) by {
                    assert(inner_of(qv)[x].0 == qv[x].0);
                    assert(inner_of(qv)[y].0 == qv[y].0);
                }
            }
        }
        let ghost out_old = out@;
        out.push((bytes_clone(&so[i].0), inner));
        proof {
            assert(pairs_view(out@[i as int].1@) =~= inner_of(qv));
            assert(sig_inner_strs(qv));
            assert forall|u: int| 0 <= u < i + 1 implies (#[trigger] sigs_view(out@)[u])
                == sigs_of(sov)[u] by {
                if u < i {
                    assert(out@[u] == out_old[u]);
                    assert(sigs_view(out@)[u] == (out@[u].0@, pairs_view(out@[u].1@)));
                    assert(sigs_view(out_old)[u] == (out_old[u].0@, pairs_view(out_old[u].1@)));
                } else {
                    assert(sigs_view(out@)[u] == (out@[u].0@, pairs_view(out@[u].1@)));
                    assert(sigs_of(sov)[u] == (sov[u].0, inner_of(sov[u].1->Obj_0)));
                }
            }
        }
        i = i + 1;
    }
    proof {
        lemma_adjacent_pairwise(sov);
        assert(sigs_view(out@) =~= sigs_of(sov));
        assert(sigs_shape_ok(sov));
        assert(sigs_sorted(sigs_of(sov))) by {
            assert forall|x: int, y: int|
                0 <= x < y < sigs_of(sov).len() implies lex_lt(
                (#[trigger] sigs_of(sov)[x]).0,
                (#[trigger] sigs_of(sov)[y]).0,
            ) by {
                assert(sigs_of(sov)[x].0 == sov[x].0);
                assert(sigs_of(sov)[y].0 == sov[y].0);
            }
            assert forall|x: int| 0 <= x < sigs_of(sov).len() implies inner_sorted(
                (#[trigger] sigs_of(sov)[x]).1,
            ) by {
                assert(sigs_of(sov)[x].1 == inner_of(sov[x].1->Obj_0));
            }
        }
    }
    Ok(out)
}

/// Copies a list of object entries.
pub fn clone_entries(v: &Vec<(Vec<u8>, Json)>) -> (r: Vec<(Vec<u8>, Json)>)
    ensures
        entries_view(r@) == entries_view(v@),
{
    let mut out: Vec<(Vec<u8>, Json)> = Vec::new();
    let mut t: usize = 0;
    while t < v.len()
        invariant
            0 <= t <= v@.len(),
            out@.len() == t,
            forall|k: int|
                0 <= k < t ==> (#[trigger] out@[k]).0@ == v@[k].0@ && json_view(out@[k].1)
                    == json_view(v@[k].1),
        decreases v@.len() - t,
    {
        out.push((bytes_clone(&v[t].0), json_clone(&v[t].1)));
        t = t + 1;
    }
    proof {
        assert(entries_view(out@) =~= entries_view(v@));
    }
    out
}

/// Reads the `content` object, checking well-formedness.
fn read_content(entries: &Vec<(Vec<u8>, Json)>) -> (r: Result<Json, Error>)
    ensures
        ({
            let g = obj_get_v(entries_view(entries@), k_content());
            let ok = g is Some && g->Some_0 is Obj && wf_json(g->Some_0);
            match r {
                Ok(c) => ok && c@ == g->Some_0,
                Err(e) => e == Error::BadDatabase && !ok,
            }
        }),
{
    let kc = key_content();
    let g = match crate::json::obj_get(entries, &kc) {
        Some(j) => j,
        None => {
            return Err(Error::BadDatabase);
        },
    };
    match crate::json::as_obj(g) {
        Some(_) => {},
        None => {
            return Err(Error::BadDatabase);
        },
    }
    if !crate::json::json_wf_check(g) {
        return Err(Error::BadDatabase);
    }
    Ok(json_clone(g))
}

/// Reads the optional `unsigned` object, checking well-formedness.
fn read_unsigned(entries: &Vec<(Vec<u8>, Json)>) -> (r: Result<Vec<(Vec<u8>, Json)>, Error>)
    ensures
        ({
            let g = obj_get_v(entries_view(entries@), k_unsigned());
            match r {
                Ok(v) => (match g {
                    Option::None => v@.len() == 0 && entries_view(v@) == Seq::<
                        (Seq<u8>, JsonV),
                    >::empty(),
                    Option::Some(u) => u is Obj && obj_keys_sorted(u->Obj_0) && wf_entries(
                        u->Obj_0,
                    ) && entries_view(v@) == u->Obj_0,
                }),
                Err(e) => e == Error::BadDatabase && g is Some && !(g->Some_0 is Obj
                    && obj_keys_sorted(g->Some_0->Obj_0) && wf_entries(g->Some_0->Obj_0)),
            }
        }),
{
    let ku = key_unsigned();
    let g = match crate::json::obj_get(entries, &ku) {
        Some(j) => j,
        None => {
            let out: Vec<(Vec<u8>, Json)> = Vec::new();
            proof {
                assert(entries_view(out@) =~= Seq::<(Seq<u8>, JsonV)>::empty());
            }
            return Ok(out);
        },
    };
    let u = match crate::json::as_obj(g) {
        Some(u) => u,
        None => {
            return Err(Error::BadDatabase);
        },
    };
    if !crate::json::json_wf_check(g) {
        proof {
            crate::json::lemma_wf_obj_unfold(entries_view(u@));
            crate::json::lemma_wf_entries_iff(entries_view(u@));
        }
        return Err(Error::BadDatabase);
    }
    proof {
        crate::json::lemma_wf_obj_unfold(entries_view(u@));
    }
    Ok(clone_entries(u))
}

/// Rebuilds a PDU from a canonical object, under the given event id; the
/// object's own `event_id` entry, if any, is ignored. Fails with
/// `BadDatabase` exactly when the object does not carry every field in
/// the required shape.
pub fn from_id_val(event_id: &Vec<u8>, obj: &Json) -> (r: Result<Pdu, Error>)
    ensures
        match r {
            Ok(p) => obj@ is Obj && from_ok(obj@->Obj_0, event_id@) && p@ == from_fields(
                obj@->Obj_0,
                event_id@,
            ),
            Err(e) => e == Error::BadDatabase && !(obj@ is Obj && from_ok(
                obj@->Obj_0,
                event_id@,
            )),
        },
{
    let entries = match crate::json::as_obj(obj) {
        Some(o) => o,
        None => {
            return Err(Error::BadDatabase);
        },
    };
    if !is_valid_event_id(event_id) {
        return Err(Error::BadDatabase);
    }
    let ka = key_auth_events();
    let auth_events = match read_id_array(entries, &ka) {
        Ok(v) => v,
        Err(e) => {
            return Err(e);
        },
    };
    let kp = key_prev_events();
    let prev_events = match read_id_array(entries, &kp) {
        Ok(v) => v,
        Err(e) => {
            return Err(e);
        },
    };
    let content = match read_content(entries) {
        Ok(c) => c,
        Err(e) => {
            return Err(e);
        },
    };
    let kd = key_depth();
    let depth = match read_int_u64(entries, &kd) {
        Ok(v) => v,
        Err(e) => {
            return Err(e);
        },
    };
    let ko = key_origin_server_ts();
    let origin_server_ts = match read_int_u64(entries, &ko) {
        Ok(v) => v,
        Err(e) => {
            return Err(e);
        },
    };
    let hashes = match read_hash(entries) {
        Ok(v) => v,
        Err(e) => {
            return Err(e);
        },
    };
    let kr = key_room_id();
    let room_id = match read_req_str(entries, &kr) {
        Ok(v) => v,
        Err(e) => {
            return Err(e);
        },
    };
    if !is_valid_room_id(&room_id) {
        return Err(Error::BadDatabase);
    }
    let ks = key_sender();
    let sender = match read_req_str(entries, &ks) {
        Ok(v) => v,
        Err(e) => {
            return Err(e);
        },
    };
    if !is_valid_user_id(&sender) {
        return Err(Error::BadDatabase);
    }
    let kt = key_type();
    let kind = match read_req_str(entries, &kt) {
        Ok(v) => v,
        Err(e) => {
            return Err(e);
        },
    };
    if kind.len() == 0 {
        return Err(Error::BadDatabase);
    }
    let signatures = match read_sigs(entries) {
        Ok(v) => v,
        Err(e) => {
            return Err(e);
        },
    };
    let kre = key_redacts();
    let redacts = match read_opt_str(entries, &kre) {
        Ok(v) => v,
        Err(e) => {
            return Err(e);
        },
    };
    match &redacts {
        Some(rv) => {
            if !is_valid_event_id(rv) {
                return Err(Error::BadDatabase);
            }
        },
        None => {},
    }
    let ksk = key_state_key();
    let state_key = match read_opt_str(entries, &ksk) {
        Ok(v) => v,
        Err(e) => {
            return Err(e);
        },
    };
    let unsigned = match read_unsigned(entries) {
        Ok(v) => v,
        Err(e) => {
            return Err(e);
        },
    };
    let p = Pdu {
        event_id: bytes_clone(event_id),
        room_id,
        sender,
        origin_server_ts,
        kind,
        content,
        state_key,
        prev_events,
        depth,
        auth_events,
        redacts,
        unsigned,
        hashes,
        signatures,
    };
    proof {
        let o = obj@->Obj_0;
        assert(from_ok(o, event_id@));
        assert(p@ =~~= from_fields(o, event_id@));
    }
    Ok(p)
}

/// Rebuilds a PDU from a canonical object that carries its own `event_id`.
pub fn from_canonical_object(obj: &Json) -> (r: Result<Pdu, Error>)
    ensures
        match r {
            Ok(p) => pdu_from_obj_v(obj@) == Some(p@),
            Err(e) => e == Error::BadDatabase && pdu_from_obj_v(obj@) is None,
        },
{
    let entries = match crate::json::as_obj(obj) {
        Some(o) => o,
        None => {
            return Err(Error::BadDatabase);
        },
    };
    let ke = key_event_id();
    let event_id = match read_req_str(entries, &ke) {
        Ok(v) => v,
        Err(e) => {
            return Err(e);
        },
    };
    from_id_val(&event_id, obj)
}

/// A list of event ids as a JSON array of strings.
fn str_arr(ids: &Vec<Vec<u8>>) -> (r: Json)
    ensures
        r@ == JsonV::Arr(str_arr_v(keys_view(ids@))),
{
    let mut out: Vec<Json> = Vec::new();
    let mut i: usize = 0;
    while i < ids.len()
        invariant
            0 <= i <= ids@.len(),
            out@.len() == i,
            forall|k: int| 0 <= k < i ==> json_view(#[trigger] out@[k]) == JsonV::Str(ids@[k]@),
        decreases ids@.len() - i,
    {
        out.push(Json::Str(bytes_clone(&ids[i])));
        i = i + 1;
    }
    proof {
        crate::json::lemma_view_arr(out);
        assert(crate::json::elems_view(out@) =~= str_arr_v(keys_view(ids@)));
    }
    Json::Arr(out)
}

/// The signatures map as a JSON object.
fn sig_obj(s: &Vec<(Vec<u8>, Vec<(Vec<u8>, Vec<u8>)>)>) -> (r: Json)
    ensures
        r@ == sig_obj_v(sigs_view(s@)),
{
    let mut out: Vec<(Vec<u8>, Json)> = Vec::new();
    let mut i: usize = 0;
    while i < s.len()
        invariant
            0 <= i <= s@.len(),
            out@.len() == i,
            forall|k: int|
                0 <= k < i ==> (#[trigger] out@[k]).0@ == s@[k].0@ && json_view(out@[k].1)
                    == JsonV::Obj(sig_inner_obj_v(pairs_view(s@[k].1@))),
        decreases s@.len() - i,
    {
        let mut inner: Vec<(Vec<u8>, Json)> = Vec::new();
        let mut t: usize = 0;
        let q = &s[i].1;
        while t < q.len()
            invariant
                0 <= t <= q@.len(),
                inner@.len() == t,
                forall|k: int|
                    0 <= k < t ==> (#[trigger] inner@[k]).0@ == q@[k].0@ && json_view(inner@[k].1)
                        == JsonV::Str(q@[k].1@),
            decreases q@.len() - t,
        {
            inner.push((bytes_clone(&q[t].0), Json::Str(bytes_clone(&q[t].1))));
            t = t + 1;
        }
        proof {
            crate::json::lemma_view_obj(inner);
            assert(entries_view(inner@) =~= sig_inner_obj_v(pairs_view(q@)));
        }
        out.push((bytes_clone(&s[i].0), Json::Obj(inner)));
        i = i + 1;
    }
    proof {
        crate::json::lemma_view_obj(out);
        let a = entries_view(out@);
        let b = sig_obj_v(sigs_view(s@))->Obj_0;
        assert forall|k: int| 0 <= k < s@.len() implies a[k] == b[k] by {
            assert(a[k] == (out@[k].0@, json_view(out@[k].1)));
            assert(sigs_view(s@)[k] == (s@[k].0@, pairs_view(s@[k].1@)));
        }
        assert(a =~= b);
    }
    Json::Obj(out)
}

impl Pdu {
    /// The canonical JSON object of this PDU.
    pub fn to_canonical_object(&self) -> (r: Json)
        requires
            wf_pdu(self@),
        ensures
            r@ == pdu_obj_v(self@),
    {
        let mut out: Vec<(Vec<u8>, Json)> = Vec::new();
        out.push((key_auth_events(), str_arr(&self.auth_events)));
        out.push((key_content(), json_clone(&self.content)));
        out.push((key_depth(), Json::Int(self.depth as i64)));
        out.push((key_event_id(), Json::Str(bytes_clone(&self.event_id))));
        let mut hv: Vec<(Vec<u8>, Json)> = Vec::new();
        hv.push((key_sha256(), Json::Str(bytes_clone(&self.hashes))));
        proof {
            crate::json::lemma_view_obj(hv);
            assert(entries_view(hv@) =~= seq![(k_sha256(), JsonV::Str(self@.hashes))]);
        }
        out.push((key_hashes(), Json::Obj(hv)));
        out.push((key_origin_server_ts(), Json::Int(self.origin_server_ts as i64)));
        out.push((key_prev_events(), str_arr(&self.prev_events)));
        match &self.redacts {
            Some(r) => {
                out.push((key_redacts(), Json::Str(bytes_clone(r))));
            },
            None => {},
        }
        out.push((key_room_id(), Json::Str(bytes_clone(&self.room_id))));
        out.push((key_sender(), Json::Str(bytes_clone(&self.sender))));
        out.push((key_signatures(), sig_obj(&self.signatures)));
        match &self.state_key {
            Some(sk) => {
                out.push((key_state_key(), Json::Str(bytes_clone(sk))));
            },
            None => {},
        }
        out.push((key_type(), Json::Str(bytes_clone(&self.kind))));
        if self.unsigned.len() > 0 {
            let mut uv: Vec<(Vec<u8>, Json)> = Vec::new();
            let mut t: usize = 0;
            while t < self.unsigned.len()
                invariant
                    0 <= t <= self.unsigned@.len(),
                    uv@.len() == t,
                    forall|k: int|
                        0 <= k < t ==> (#[trigger] uv@[k]).0@ == self.unsigned@[k].0@ && json_view(
                            uv@[k].1,
                        ) == json_view(self.unsigned@[k].1),
                decreases self.unsigned@.len() - t,
            {
                uv.push((bytes_clone(&self.unsigned[t].0), json_clone(&self.unsigned[t].1)));
                t = t + 1;
            }
            proof {
                crate::json::lemma_view_obj(uv);
                assert(entries_view(uv@) =~= entries_view(self.unsigned@));
            }
            out.push((key_unsigned(), Json::Obj(uv)));
        }
        proof {
            crate::json::lemma_view_obj(out);
            assert(entries_view(out@) =~= pdu_entries_v(self@));
        }
        Json::Obj(out)
    }

    /// The object whose canonical encoding is hashed to form the event id:
    /// this PDU without `event_id`, `unsigned` and `signatures`.
    pub fn to_hash_object(&self) -> (r: Json)
        requires
            wf_pdu(self@),
        ensures
            r@ == JsonV::Obj(pdu_hash_entries_v(self@)),
    {
        let mut out: Vec<(Vec<u8>, Json)> = Vec::new();
        out.push((key_auth_events(), str_arr(&self.auth_events)));
        out.push((key_content(), json_clone(&self.content)));
        out.push((key_depth(), Json::Int(self.depth as i64)));
        let mut hv: Vec<(Vec<u8>, Json)> = Vec::new();
        hv.push((key_sha256(), Json::Str(bytes_clone(&self.hashes))));
        proof {
            crate::json::lemma_view_obj(hv);
            assert(entries_view(hv@) =~= seq![(k_sha256(), JsonV::Str(self@.hashes))]);
        }
        out.push((key_hashes(), Json::Obj(hv)));
        out.push((key_origin_server_ts(), Json::Int(self.origin_server_ts as i64)));
        out.push((key_prev_events(), str_arr(&self.prev_events)));
        match &self.redacts {
            Some(r) => {
                out.push((key_redacts(), Json::Str(bytes_clone(r))));
            },
            None => {},
        }
        out.push((key_room_id(), Json::Str(bytes_clone(&self.room_id))));
        out.push((key_sender(), Json::Str(bytes_clone(&self.sender))));
        match &self.state_key {
            Some(sk) => {
                out.push((key_state_key(), Json::Str(bytes_clone(sk))));
            },
            None => {},
        }
        out.push((key_type(), Json::Str(bytes_clone(&self.kind))));
        proof {
            crate::json::lemma_view_obj(out);
            assert(entries_view(out@) =~= pdu_hash_entries_v(self@));
        }
        Json::Obj(out)
    }
}


/// With every field read back as written, the decode inverts the encode.
proof fn lemma_rt_common(p: PduV)
    requires
        wf_pdu(p),
        obj_get_v(pdu_entries_v(p), k_auth_events()) == Some(
            JsonV::Arr(str_arr_v(p.auth_events)),
        ),
        obj_get_v(pdu_entries_v(p), k_content()) == Some(p.content),
        obj_get_v(pdu_entries_v(p), k_depth()) == Some(JsonV::Int(p.depth as int)),
        obj_get_v(pdu_entries_v(p), k_event_id()) == Some(JsonV::Str(p.event_id)),
        obj_get_v(pdu_entries_v(p), k_hashes()) == Some(
            JsonV::Obj(seq![(k_sha256(), JsonV::Str(p.hashes))]),
        ),
        obj_get_v(pdu_entries_v(p), k_origin_server_ts()) == Some(
            JsonV::Int(p.origin_server_ts as int),
        ),
        obj_get_v(pdu_entries_v(p), k_prev_events()) == Some(
            JsonV::Arr(str_arr_v(p.prev_events)),
        ),
        obj_get_v(pdu_entries_v(p), k_redacts()) == (match p.redacts {
            Option::Some(r) => Some(JsonV::Str(r)),
            Option::None => None::<JsonV>,
        }),
        obj_get_v(pdu_entries_v(p), k_room_id()) == Some(JsonV::Str(p.room_id)),
        obj_get_v(pdu_entries_v(p), k_sender()) == Some(JsonV::Str(p.sender)),
        obj_get_v(pdu_entries_v(p), k_signatures()) == Some(sig_obj_v(p.signatures)),
        obj_get_v(pdu_entries_v(p), k_state_key()) == (match p.state_key {
            Option::Some(s) => Some(JsonV::Str(s)),
            Option::None => None::<JsonV>,
        }),
        obj_get_v(pdu_entries_v(p), k_type()) == Some(JsonV::Str(p.kind)),
        obj_get_v(pdu_entries_v(p), k_unsigned()) == (if p.unsigned.len() > 0 {
            Some(JsonV::Obj(p.unsigned))
        } else {
            None::<JsonV>
        }),
    ensures
        pdu_from_obj_v(pdu_obj_v(p)) == Some(p),
{
    let es = pdu_entries_v(p);
    let aa = str_arr_v(p.auth_events);
    assert forall|i: int| 0 <= i < aa.len() implies (#[trigger] aa[i]) is Str by {
        assert(aa[i] == JsonV::Str(p.auth_events[i]));
    }
    assert forall|i: int| 0 <= i < aa.len() implies valid_event_id((#[trigger] aa[i])->Str_0) by {
        assert(aa[i] == JsonV::Str(p.auth_events[i]));
    }
    assert(strs_of(aa) =~= p.auth_events);
    let pa = str_arr_v(p.prev_events);
    assert forall|i: int| 0 <= i < pa.len() implies (#[trigger] pa[i]) is Str by {
        assert(pa[i] == JsonV::Str(p.prev_events[i]));
    }
    assert forall|i: int| 0 <= i < pa.len() implies valid_event_id((#[trigger] pa[i])->Str_0) by {
        assert(pa[i] == JsonV::Str(p.prev_events[i]));
    }
    assert(strs_of(pa) =~= p.prev_events);
    let so = sig_obj_v(p.signatures)->Obj_0;
    assert forall|i: int| 0 <= i < so.len() implies (#[trigger] so[i]).1 is Obj && sig_inner_strs(
        so[i].1->Obj_0,
    ) by {
        assert(so[i] == (p.signatures[i].0, JsonV::Obj(sig_inner_obj_v(p.signatures[i].1))));
        let q = sig_inner_obj_v(p.signatures[i].1);
        assert forall|u: int| 0 <= u < q.len() implies (#[trigger] q[u]).1 is Str by {
            assert(q[u] == (p.signatures[i].1[u].0, JsonV::Str(p.signatures[i].1[u].1)));
        }
    }
    assert(sigs_of(so) =~~= p.signatures) by {
        assert forall|i: int| 0 <= i < so.len() implies (#[trigger] sigs_of(so)[i])
            =~~= p.signatures[i] by {
            assert(so[i] == (p.signatures[i].0, JsonV::Obj(sig_inner_obj_v(p.signatures[i].1))));
            assert(sigs_of(so)[i] == (so[i].0, inner_of(so[i].1->Obj_0)));
            assert(inner_of(sig_inner_obj_v(p.signatures[i].1)) =~= p.signatures[i].1) by {
                let q = sig_inner_obj_v(p.signatures[i].1);
                assert forall|u: int| 0 <= u < q.len() implies inner_of(q)[u]
                    == p.signatures[i].1[u] by {
                    assert(q[u] == (p.signatures[i].1[u].0, JsonV::Str(p.signatures[i].1[u].1)));
                }
            }
        }
    }
    assert(sigs_sorted(sigs_of(so)));
    assert(from_ok(es, p.event_id));
    let f = from_fields(es, p.event_id);
    assert(f.unsigned =~= p.unsigned) by {
        if p.unsigned.len() > 0 {
        } else {
            assert(unsigned_of(es) =~= p.unsigned);
        }
    }
    assert(f.redacts == p.redacts) by {
        match p.redacts {
            Option::Some(r) => {},
            Option::None => {},
        }
    }
    assert(f.state_key == p.state_key) by {
        match p.state_key {
            Option::Some(s) => {},
            Option::None => {},
        }
    }
    assert(f =~~= p);
    assert(pdu_obj_v(p)->Obj_0 == es);
    assert(pdu_from_obj_v(pdu_obj_v(p)) == Some(f));
}

#[verifier::rlimit(100)]
proof fn lemma_rt_case_nnn(p: PduV)
    requires
        wf_pdu(p),
        p.redacts is None,
        p.state_key is None,
        p.unsigned.len() == 0,
    ensures
        obj_get_v(pdu_entries_v(p), k_auth_events()) == Some(JsonV::Arr(str_arr_v(p.auth_events))),
        obj_get_v(pdu_entries_v(p), k_content()) == Some(p.content),
        obj_get_v(pdu_entries_v(p), k_depth()) == Some(JsonV::Int(p.depth as int)),
        obj_get_v(pdu_entries_v(p), k_event_id()) == Some(JsonV::Str(p.event_id)),
        obj_get_v(pdu_entries_v(p), k_hashes()) == Some(JsonV::Obj(seq![(k_sha256(), JsonV::Str(p.hashes))])),
        obj_get_v(pdu_entries_v(p), k_origin_server_ts()) == Some(JsonV::Int(p.origin_server_ts as int)),
        obj_get_v(pdu_entries_v(p), k_prev_events()) == Some(JsonV::Arr(str_arr_v(p.prev_events))),
        obj_get_v(pdu_entries_v(p), k_redacts()) == None::<JsonV>,
        obj_get_v(pdu_entries_v(p), k_room_id()) == Some(JsonV::Str(p.room_id)),
        obj_get_v(pdu_entries_v(p), k_sender()) == Some(JsonV::Str(p.sender)),
        obj_get_v(pdu_entries_v(p), k_signatures()) == Some(sig_obj_v(p.signatures)),
        obj_get_v(pdu_entries_v(p), k_state_key()) == None::<JsonV>,
        obj_get_v(pdu_entries_v(p), k_type()) == Some(JsonV::Str(p.kind)),
        obj_get_v(pdu_entries_v(p), k_unsigned()) == None::<JsonV>,
{
    lemma_pdu_keys_order();
    let ks = pdu_key_list();
    assert(ks[0] == k_auth_events());
    assert(ks[1] == k_content());
    assert(ks[2] == k_depth());
    assert(ks[3] == k_event_id());
    assert(ks[4] == k_hashes());
    assert(ks[5] == k_origin_server_ts());
    assert(ks[6] == k_prev_events());
    assert(ks[7] == k_redacts());
    assert(ks[8] == k_room_id());
    assert(ks[9] == k_sender());
    assert(ks[10] == k_signatures());
    assert(ks[11] == k_state_key());
    assert(ks[12] == k_type());
    assert(ks[13] == k_unsigned());
    let es = pdu_entries_v(p);
    assert(es =~= seq![
        (k_auth_events(), JsonV::Arr(str_arr_v(p.auth_events))),
        (k_content(), p.content),
        (k_depth(), JsonV::Int(p.depth as int)),
        (k_event_id(), JsonV::Str(p.event_id)),
        (k_hashes(), JsonV::Obj(seq![(k_sha256(), JsonV::Str(p.hashes))])),
        (k_origin_server_ts(), JsonV::Int(p.origin_server_ts as int)),
        (k_prev_events(), JsonV::Arr(str_arr_v(p.prev_events))),
        (k_room_id(), JsonV::Str(p.room_id)),
        (k_sender(), JsonV::Str(p.sender)),
        (k_signatures(), sig_obj_v(p.signatures)),
        (k_type(), JsonV::Str(p.kind)),
    ]);
    reveal_with_fuel(obj_get_v, 16);
    assert(obj_get_v(pdu_entries_v(p), k_auth_events()) == Some(JsonV::Arr(str_arr_v(p.auth_events))));
    assert(obj_get_v(pdu_entries_v(p), k_content()) == Some(p.content));
    assert(obj_get_v(pdu_entries_v(p), k_depth()) == Some(JsonV::Int(p.depth as int)));
    assert(obj_get_v(pdu_entries_v(p), k_event_id()) == Some(JsonV::Str(p.event_id)));
    assert(obj_get_v(pdu_entries_v(p), k_hashes()) == Some(JsonV::Obj(seq![(k_sha256(), JsonV::Str(p.hashes))])));
    assert(obj_get_v(pdu_entries_v(p), k_origin_server_ts()) == Some(JsonV::Int(p.origin_server_ts as int)));
    assert(obj_get_v(pdu_entries_v(p), k_prev_events()) == Some(JsonV::Arr(str_arr_v(p.prev_events))));
    assert(obj_get_v(pdu_entries_v(p), k_redacts()) == None::<JsonV>);
    assert(obj_get_v(pdu_entries_v(p), k_room_id()) == Some(JsonV::Str(p.room_id)));
    assert(obj_get_v(pdu_entries_v(p), k_sender()) == Some(JsonV::Str(p.sender)));
    assert(obj_get_v(pdu_entries_v(p), k_signatures()) == Some(sig_obj_v(p.signatures)));
    assert(obj_get_v(pdu_entries_v(p), k_state_key()) == None::<JsonV>);
    assert(obj_get_v(pdu_entries_v(p), k_type()) == Some(JsonV::Str(p.kind)));
    assert(obj_get_v(pdu_entries_v(p), k_unsigned()) == None::<JsonV>);
}

#[verifier::rlimit(100)]
proof fn lemma_rt_case_nnu(p: PduV)
    requires
        wf_pdu(p),
        p.redacts is None,
        p.state_key is None,
        p.unsigned.len() > 0,
    ensures
        obj_get_v(pdu_entries_v(p), k_auth_events()) == Some(JsonV::Arr(str_arr_v(p.auth_events))),
        obj_get_v(pdu_entries_v(p), k_content()) == Some(p.content),
        obj_get_v(pdu_entries_v(p), k_depth()) == Some(JsonV::Int(p.depth as int)),
        obj_get_v(pdu_entries_v(p), k_event_id()) == Some(JsonV::Str(p.event_id)),
        obj_get_v(pdu_entries_v(p), k_hashes()) == Some(JsonV::Obj(seq![(k_sha256(), JsonV::Str(p.hashes))])),
        obj_get_v(pdu_entries_v(p), k_origin_server_ts()) == Some(JsonV::Int(p.origin_server_ts as int)),
        obj_get_v(pdu_entries_v(p), k_prev_events()) == Some(JsonV::Arr(str_arr_v(p.prev_events))),
        obj_get_v(pdu_entries_v(p), k_redacts()) == None::<JsonV>,
        obj_get_v(pdu_entries_v(p), k_room_id()) == Some(JsonV::Str(p.room_id)),
        obj_get_v(pdu_entries_v(p), k_sender()) == Some(JsonV::Str(p.sender)),
        obj_get_v(pdu_entries_v(p), k_signatures()) == Some(sig_obj_v(p.signatures)),
        obj_get_v(pdu_entries_v(p), k_state_key()) == None::<JsonV>,
        obj_get_v(pdu_entries_v(p), k_type()) == Some(JsonV::Str(p.kind)),
        obj_get_v(pdu_entries_v(p), k_unsigned()) == Some(JsonV::Obj(p.unsigned)),
{
    lemma_pdu_keys_order();
    let ks = pdu_key_list();
    assert(ks[0] == k_auth_events());
    assert(ks[1] == k_content());
    assert(ks[2] == k_depth());
    assert(ks[3] == k_event_id());
    assert(ks[4] == k_hashes());
    assert(ks[5] == k_origin_server_ts());
    assert(ks[6] == k_prev_events());
    assert(ks[7] == k_redacts());
    assert(ks[8] == k_room_id());
    assert(ks[9] == k_sender());
    assert(ks[10] == k_signatures());
    assert(ks[11] == k_state_key());
    assert(ks[12] == k_type());
    assert(ks[13] == k_unsigned());
    let es = pdu_entries_v(p);
    assert(es =~= seq![
        (k_auth_events(), JsonV::Arr(str_arr_v(p.auth_events))),
        (k_content(), p.content),
        (k_depth(), JsonV::Int(p.depth as int)),
        (k_event_id(), JsonV::Str(p.event_id)),
        (k_hashes(), JsonV::Obj(seq![(k_sha256(), JsonV::Str(p.hashes))])),
        (k_origin_server_ts(), JsonV::Int(p.origin_server_ts as int)),
        (k_prev_events(), JsonV::Arr(str_arr_v(p.prev_events))),
        (k_room_id(), JsonV::Str(p.room_id)),
        (k_sender(), JsonV::Str(p.sender)),
        (k_signatures(), sig_obj_v(p.signatures)),
        (k_type(), JsonV::Str(p.kind)),
        (k_unsigned(), JsonV::Obj(p.unsigned)),
    ]);
    reveal_with_fuel(obj_get_v, 16);
    assert(obj_get_v(pdu_entries_v(p), k_auth_events()) == Some(JsonV::Arr(str_arr_v(p.auth_events))));
    assert(obj_get_v(pdu_entries_v(p), k_content()) == Some(p.content));
    assert(obj_get_v(pdu_entries_v(p), k_depth()) == Some(JsonV::Int(p.depth as int)));
    assert(obj_get_v(pdu_entries_v(p), k_event_id()) == Some(JsonV::Str(p.event_id)));
    assert(obj_get_v(pdu_entries_v(p), k_hashes()) == Some(JsonV::Obj(seq![(k_sha256(), JsonV::Str(p.hashes))])));
    assert(obj_get_v(pdu_entries_v(p), k_origin_server_ts()) == Some(JsonV::Int(p.origin_server_ts as int)));
    assert(obj_get_v(pdu_entries_v(p), k_prev_events()) == Some(JsonV::Arr(str_arr_v(p.prev_events))));
    assert(obj_get_v(pdu_entries_v(p), k_redacts()) == None::<JsonV>);
    assert(obj_get_v(pdu_entries_v(p), k_room_id()) == Some(JsonV::Str(p.room_id)));
    assert(obj_get_v(pdu_entries_v(p), k_sender()) == Some(JsonV::Str(p.sender)));
    assert(obj_get_v(pdu_entries_v(p), k_signatures()) == Some(sig_obj_v(p.signatures)));
    assert(obj_get_v(pdu_entries_v(p), k_state_key()) == None::<JsonV>);
    assert(obj_get_v(pdu_entries_v(p), k_type()) == Some(JsonV::Str(p.kind)));
    assert(obj_get_v(pdu_entries_v(p), k_unsigned()) == Some(JsonV::Obj(p.unsigned)));
}

#[verifier::rlimit(100)]
proof fn lemma_rt_case_nsn(p: PduV)
    requires
        wf_pdu(p),
        p.redacts is None,
        p.state_key is Some,
        p.unsigned.len() == 0,
    ensures
        obj_get_v(pdu_entries_v(p), k_auth_events()) == Some(JsonV::Arr(str_arr_v(p.auth_events))),
        obj_get_v(pdu_entries_v(p), k_content()) == Some(p.content),
        obj_get_v(pdu_entries_v(p), k_depth()) == Some(JsonV::Int(p.depth as int)),
        obj_get_v(pdu_entries_v(p), k_event_id()) == Some(JsonV::Str(p.event_id)),
        obj_get_v(pdu_entries_v(p), k_hashes()) == Some(JsonV::Obj(seq![(k_sha256(), JsonV::Str(p.hashes))])),
        obj_get_v(pdu_entries_v(p), k_origin_server_ts()) == Some(JsonV::Int(p.origin_server_ts as int)),
        obj_get_v(pdu_entries_v(p), k_prev_events()) == Some(JsonV::Arr(str_arr_v(p.prev_events))),
        obj_get_v(pdu_entries_v(p), k_redacts()) == None::<JsonV>,
        obj_get_v(pdu_entries_v(p), k_room_id()) == Some(JsonV::Str(p.room_id)),
        obj_get_v(pdu_entries_v(p), k_sender()) == Some(JsonV::Str(p.sender)),
        obj_get_v(pdu_entries_v(p), k_signatures()) == Some(sig_obj_v(p.signatures)),
        obj_get_v(pdu_entries_v(p), k_state_key()) == Some(JsonV::Str(p.state_key->Some_0)),
        obj_get_v(pdu_entries_v(p), k_type()) == Some(JsonV::Str(p.kind)),
        obj_get_v(pdu_entries_v(p), k_unsigned()) == None::<JsonV>,
{
    lemma_pdu_keys_order();
    let ks = pdu_key_list();
    assert(ks[0] == k_auth_events());
    assert(ks[1] == k_content());
    assert(ks[2] == k_depth());
    assert(ks[3] == k_event_id());
    assert(ks[4] == k_hashes());
    assert(ks[5] == k_origin_server_ts());
    assert(ks[6] == k_prev_events());
    assert(ks[7] == k_redacts());
    assert(ks[8] == k_room_id());
    assert(ks[9] == k_sender());
    assert(ks[10] == k_signatures());
    assert(ks[11] == k_state_key());
    assert(ks[12] == k_type());
    assert(ks[13] == k_unsigned());
    let es = pdu_entries_v(p);
    assert(es =~= seq![
        (k_auth_events(), JsonV::Arr(str_arr_v(p.auth_events))),
        (k_content(), p.content),
        (k_depth(), JsonV::Int(p.depth as int)),
        (k_event_id(), JsonV::Str(p.event_id)),
        (k_hashes(), JsonV::Obj(seq![(k_sha256(), JsonV::Str(p.hashes))])),
        (k_origin_server_ts(), JsonV::Int(p.origin_server_ts as int)),
        (k_prev_events(), JsonV::Arr(str_arr_v(p.prev_events))),
        (k_room_id(), JsonV::Str(p.room_id)),
        (k_sender(), JsonV::Str(p.sender)),
        (k_signatures(), sig_obj_v(p.signatures)),
        (k_state_key(), JsonV::Str(p.state_key->Some_0)),
        (k_type(), JsonV::Str(p.kind)),
    ]);
    reveal_with_fuel(obj_get_v, 16);
    assert(obj_get_v(pdu_entries_v(p), k_auth_events()) == Some(JsonV::Arr(str_arr_v(p.auth_events))));
    assert(obj_get_v(pdu_entries_v(p), k_content()) == Some(p.content));
    assert(obj_get_v(pdu_entries_v(p), k_depth()) == Some(JsonV::Int(p.depth as int)));
    assert(obj_get_v(pdu_entries_v(p), k_event_id()) == Some(JsonV::Str(p.event_id)));
    assert(obj_get_v(pdu_entries_v(p), k_hashes()) == Some(JsonV::Obj(seq![(k_sha256(), JsonV::Str(p.hashes))])));
    assert(obj_get_v(pdu_entries_v(p), k_origin_server_ts()) == Some(JsonV::Int(p.origin_server_ts as int)));
    assert(obj_get_v(pdu_entries_v(p), k_prev_events()) == Some(JsonV::Arr(str_arr_v(p.prev_events))));
    assert(obj_get_v(pdu_entries_v(p), k_redacts()) == None::<JsonV>);
    assert(obj_get_v(pdu_entries_v(p), k_room_id()) == Some(JsonV::Str(p.room_id)));
    assert(obj_get_v(pdu_entries_v(p), k_sender()) == Some(JsonV::Str(p.sender)));
    assert(obj_get_v(pdu_entries_v(p), k_signatures()) == Some(sig_obj_v(p.signatures)));
    assert(obj_get_v(pdu_entries_v(p), k_state_key()) == Some(JsonV::Str(p.state_key->Some_0)));
    assert(obj_get_v(pdu_entries_v(p), k_type()) == Some(JsonV::Str(p.kind)));
    assert(obj_get_v(pdu_entries_v(p), k_unsigned()) == None::<JsonV>);
}

#[verifier::rlimit(100)]
proof fn lemma_rt_case_nsu(p: PduV)
    requires
        wf_pdu(p),
        p.redacts is None,
        p.state_key is Some,
        p.unsigned.len() > 0,
    ensures
        obj_get_v(pdu_entries_v(p), k_auth_events()) == Some(JsonV::Arr(str_arr_v(p.auth_events))),
        obj_get_v(pdu_entries_v(p), k_content()) == Some(p.content),
        obj_get_v(pdu_entries_v(p), k_depth()) == Some(JsonV::Int(p.depth as int)),
        obj_get_v(pdu_entries_v(p), k_event_id()) == Some(JsonV::Str(p.event_id)),
        obj_get_v(pdu_entries_v(p), k_hashes()) == Some(JsonV::Obj(seq![(k_sha256(), JsonV::Str(p.hashes))])),
        obj_get_v(pdu_entries_v(p), k_origin_server_ts()) == Some(JsonV::Int(p.origin_server_ts as int)),
        obj_get_v(pdu_entries_v(p), k_prev_events()) == Some(JsonV::Arr(str_arr_v(p.prev_events))),
        obj_get_v(pdu_entries_v(p), k_redacts()) == None::<JsonV>,
        obj_get_v(pdu_entries_v(p), k_room_id()) == Some(JsonV::Str(p.room_id)),
        obj_get_v(pdu_entries_v(p), k_sender()) == Some(JsonV::Str(p.sender)),
        obj_get_v(pdu_entries_v(p), k_signatures()) == Some(sig_obj_v(p.signatures)),
        obj_get_v(pdu_entries_v(p), k_state_key()) == Some(JsonV::Str(p.state_key->Some_0)),
        obj_get_v(pdu_entries_v(p), k_type()) == Some(JsonV::Str(p.kind)),
        obj_get_v(pdu_entries_v(p), k_unsigned()) == Some(JsonV::Obj(p.unsigned)),
{
    lemma_pdu_keys_order();
    let ks = pdu_key_list();
    assert(ks[0] == k_auth_events());
    assert(ks[1] == k_content());
    assert(ks[2] == k_depth());
    assert(ks[3] == k_event_id());
    assert(ks[4] == k_hashes());
    assert(ks[5] == k_origin_server_ts());
    assert(ks[6] == k_prev_events());
    assert(ks[7] == k_redacts());
    assert(ks[8] == k_room_id());
    assert(ks[9] == k_sender());
    assert(ks[10] == k_signatures());
    assert(ks[11] == k_state_key());
    assert(ks[12] == k_type());
    assert(ks[13] == k_unsigned());
    let es = pdu_entries_v(p);
    assert(es =~= seq![
        (k_auth_events(), JsonV::Arr(str_arr_v(p.auth_events))),
        (k_content(), p.content),
        (k_depth(), JsonV::Int(p.depth as int)),
        (k_event_id(), JsonV::Str(p.event_id)),
        (k_hashes(), JsonV::Obj(seq![(k_sha256(), JsonV::Str(p.hashes))])),
        (k_origin_server_ts(), JsonV::Int(p.origin_server_ts as int)),
        (k_prev_events(), JsonV::Arr(str_arr_v(p.prev_events))),
        (k_room_id(), JsonV::Str(p.room_id)),
        (k_sender(), JsonV::Str(p.sender)),
        (k_signatures(), sig_obj_v(p.signatures)),
        (k_state_key(), JsonV::Str(p.state_key->Some_0)),
        (k_type(), JsonV::Str(p.kind)),
        (k_unsigned(), JsonV::Obj(p.unsigned)),
    ]);
    reveal_with_fuel(obj_get_v, 16);
    assert(obj_get_v(pdu_entries_v(p), k_auth_events()) == Some(JsonV::Arr(str_arr_v(p.auth_events))));
    assert(obj_get_v(pdu_entries_v(p), k_content()) == Some(p.content));
    assert(obj_get_v(pdu_entries_v(p), k_depth()) == Some(JsonV::Int(p.depth as int)));
    assert(obj_get_v(pdu_entries_v(p), k_event_id()) == Some(JsonV::Str(p.event_id)));
    assert(obj_get_v(pdu_entries_v(p), k_hashes()) == Some(JsonV::Obj(seq![(k_sha256(), JsonV::Str(p.hashes))])));
    assert(obj_get_v(pdu_entries_v(p), k_origin_server_ts()) == Some(JsonV::Int(p.origin_server_ts as int)));
    assert(obj_get_v(pdu_entries_v(p), k_prev_events()) == Some(JsonV::Arr(str_arr_v(p.prev_events))));
    assert(obj_get_v(pdu_entries_v(p), k_redacts()) == None::<JsonV>);
    assert(obj_get_v(pdu_entries_v(p), k_room_id()) == Some(JsonV::Str(p.room_id)));
    assert(obj_get_v(pdu_entries_v(p), k_sender()) == Some(JsonV::Str(p.sender)));
    assert(obj_get_v(pdu_entries_v(p), k_signatures()) == Some(sig_obj_v(p.signatures)));
    assert(obj_get_v(pdu_entries_v(p), k_state_key()) == Some(JsonV::Str(p.state_key->Some_0)));
    assert(obj_get_v(pdu_entries_v(p), k_type()) == Some(JsonV::Str(p.kind)));
    assert(obj_get_v(pdu_entries_v(p), k_unsigned()) == Some(JsonV::Obj(p.unsigned)));
}

#[verifier::rlimit(100)]
proof fn lemma_rt_case_rnn(p: PduV)
    requires
        wf_pdu(p),
        p.redacts is Some,
        p.state_key is None,
        p.unsigned.len() == 0,
    ensures
        obj_get_v(pdu_entries_v(p), k_auth_events()) == Some(JsonV::Arr(str_arr_v(p.auth_events))),
        obj_get_v(pdu_entries_v(p), k_content()) == Some(p.content),
        obj_get_v(pdu_entries_v(p), k_depth()) == Some(JsonV::Int(p.depth as int)),
        obj_get_v(pdu_entries_v(p), k_event_id()) == Some(JsonV::Str(p.event_id)),
        obj_get_v(pdu_entries_v(p), k_hashes()) == Some(JsonV::Obj(seq![(k_sha256(), JsonV::Str(p.hashes))])),
        obj_get_v(pdu_entries_v(p), k_origin_server_ts()) == Some(JsonV::Int(p.origin_server_ts as int)),
        obj_get_v(pdu_entries_v(p), k_prev_events()) == Some(JsonV::Arr(str_arr_v(p.prev_events))),
        obj_get_v(pdu_entries_v(p), k_redacts()) == Some(JsonV::Str(p.redacts->Some_0)),
        obj_get_v(pdu_entries_v(p), k_room_id()) == Some(JsonV::Str(p.room_id)),
        obj_get_v(pdu_entries_v(p), k_sender()) == Some(JsonV::Str(p.sender)),
        obj_get_v(pdu_entries_v(p), k_signatures()) == Some(sig_obj_v(p.signatures)),
        obj_get_v(pdu_entries_v(p), k_state_key()) == None::<JsonV>,
        obj_get_v(pdu_entries_v(p), k_type()) == Some(JsonV::Str(p.kind)),
        obj_get_v(pdu_entries_v(p), k_unsigned()) == None::<JsonV>,
{
    lemma_pdu_keys_order();
    let ks = pdu_key_list();
    assert(ks[0] == k_auth_events());
    assert(ks[1] == k_content());
    assert(ks[2] == k_depth());
    assert(ks[3] == k_event_id());
    assert(ks[4] == k_hashes());
    assert(ks[5] == k_origin_server_ts());
    assert(ks[6] == k_prev_events());
    assert(ks[7] == k_redacts());
    assert(ks[8] == k_room_id());
    assert(ks[9] == k_sender());
    assert(ks[10] == k_signatures());
    assert(ks[11] == k_state_key());
    assert(ks[12] == k_type());
    assert(ks[13] == k_unsigned());
    let es = pdu_entries_v(p);
    assert(es =~= seq![
        (k_auth_events(), JsonV::Arr(str_arr_v(p.auth_events))),
        (k_content(), p.content),
        (k_depth(), JsonV::Int(p.depth as int)),
        (k_event_id(), JsonV::Str(p.event_id)),
        (k_hashes(), JsonV::Obj(seq![(k_sha256(), JsonV::Str(p.hashes))])),
        (k_origin_server_ts(), JsonV::Int(p.origin_server_ts as int)),
        (k_prev_events(), JsonV::Arr(str_arr_v(p.prev_events))),
        (k_redacts(), JsonV::Str(p.redacts->Some_0)),
        (k_room_id(), JsonV::Str(p.room_id)),
        (k_sender(), JsonV::Str(p.sender)),
        (k_signatures(), sig_obj_v(p.signatures)),
        (k_type(), JsonV::Str(p.kind)),
    ]);
    reveal_with_fuel(obj_get_v, 16);
    assert(obj_get_v(pdu_entries_v(p), k_auth_events()) == Some(JsonV::Arr(str_arr_v(p.auth_events))));
    assert(obj_get_v(pdu_entries_v(p), k_content()) == Some(p.content));
    assert(obj_get_v(pdu_entries_v(p), k_depth()) == Some(JsonV::Int(p.depth as int)));
    assert(obj_get_v(pdu_entries_v(p), k_event_id()) == Some(JsonV::Str(p.event_id)));
    assert(obj_get_v(pdu_entries_v(p), k_hashes()) == Some(JsonV::Obj(seq![(k_sha256(), JsonV::Str(p.hashes))])));
    assert(obj_get_v(pdu_entries_v(p), k_origin_server_ts()) == Some(JsonV::Int(p.origin_server_ts as int)));
    assert(obj_get_v(pdu_entries_v(p), k_prev_events()) == Some(JsonV::Arr(str_arr_v(p.prev_events))));
    assert(obj_get_v(pdu_entries_v(p), k_redacts()) == Some(JsonV::Str(p.redacts->Some_0)));
    assert(obj_get_v(pdu_entries_v(p), k_room_id()) == Some(JsonV::Str(p.room_id)));
    assert(obj_get_v(pdu_entries_v(p), k_sender()) == Some(JsonV::Str(p.sender)));
    assert(obj_get_v(pdu_entries_v(p), k_signatures()) == Some(sig_obj_v(p.signatures)));
    assert(obj_get_v(pdu_entries_v(p), k_state_key()) == None::<JsonV>);
    assert(obj_get_v(pdu_entries_v(p), k_type()) == Some(JsonV::Str(p.kind)));
    assert(obj_get_v(pdu_entries_v(p), k_unsigned()) == None::<JsonV>);
}

#[verifier::rlimit(100)]
proof fn lemma_rt_case_rnu(p: PduV)
    requires
        wf_pdu(p),
        p.redacts is Some,
        p.state_key is None,
        p.unsigned.len() > 0,
    ensures
        obj_get_v(pdu_entries_v(p), k_auth_events()) == Some(JsonV::Arr(str_arr_v(p.auth_events))),
        obj_get_v(pdu_entries_v(p), k_content()) == Some(p.content),
        obj_get_v(pdu_entries_v(p), k_depth()) == Some(JsonV::Int(p.depth as int)),
        obj_get_v(pdu_entries_v(p), k_event_id()) == Some(JsonV::Str(p.event_id)),
        obj_get_v(pdu_entries_v(p), k_hashes()) == Some(JsonV::Obj(seq![(k_sha256(), JsonV::Str(p.hashes))])),
        obj_get_v(pdu_entries_v(p), k_origin_server_ts()) == Some(JsonV::Int(p.origin_server_ts as int)),
        obj_get_v(pdu_entries_v(p), k_prev_events()) == Some(JsonV::Arr(str_arr_v(p.prev_events))),
        obj_get_v(pdu_entries_v(p), k_redacts()) == Some(JsonV::Str(p.redacts->Some_0)),
        obj_get_v(pdu_entries_v(p), k_room_id()) == Some(JsonV::Str(p.room_id)),
        obj_get_v(pdu_entries_v(p), k_sender()) == Some(JsonV::Str(p.sender)),
        obj_get_v(pdu_entries_v(p), k_signatures()) == Some(sig_obj_v(p.signatures)),
        obj_get_v(pdu_entries_v(p), k_state_key()) == None::<JsonV>,
        obj_get_v(pdu_entries_v(p), k_type()) == Some(JsonV::Str(p.kind)),
        obj_get_v(pdu_entries_v(p), k_unsigned()) == Some(JsonV::Obj(p.unsigned)),
{
    lemma_pdu_keys_order();
    let ks = pdu_key_list();
    assert(ks[0] == k_auth_events());
    assert(ks[1] == k_content());
    assert(ks[2] == k_depth());
    assert(ks[3] == k_event_id());
    assert(ks[4] == k_hashes());
    assert(ks[5] == k_origin_server_ts());
    assert(ks[6] == k_prev_events());
    assert(ks[7] == k_redacts());
    assert(ks[8] == k_room_id());
    assert(ks[9] == k_sender());
    assert(ks[10] == k_signatures());
    assert(ks[11] == k_state_key());
    assert(ks[12] == k_type());
    assert(ks[13] == k_unsigned());
    let es = pdu_entries_v(p);
    assert(es =~= seq![
        (k_auth_events(), JsonV::Arr(str_arr_v(p.auth_events))),
        (k_content(), p.content),
        (k_depth(), JsonV::Int(p.depth as int)),
        (k_event_id(), JsonV::Str(p.event_id)),
        (k_hashes(), JsonV::Obj(seq![(k_sha256(), JsonV::Str(p.hashes))])),
        (k_origin_server_ts(), JsonV::Int(p.origin_server_ts as int)),
        (k_prev_events(), JsonV::Arr(str_arr_v(p.prev_events))),
        (k_redacts(), JsonV::Str(p.redacts->Some_0)),
        (k_room_id(), JsonV::Str(p.room_id)),
        (k_sender(), JsonV::Str(p.sender)),
        (k_signatures(), sig_obj_v(p.signatures)),
        (k_type(), JsonV::Str(p.kind)),
        (k_unsigned(), JsonV::Obj(p.unsigned)),
    ]);
    reveal_with_fuel(obj_get_v, 16);
    assert(obj_get_v(pdu_entries_v(p), k_auth_events()) == Some(JsonV::Arr(str_arr_v(p.auth_events))));
    assert(obj_get_v(pdu_entries_v(p), k_content()) == Some(p.content));
    assert(obj_get_v(pdu_entries_v(p), k_depth()) == Some(JsonV::Int(p.depth as int)));
    assert(obj_get_v(pdu_entries_v(p), k_event_id()) == Some(JsonV::Str(p.event_id)));
    assert(obj_get_v(pdu_entries_v(p), k_hashes()) == Some(JsonV::Obj(seq![(k_sha256(), JsonV::Str(p.hashes))])));
    assert(obj_get_v(pdu_entries_v(p), k_origin_server_ts()) == Some(JsonV::Int(p.origin_server_ts as int)));
    assert(obj_get_v(pdu_entries_v(p), k_prev_events()) == Some(JsonV::Arr(str_arr_v(p.prev_events))));
    assert(obj_get_v(pdu_entries_v(p), k_redacts()) == Some(JsonV::Str(p.redacts->Some_0)));
    assert(obj_get_v(pdu_entries_v(p), k_room_id()) == Some(JsonV::Str(p.room_id)));
    assert(obj_get_v(pdu_entries_v(p), k_sender()) == Some(JsonV::Str(p.sender)));
    assert(obj_get_v(pdu_entries_v(p), k_signatures()) == Some(sig_obj_v(p.signatures)));
    assert(obj_get_v(pdu_entries_v(p), k_state_key()) == None::<JsonV>);
    assert(obj_get_v(pdu_entries_v(p), k_type()) == Some(JsonV::Str(p.kind)));
    assert(obj_get_v(pdu_entries_v(p), k_unsigned()) == Some(JsonV::Obj(p.unsigned)));
}

#[verifier::rlimit(100)]
proof fn lemma_rt_case_rsn(p: PduV)
    requires
        wf_pdu(p),
        p.redacts is Some,
        p.state_key is Some,
        p.unsigned.len() == 0,
    ensures
        obj_get_v(pdu_entries_v(p), k_auth_events()) == Some(JsonV::Arr(str_arr_v(p.auth_events))),
        obj_get_v(pdu_entries_v(p), k_content()) == Some(p.content),
        obj_get_v(pdu_entries_v(p), k_depth()) == Some(JsonV::Int(p.depth as int)),
        obj_get_v(pdu_entries_v(p), k_event_id()) == Some(JsonV::Str(p.event_id)),
        obj_get_v(pdu_entries_v(p), k_hashes()) == Some(JsonV::Obj(seq![(k_sha256(), JsonV::Str(p.hashes))])),
        obj_get_v(pdu_entries_v(p), k_origin_server_ts()) == Some(JsonV::Int(p.origin_server_ts as int)),
        obj_get_v(pdu_entries_v(p), k_prev_events()) == Some(JsonV::Arr(str_arr_v(p.prev_events))),
        obj_get_v(pdu_entries_v(p), k_redacts()) == Some(JsonV::Str(p.redacts->Some_0)),
        obj_get_v(pdu_entries_v(p), k_room_id()) == Some(JsonV::Str(p.room_id)),
        obj_get_v(pdu_entries_v(p), k_sender()) == Some(JsonV::Str(p.sender)),
        obj_get_v(pdu_entries_v(p), k_signatures()) == Some(sig_obj_v(p.signatures)),
        obj_get_v(pdu_entries_v(p), k_state_key()) == Some(JsonV::Str(p.state_key->Some_0)),
        obj_get_v(pdu_entries_v(p), k_type()) == Some(JsonV::Str(p.kind)),
        obj_get_v(pdu_entries_v(p), k_unsigned()) == None::<JsonV>,
{
    lemma_pdu_keys_order();
    let ks = pdu_key_list();
    assert(ks[0] == k_auth_events());
    assert(ks[1] == k_content());
    assert(ks[2] == k_depth());
    assert(ks[3] == k_event_id());
    assert(ks[4] == k_hashes());
    assert(ks[5] == k_origin_server_ts());
    assert(ks[6] == k_prev_events());
    assert(ks[7] == k_redacts());
    assert(ks[8] == k_room_id());
    assert(ks[9] == k_sender());
    assert(ks[10] == k_signatures());
    assert(ks[11] == k_state_key());
    assert(ks[12] == k_type());
    assert(ks[13] == k_unsigned());
    let es = pdu_entries_v(p);
    assert(es =~= seq![
        (k_auth_events(), JsonV::Arr(str_arr_v(p.auth_events))),
        (k_content(), p.content),
        (k_depth(), JsonV::Int(p.depth as int)),
        (k_event_id(), JsonV::Str(p.event_id)),
        (k_hashes(), JsonV::Obj(seq![(k_sha256(), JsonV::Str(p.hashes))])),
        (k_origin_server_ts(), JsonV::Int(p.origin_server_ts as int)),
        (k_prev_events(), JsonV::Arr(str_arr_v(p.prev_events))),
        (k_redacts(), JsonV::Str(p.redacts->Some_0)),
        (k_room_id(), JsonV::Str(p.room_id)),
        (k_sender(), JsonV::Str(p.sender)),
        (k_signatures(), sig_obj_v(p.signatures)),
        (k_state_key(), JsonV::Str(p.state_key->Some_0)),
        (k_type(), JsonV::Str(p.kind)),
    ]);
    reveal_with_fuel(obj_get_v, 16);
    assert(obj_get_v(pdu_entries_v(p), k_auth_events()) == Some(JsonV::Arr(str_arr_v(p.auth_events))));
    assert(obj_get_v(pdu_entries_v(p), k_content()) == Some(p.content));
    assert(obj_get_v(pdu_entries_v(p), k_depth()) == Some(JsonV::Int(p.depth as int)));
    assert(obj_get_v(pdu_entries_v(p), k_event_id()) == Some(JsonV::Str(p.event_id)));
    assert(obj_get_v(pdu_entries_v(p), k_hashes()) == Some(JsonV::Obj(seq![(k_sha256(), JsonV::Str(p.hashes))])));
    assert(obj_get_v(pdu_entries_v(p), k_origin_server_ts()) == Some(JsonV::Int(p.origin_server_ts as int)));
    assert(obj_get_v(pdu_entries_v(p), k_prev_events()) == Some(JsonV::Arr(str_arr_v(p.prev_events))));
    assert(obj_get_v(pdu_entries_v(p), k_redacts()) == Some(JsonV::Str(p.redacts->Some_0)));
    assert(obj_get_v(pdu_entries_v(p), k_room_id()) == Some(JsonV::Str(p.room_id)));
    assert(obj_get_v(pdu_entries_v(p), k_sender()) == Some(JsonV::Str(p.sender)));
    assert(obj_get_v(pdu_entries_v(p), k_signatures()) == Some(sig_obj_v(p.signatures)));
    assert(obj_get_v(pdu_entries_v(p), k_state_key()) == Some(JsonV::Str(p.state_key->Some_0)));
    assert(obj_get_v(pdu_entries_v(p), k_type()) == Some(JsonV::Str(p.kind)));
    assert(obj_get_v(pdu_entries_v(p), k_unsigned()) == None::<JsonV>);
}

#[verifier::rlimit(100)]
proof fn lemma_rt_case_rsu(p: PduV)
    requires
        wf_pdu(p),
        p.redacts is Some,
        p.state_key is Some,
        p.unsigned.len() > 0,
    ensures
        obj_get_v(pdu_entries_v(p), k_auth_events()) == Some(JsonV::Arr(str_arr_v(p.auth_events))),
        obj_get_v(pdu_entries_v(p), k_content()) == Some(p.content),
        obj_get_v(pdu_entries_v(p), k_depth()) == Some(JsonV::Int(p.depth as int)),
        obj_get_v(pdu_entries_v(p), k_event_id()) == Some(JsonV::Str(p.event_id)),
        obj_get_v(pdu_entries_v(p), k_hashes()) == Some(JsonV::Obj(seq![(k_sha256(), JsonV::Str(p.hashes))])),
        obj_get_v(pdu_entries_v(p), k_origin_server_ts()) == Some(JsonV::Int(p.origin_server_ts as int)),
        obj_get_v(pdu_entries_v(p), k_prev_events()) == Some(JsonV::Arr(str_arr_v(p.prev_events))),
        obj_get_v(pdu_entries_v(p), k_redacts()) == Some(JsonV::Str(p.redacts->Some_0)),
        obj_get_v(pdu_entries_v(p), k_room_id()) == Some(JsonV::Str(p.room_id)),
        obj_get_v(pdu_entries_v(p), k_sender()) == Some(JsonV::Str(p.sender)),
        obj_get_v(pdu_entries_v(p), k_signatures()) == Some(sig_obj_v(p.signatures)),
        obj_get_v(pdu_entries_v(p), k_state_key()) == Some(JsonV::Str(p.state_key->Some_0)),
        obj_get_v(pdu_entries_v(p), k_type()) == Some(JsonV::Str(p.kind)),
        obj_get_v(pdu_entries_v(p), k_unsigned()) == Some(JsonV::Obj(p.unsigned)),
{
    lemma_pdu_keys_order();
    let ks = pdu_key_list();
    assert(ks[0] == k_auth_events());
    assert(ks[1] == k_content());
    assert(ks[2] == k_depth());
    assert(ks[3] == k_event_id());
    assert(ks[4] == k_hashes());
    assert(ks[5] == k_origin_server_ts());
    assert(ks[6] == k_prev_events());
    assert(ks[7] == k_redacts());
    assert(ks[8] == k_room_id());
    assert(ks[9] == k_sender());
    assert(ks[10] == k_signatures());
    assert(ks[11] == k_state_key());
    assert(ks[12] == k_type());
    assert(ks[13] == k_unsigned());
    let es = pdu_entries_v(p);
    assert(es =~= seq![
        (k_auth_events(), JsonV::Arr(str_arr_v(p.auth_events))),
        (k_content(), p.content),
        (k_depth(), JsonV::Int(p.depth as int)),
        (k_event_id(), JsonV::Str(p.event_id)),
        (k_hashes(), JsonV::Obj(seq![(k_sha256(), JsonV::Str(p.hashes))])),
        (k_origin_server_ts(), JsonV::Int(p.origin_server_ts as int)),
        (k_prev_events(), JsonV::Arr(str_arr_v(p.prev_events))),
        (k_redacts(), JsonV::Str(p.redacts->Some_0)),
        (k_room_id(), JsonV::Str(p.room_id)),
        (k_sender(), JsonV::Str(p.sender)),
        (k_signatures(), sig_obj_v(p.signatures)),
        (k_state_key(), JsonV::Str(p.state_key->Some_0)),
        (k_type(), JsonV::Str(p.kind)),
        (k_unsigned(), JsonV::Obj(p.unsigned)),
    ]);
    reveal_with_fuel(obj_get_v, 16);
    assert(obj_get_v(pdu_entries_v(p), k_auth_events()) == Some(JsonV::Arr(str_arr_v(p.auth_events))));
    assert(obj_get_v(pdu_entries_v(p), k_content()) == Some(p.content));
    assert(obj_get_v(pdu_entries_v(p), k_depth()) == Some(JsonV::Int(p.depth as int)));
    assert(obj_get_v(pdu_entries_v(p), k_event_id()) == Some(JsonV::Str(p.event_id)));
    assert(obj_get_v(pdu_entries_v(p), k_hashes()) == Some(JsonV::Obj(seq![(k_sha256(), JsonV::Str(p.hashes))])));
    assert(obj_get_v(pdu_entries_v(p), k_origin_server_ts()) == Some(JsonV::Int(p.origin_server_ts as int)));
    assert(obj_get_v(pdu_entries_v(p), k_prev_events()) == Some(JsonV::Arr(str_arr_v(p.prev_events))));
    assert(obj_get_v(pdu_entries_v(p), k_redacts()) == Some(JsonV::Str(p.redacts->Some_0)));
    assert(obj_get_v(pdu_entries_v(p), k_room_id()) == Some(JsonV::Str(p.room_id)));
    assert(obj_get_v(pdu_entries_v(p), k_sender()) == Some(JsonV::Str(p.sender)));
    assert(obj_get_v(pdu_entries_v(p), k_signatures()) == Some(sig_obj_v(p.signatures)));
    assert(obj_get_v(pdu_entries_v(p), k_state_key()) == Some(JsonV::Str(p.state_key->Some_0)));
    assert(obj_get_v(pdu_entries_v(p), k_type()) == Some(JsonV::Str(p.kind)));
    assert(obj_get_v(pdu_entries_v(p), k_unsigned()) == Some(JsonV::Obj(p.unsigned)));
}

/// Decoding the canonical object of a well-formed PDU yields that PDU.
pub proof fn lemma_codec_round_trip(p: PduV)
    requires
        wf_pdu(p),
    ensures
        pdu_from_obj_v(pdu_obj_v(p)) == Some(p),
{
    match p.redacts {
        Option::Some(_) => {
            match p.state_key {
                Option::Some(_) => {
                    if p.unsigned.len() > 0 {
                        lemma_rt_case_rsu(p);
                    } else {
                        lemma_rt_case_rsn(p);
                    }
                },
                Option::None => {
                    if p.unsigned.len() > 0 {
                        lemma_rt_case_rnu(p);
                    } else {
                        lemma_rt_case_rnn(p);
                    }
                },
            }
        },
        Option::None => {
            match p.state_key {
                Option::Some(_) => {
                    if p.unsigned.len() > 0 {
                        lemma_rt_case_nsu(p);
                    } else {
                        lemma_rt_case_nsn(p);
                    }
                },
                Option::None => {
                    if p.unsigned.len() > 0 {
                        lemma_rt_case_nnu(p);
                    } else {
                        lemma_rt_case_nnn(p);
                    }
                },
            }
        },
    }
    lemma_rt_common(p);
}


// Redaction.
/// The content keys that survive redaction, by event type.
pub open spec fn allowed_keys(kind: Seq<u8>) -> Seq<Seq<u8>> {
    if kind == ascii_seq("m.room.member"@) {
        seq![ascii_seq("membership"@)]
    } else if kind == ascii_seq("m.room.create"@) {
        seq![ascii_seq("creator"@)]
    } else if kind == ascii_seq("m.room.join_rules"@) {
        seq![ascii_seq("join_rule"@)]
    } else if kind == ascii_seq("m.room.power_levels"@) {
        seq![
            ascii_seq("ban"@),
            ascii_seq("events"@),
            ascii_seq("events_default"@),
            ascii_seq("kick"@),
            ascii_seq("redact"@),
            ascii_seq("state_default"@),
            ascii_seq("users"@),
            ascii_seq("users_default"@),
        ]
    } else if kind == ascii_seq("m.room.history_visibility"@) {
        seq![ascii_seq("history_visibility"@)]
    } else {
        Seq::empty()
    }
}

/// The redacted form of `p` under the redaction `reason`: content projected
/// to the allow list of its type, and `unsigned` replaced by a single
/// `redacted_because` entry holding the reason's canonical encoding.
pub open spec fn spec_redact(p: PduV, reason: PduV) -> PduV {
    PduV {
        content: JsonV::Obj(
            crate::json::retain_keys_v(p.content->Obj_0, allowed_keys(p.kind)),
        ),
        unsigned: seq![
            (k_redacted_because(), JsonV::Str(crate::json::encode_json(pdu_obj_v(reason)))),
        ],
        ..p
    }
}

/// The allow list for this PDU's type, as byte strings.
pub(crate) fn allowed_list(kind: &Vec<u8>) -> (r: Vec<Vec<u8>>)
    ensures
        keys_view(r@) == allowed_keys(kind@),
{
    let mut out: Vec<Vec<u8>> = Vec::new();
    proof {
        reveal_strlit("m.room.member");
        reveal_strlit("m.room.create");
        reveal_strlit("m.room.join_rules");
        reveal_strlit("m.room.power_levels");
        reveal_strlit("m.room.history_visibility");
        reveal_strlit("membership");
        reveal_strlit("creator");
        reveal_strlit("join_rule");
        reveal_strlit("ban");
        reveal_strlit("events");
        reveal_strlit("events_default");
        reveal_strlit("kick");
        reveal_strlit("redact");
        reveal_strlit("state_default");
        reveal_strlit("users");
        reveal_strlit("users_default");
        reveal_strlit("history_visibility");
    }
    if bytes_eq(kind, &ascii_bytes("m.room.member")) {
        out.push(ascii_bytes("membership"));
    } else if bytes_eq(kind, &ascii_bytes("m.room.create")) {
        out.push(ascii_bytes("creator"));
    } else if bytes_eq(kind, &ascii_bytes("m.room.join_rules")) {
        out.push(ascii_bytes("join_rule"));
    } else if bytes_eq(kind, &ascii_bytes("m.room.power_levels")) {
        out.push(ascii_bytes("ban"));
        out.push(ascii_bytes("events"));
        out.push(ascii_bytes("events_default"));
        out.push(ascii_bytes("kick"));
        out.push(ascii_bytes("redact"));
        out.push(ascii_bytes("state_default"));
        out.push(ascii_bytes("users"));
        out.push(ascii_bytes("users_default"));
    } else if bytes_eq(kind, &ascii_bytes("m.room.history_visibility")) {
        out.push(ascii_bytes("history_visibility"));
    }
    proof {
        assert(keys_view(out@) =~= allowed_keys(kind@));
    }
    out
}

impl Pdu {
    /// Applies the redaction projection under `reason`: only the allow
    /// list of this event's type survives in `content`, and `unsigned`
    /// records the reason. Fails only when the stored content is not an
    /// object, and leaves the PDU unchanged then.
    pub fn redact(&mut self, reason: &Pdu) -> (r: Result<(), Error>)
        requires
            wf_pdu(reason@),
        ensures
            match r {
                Ok(()) => old(self)@.content is Obj && final(self)@ == spec_redact(
                    old(self)@,
                    reason@,
                ),
                Err(e) => e == Error::BadDatabase && !(old(self)@.content is Obj) && final(self)@
                    == old(self)@,
            },
    {
        let allowed = allowed_list(&self.kind);
        let new_entries = match crate::json::as_obj(&self.content) {
            Some(entries) => crate::json::obj_retain_keys(entries, &allowed),
            None => {
                return Err(Error::BadDatabase);
            },
        };
        self.content = Json::Obj(new_entries);
        let reason_obj = reason.to_canonical_object();
        let reason_bytes = crate::json::to_canonical_bytes(&reason_obj);
        let mut u: Vec<(Vec<u8>, Json)> = Vec::new();
        u.push((key_redacted_because(), Json::Str(reason_bytes)));
        self.unsigned = u;
        proof {
            crate::json::lemma_view_obj(new_entries);
            assert(entries_view(self.unsigned@) =~= seq![
                (
                    k_redacted_because(),
                    JsonV::Str(crate::json::encode_json(pdu_obj_v(reason@))),
                ),
            ]);
            assert(self@ =~~= spec_redact(old(self)@, reason@));
        }
        Ok(())
    }
}

/// Redacting twice with the same reason changes nothing more: the
/// projection keeps only allowed keys, which a second pass keeps again,
/// and `redacted_because` is rewritten to the same value.
pub proof fn lemma_redact_idempotent(p: PduV, reason: PduV)
    requires
        p.content is Obj,
    ensures
        spec_redact(spec_redact(p, reason), reason) == spec_redact(p, reason),
{
    let p1 = spec_redact(p, reason);
    let allowed = allowed_keys(p.kind);
    let pred = |e: (Seq<u8>, JsonV)| allowed.contains(e.0);
    let c0 = p.content->Obj_0;
    let c1 = c0.filter(pred);
    assert forall|i: int| 0 <= i < c1.len() implies pred(#[trigger] c1[i]) by {
        c0.lemma_filter_pred(pred, i);
    }
    crate::json::lemma_filter_all(c1, pred);
    assert(p1.kind == p.kind);
    assert(p1.content->Obj_0 == c1);
    assert(spec_redact(p1, reason) =~~= p1);
}

/// Redaction keeps a PDU well formed.
pub proof fn lemma_redact_wf(p: PduV, reason: PduV)
    requires
        wf_pdu(p),
    ensures
        wf_pdu(spec_redact(p, reason)),
{
    let allowed = allowed_keys(p.kind);
    let pred = |e: (Seq<u8>, JsonV)| allowed.contains(e.0);
    let c0 = p.content->Obj_0;
    let c1 = c0.filter(pred);
    crate::json::lemma_wf_obj_unfold(c0);
    crate::json::lemma_filter_sorted(c0, pred);
    crate::json::lemma_filter_elements(c0, pred);
    assert forall|i: int| 0 <= i < c1.len() implies wf_json(#[trigger] c1[i].1) by {
        assert(c0.contains(c1[i]));
        let t = choose|t: int| 0 <= t < c0.len() && c0[t] == c1[i];
        assert(wf_json(c0[t].1));
    }
    crate::json::lemma_wf_obj_unfold(c1);
    let p1 = spec_redact(p, reason);
    assert(wf_json(p1.content));
    assert(obj_keys_sorted(p1.unsigned));
    crate::json::lemma_wf_entries_iff(p1.unsigned);
    assert forall|i: int| 0 <= i < p1.unsigned.len() implies wf_json(
        #[trigger] p1.unsigned[i].1,
    ) by {
        assert(p1.unsigned[i] == (
            k_redacted_because(),
            JsonV::Str(crate::json::encode_json(pdu_obj_v(reason))),
        ));
    }
}

// Outbound federation shape.
/// The object sent to federation peers: `event_id` removed, and
/// `unsigned.transaction_id` removed where present.
pub open spec fn fed_strip_v(o: Seq<(Seq<u8>, JsonV)>) -> Seq<(Seq<u8>, JsonV)> {
    crate::json::remove_key_v(o, k_event_id()).map_values(
        |e: (Seq<u8>, JsonV)|
            if e.0 == k_unsigned() && e.1 is Obj {
                (e.0, JsonV::Obj(crate::json::remove_key_v(e.1->Obj_0, k_transaction_id())))
            } else {
                e
            },
    )
}

/// Strips a canonical PDU object for sending to a federation peer.
pub fn to_outgoing_federation(obj: &Json) -> (r: Json)
    ensures
        obj@ is Obj ==> r@ == JsonV::Obj(fed_strip_v(obj@->Obj_0)),
        !(obj@ is Obj) ==> r@ == obj@,
{
    let entries = match crate::json::as_obj(obj) {
        Some(o) => o,
        None => {
            return json_clone(obj);
        },
    };
    let ke = key_event_id();
    let removed = crate::json::obj_remove_key(entries, &ke);
    let ghost rv = entries_view(removed@);
    let ku = key_unsigned();
    let kt = key_transaction_id();
    let mut out: Vec<(Vec<u8>, Json)> = Vec::new();
    let mut i: usize = 0;
    let ghost f = |e: (Seq<u8>, JsonV)|
        if e.0 == k_unsigned() && e.1 is Obj {
            (e.0, JsonV::Obj(crate::json::remove_key_v(e.1->Obj_0, k_transaction_id())))
        } else {
            e
        };
    while i < removed.len()
        invariant
            0 <= i <= removed@.len(),
            rv == entries_view(removed@),
            rv.len() == removed@.len(),
            ku@ == k_unsigned(),
            kt@ == k_transaction_id(),
            f == (|e: (Seq<u8>, JsonV)|
                if e.0 == k_unsigned() && e.1 is Obj {
                    (e.0, JsonV::Obj(crate::json::remove_key_v(e.1->Obj_0, k_transaction_id())))
                } else {
                    e
                }),
            out@.len() == i,
            forall|t: int| 0 <= t < i ==> (#[trigger] entries_view(out@)[t]) == f(rv[t]),
        decreases removed@.len() - i,
    {
        proof {
            assert(rv[i as int] == (removed@[i as int].0@, json_view(removed@[i as int].1)));
        }
        let ghost out_old = out@;
        if bytes_eq(&removed[i].0, &ku) {
            match crate::json::as_obj(&removed[i].1) {
                Some(inner) => {
                    let stripped = crate::json::obj_remove_key(inner, &kt);
                    proof {
                        crate::json::lemma_view_obj(stripped);
                    }
                    out.push((bytes_clone(&removed[i].0), Json::Obj(stripped)));
                },
                None => {
                    out.push((bytes_clone(&removed[i].0), json_clone(&removed[i].1)));
                },
            }
        } else {
            out.push((bytes_clone(&removed[i].0), json_clone(&removed[i].1)));
        }
        proof {
            assert forall|t: int| 0 <= t < i + 1 implies (#[trigger] entries_view(out@)[t]) == f(
                rv[t],
            ) by {
                if t < i {
                    assert(out@[t] == out_old[t]);
                    assert(entries_view(out@)[t] == (out@[t].0@, json_view(out@[t].1)));
                    assert(entries_view(out_old)[t] == (out_old[t].0@, json_view(out_old[t].1)));
                } else {
                    assert(entries_view(out@)[t] == (out@[t].0@, json_view(out@[t].1)));
                }
            }
        }
        i = i + 1;
    }
    proof {
        crate::json::lemma_view_obj(out);
        assert(entries_view(out@) =~= rv.map_values(f));
        assert(rv.map_values(f) == fed_strip_v(obj@->Obj_0));
    }
    Json::Obj(out)
}


// The client-facing event shapes: each is a projection of the canonical
// object that keeps a fixed set of fields.
/// The room-event shape: everything a client sees of a timeline event,
/// including the room id.
pub open spec fn room_event_entries_v(p: PduV) -> Seq<(Seq<u8>, JsonV)> {
    seq![
        (k_content(), p.content),
        (k_event_id(), JsonV::Str(p.event_id)),
        (k_origin_server_ts(), JsonV::Int(p.origin_server_ts as int)),
    ] + (match p.redacts {
        Some(r) => seq![(k_redacts(), JsonV::Str(r))],
        None => Seq::empty(),
    }) + seq![(k_room_id(), JsonV::Str(p.room_id)), (k_sender(), JsonV::Str(p.sender))] + (
    match p.state_key {
        Some(sk) => seq![(k_state_key(), JsonV::Str(sk))],
        None => Seq::empty(),
    }) + seq![(k_type(), JsonV::Str(p.kind))] + (if p.unsigned.len() > 0 {
        seq![(k_unsigned(), JsonV::Obj(p.unsigned))]
    } else {
        Seq::empty()
    })
}

/// The sync shape: the room-event shape without the room id, since sync
/// responses already group by room.
pub open spec fn sync_room_event_entries_v(p: PduV) -> Seq<(Seq<u8>, JsonV)> {
    seq![
        (k_content(), p.content),
        (k_event_id(), JsonV::Str(p.event_id)),
        (k_origin_server_ts(), JsonV::Int(p.origin_server_ts as int)),
    ] + (match p.redacts {
        Some(r) => seq![(k_redacts(), JsonV::Str(r))],
        None => Seq::empty(),
    }) + seq![(k_sender(), JsonV::Str(p.sender))] + (match p.state_key {
        Some(sk) => seq![(k_state_key(), JsonV::Str(sk))],
        None => Seq::empty(),
    }) + seq![(k_type(), JsonV::Str(p.kind))] + (if p.unsigned.len() > 0 {
        seq![(k_unsigned(), JsonV::Obj(p.unsigned))]
    } else {
        Seq::empty()
    })
}

/// The state-event shape: the state key is always carried, null when the
/// event has none.
pub open spec fn state_event_entries_v(p: PduV) -> Seq<(Seq<u8>, JsonV)> {
    seq![
        (k_content(), p.content),
        (k_event_id(), JsonV::Str(p.event_id)),
        (k_origin_server_ts(), JsonV::Int(p.origin_server_ts as int)),
        (k_room_id(), JsonV::Str(p.room_id)),
        (k_sender(), JsonV::Str(p.sender)),
        (
            k_state_key(),
            match p.state_key {
                Some(sk) => JsonV::Str(sk),
                None => JsonV::Null,
            },
        ),
        (k_type(), JsonV::Str(p.kind)),
    ] + (if p.unsigned.len() > 0 {
        seq![(k_unsigned(), JsonV::Obj(p.unsigned))]
    } else {
        Seq::empty()
    })
}

/// The stripped shape for invited users: content, sender, state key and
/// type alone.
pub open spec fn stripped_state_event_entries_v(p: PduV) -> Seq<(Seq<u8>, JsonV)> {
    seq![
        (k_content(), p.content),
        (k_sender(), JsonV::Str(p.sender)),
        (
            k_state_key(),
            match p.state_key {
                Some(sk) => JsonV::Str(sk),
                None => JsonV::Null,
            },
        ),
        (k_type(), JsonV::Str(p.kind)),
    ]
}

impl Pdu {
    fn opt_state_key_json(&self) -> (r: Json)
        ensures
            r@ == (match self@.state_key {
                Some(sk) => JsonV::Str(sk),
                None => JsonV::Null,
            }),
    {
        match &self.state_key {
            Some(sk) => Json::Str(bytes_clone(sk)),
            None => Json::Null,
        }
    }

    fn unsigned_json(&self) -> (r: Json)
        ensures
            r@ == JsonV::Obj(self@.unsigned),
    {
        let uv = clone_entries(&self.unsigned);
        proof {
            crate::json::lemma_view_obj(uv);
        }
        Json::Obj(uv)
    }

    /// The room-event shape of this PDU.
    pub fn to_room_event(&self) -> (r: Json)
        requires
            wf_pdu(self@),
        ensures
            r@ == JsonV::Obj(room_event_entries_v(self@)),
    {
        let mut out: Vec<(Vec<u8>, Json)> = Vec::new();
        out.push((key_content(), json_clone(&self.content)));
        out.push((key_event_id(), Json::Str(bytes_clone(&self.event_id))));
        out.push((key_origin_server_ts(), Json::Int(self.origin_server_ts as i64)));
        match &self.redacts {
            Some(rv) => {
                out.push((key_redacts(), Json::Str(bytes_clone(rv))));
            },
            None => {},
        }
        out.push((key_room_id(), Json::Str(bytes_clone(&self.room_id))));
        out.push((key_sender(), Json::Str(bytes_clone(&self.sender))));
        match &self.state_key {
            Some(sk) => {
                out.push((key_state_key(), Json::Str(bytes_clone(sk))));
            },
            None => {},
        }
        out.push((key_type(), Json::Str(bytes_clone(&self.kind))));
        if self.unsigned.len() > 0 {
            out.push((key_unsigned(), self.unsigned_json()));
        }
        proof {
            crate::json::lemma_view_obj(out);
            assert(entries_view(out@) =~= room_event_entries_v(self@));
        }
        Json::Obj(out)
    }

    /// The sync shape of this PDU.
    pub fn to_sync_room_event(&self) -> (r: Json)
        requires
            wf_pdu(self@),
        ensures
            r@ == JsonV::Obj(sync_room_event_entries_v(self@)),
    {
        let mut out: Vec<(Vec<u8>, Json)> = Vec::new();
        out.push((key_content(), json_clone(&self.content)));
        out.push((key_event_id(), Json::Str(bytes_clone(&self.event_id))));
        out.push((key_origin_server_ts(), Json::Int(self.origin_server_ts as i64)));
        match &self.redacts {
            Some(rv) => {
                out.push((key_redacts(), Json::Str(bytes_clone(rv))));
            },
            None => {},
        }
        out.push((key_sender(), Json::Str(bytes_clone(&self.sender))));
        match &self.state_key {
            Some(sk) => {
                out.push((key_state_key(), Json::Str(bytes_clone(sk))));
            },
            None => {},
        }
        out.push((key_type(), Json::Str(bytes_clone(&self.kind))));
        if self.unsigned.len() > 0 {
            out.push((key_unsigned(), self.unsigned_json()));
        }
        proof {
            crate::json::lemma_view_obj(out);
            assert(entries_view(out@) =~= sync_room_event_entries_v(self@));
        }
        Json::Obj(out)
    }

    /// The state-event shape of this PDU.
    pub fn to_state_event(&self) -> (r: Json)
        requires
            wf_pdu(self@),
        ensures
            r@ == JsonV::Obj(state_event_entries_v(self@)),
    {
        let mut out: Vec<(Vec<u8>, Json)> = Vec::new();
        out.push((key_content(), json_clone(&self.content)));
        out.push((key_event_id(), Json::Str(bytes_clone(&self.event_id))));
        out.push((key_origin_server_ts(), Json::Int(self.origin_server_ts as i64)));
        out.push((key_room_id(), Json::Str(bytes_clone(&self.room_id))));
        out.push((key_sender(), Json::Str(bytes_clone(&self.sender))));
        out.push((key_state_key(), self.opt_state_key_json()));
        out.push((key_type(), Json::Str(bytes_clone(&self.kind))));
        if self.unsigned.len() > 0 {
            out.push((key_unsigned(), self.unsigned_json()));
        }
        proof {
            crate::json::lemma_view_obj(out);
            assert(entries_view(out@) =~= state_event_entries_v(self@));
        }
        Json::Obj(out)
    }

    /// The stripped shape of this PDU.
    pub fn to_stripped_state_event(&self) -> (r: Json)
        requires
            wf_pdu(self@),
        ensures
            r@ == JsonV::Obj(stripped_state_event_entries_v(self@)),
    {
        let mut out: Vec<(Vec<u8>, Json)> = Vec::new();
        out.push((key_content(), json_clone(&self.content)));
        out.push((key_sender(), Json::Str(bytes_clone(&self.sender))));
        out.push((key_state_key(), self.opt_state_key_json()));
        out.push((key_type(), Json::Str(bytes_clone(&self.kind))));
        proof {
            crate::json::lemma_view_obj(out);
            assert(entries_view(out@) =~= stripped_state_event_entries_v(self@));
        }
        Json::Obj(out)
    }
}

} // verus!
