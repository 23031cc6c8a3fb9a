//! Tests of the canonical JSON codec, redaction, and the queue-key codec.

use conduit::json::{
    encode_onto, json_clone, json_eq, json_wf_check, obj_get, to_canonical_bytes, Json,
};
use conduit::pdu::{from_canonical_object, from_id_val, to_outgoing_federation, Pdu};

fn b(s: &str) -> Vec<u8> {
    s.as_bytes().to_vec()
}

fn sample_content() -> Json {
    Json::Obj(vec![
        (b("body"), Json::Str(b("hi"))),
        (b("msgtype"), Json::Str(b("m.text"))),
    ])
}

fn sample_pdu() -> Pdu {
    Pdu {
        event_id: b("$abc"),
        room_id: b("!r:s.example"),
        sender: b("@alice:s.example"),
        origin_server_ts: 1_700_000_000_000,
        kind: b("m.room.message"),
        content: sample_content(),
        state_key: None,
        prev_events: vec![b("$parent")],
        depth: 7,
        auth_events: vec![b("$create")],
        redacts: None,
        unsigned: vec![],
        hashes: b("h256"),
        signatures: vec![(b("s.example"), vec![(b("ed25519:1"), b("sig"))])],
    }
}

#[test]
fn canonical_encoding_is_exact() {
    let v = Json::Obj(vec![
        (b("a"), Json::Int(-3)),
        (b("b"), Json::Str(b("x\"y\\z"))),
        (b("c"), Json::Arr(vec![Json::Null, Json::Bool(true), Json::Bool(false)])),
    ]);
    let bytes = to_canonical_bytes(&v);
    assert_eq!(
        String::from_utf8(bytes).unwrap(),
        "{\"a\":-3,\"b\":\"x\\\"y\\\\z\",\"c\":[null,true,false]}"
    );
}

#[test]
fn canonical_encoding_escapes_controls() {
    let v = Json::Str(vec![0x01, b'\n', b'\t', 0x1f]);
    let bytes = to_canonical_bytes(&v);
    assert_eq!(String::from_utf8(bytes).unwrap(), "\"\\u0001\\n\\t\\u001f\"");
}

#[test]
fn integer_encoding_covers_bounds() {
    let mut out = Vec::new();
    encode_onto(&Json::Int(0), &mut out);
    out.push(b' ');
    encode_onto(&Json::Int(9007199254740991), &mut out);
    out.push(b' ');
    encode_onto(&Json::Int(-9007199254740991), &mut out);
    assert_eq!(
        String::from_utf8(out).unwrap(),
        "0 9007199254740991 -9007199254740991"
    );
}

#[test]
fn wf_check_accepts_sorted_and_rejects_unsorted() {
    assert!(json_wf_check(&sample_content()));
    let unsorted = Json::Obj(vec![
        (b("msgtype"), Json::Str(b("m.text"))),
        (b("body"), Json::Str(b("hi"))),
    ]);
    assert!(!json_wf_check(&unsorted));
    let out_of_range = Json::Int(9007199254740992);
    assert!(!json_wf_check(&out_of_range));
}

#[test]
fn codec_round_trip_plain_event() {
    let p = sample_pdu();
    let obj = p.to_canonical_object();
    let q = from_canonical_object(&obj).expect("canonical object of a PDU parses back");
    assert_eq!(q.event_id, p.event_id);
    assert_eq!(q.room_id, p.room_id);
    assert_eq!(q.sender, p.sender);
    assert_eq!(q.origin_server_ts, p.origin_server_ts);
    assert_eq!(q.kind, p.kind);
    assert!(json_eq(&q.content, &p.content));
    assert_eq!(q.state_key, p.state_key);
    assert_eq!(q.prev_events, p.prev_events);
    assert_eq!(q.depth, p.depth);
    assert_eq!(q.auth_events, p.auth_events);
    assert_eq!(q.redacts, p.redacts);
    assert_eq!(q.hashes, p.hashes);
    assert_eq!(q.signatures, p.signatures);
}

#[test]
fn codec_round_trip_state_event_with_redacts_and_unsigned() {
    let mut p = sample_pdu();
    p.kind = b("m.room.member");
    p.state_key = Some(b("@bob:s.example"));
    p.redacts = Some(b("$victim"));
    p.unsigned = vec![(b("age"), Json::Int(4))];
    let obj = p.to_canonical_object();
    let q = from_canonical_object(&obj).expect("parses back");
    assert_eq!(q.state_key, p.state_key);
    assert_eq!(q.redacts, p.redacts);
    assert_eq!(q.unsigned.len(), 1);
    assert_eq!(q.unsigned[0].0, b("age"));
    assert!(json_eq(&q.unsigned[0].1, &Json::Int(4)));
}

#[test]
fn from_id_val_overrides_event_id() {
    let p = sample_pdu();
    let obj = p.to_canonical_object();
    let q = from_id_val(&b("$other"), &obj).expect("parses");
    assert_eq!(q.event_id, b("$other"));
}

#[test]
fn from_rejects_missing_field() {
    let obj = Json::Obj(vec![(b("content"), sample_content())]);
    assert!(from_canonical_object(&obj).is_err());
}

#[test]
fn redaction_projects_content_and_is_idempotent() {
    let reason = sample_pdu();
    let mut p = sample_pdu();
    p.kind = b("m.room.member");
    p.content = Json::Obj(vec![
        (b("displayname"), Json::Str(b("alice"))),
        (b("membership"), Json::Str(b("join"))),
    ]);
    p.redact(&reason).expect("object content redacts");
    match &p.content {
        Json::Obj(entries) => {
            assert_eq!(entries.len(), 1);
            assert_eq!(entries[0].0, b("membership"));
        },
        _ => panic!("content stays an object"),
    }
    assert_eq!(p.unsigned.len(), 1);
    assert_eq!(p.unsigned[0].0, b("redacted_because"));
    let once_content = json_clone(&p.content);
    let once_unsigned_len = p.unsigned.len();
    p.redact(&reason).expect("second redaction");
    assert!(json_eq(&p.content, &once_content));
    assert_eq!(p.unsigned.len(), once_unsigned_len);
}

#[test]
fn redaction_of_message_clears_content() {
    let reason = sample_pdu();
    let mut p = sample_pdu();
    p.redact(&reason).expect("redacts");
    match &p.content {
        Json::Obj(entries) => assert!(entries.is_empty()),
        _ => panic!("content stays an object"),
    }
}

#[test]
fn federation_shape_strips_event_id_and_transaction_id() {
    let mut p = sample_pdu();
    p.unsigned = vec![
        (b("age"), Json::Int(1)),
        (b("transaction_id"), Json::Str(b("t1"))),
    ];
    let obj = p.to_canonical_object();
    let out = to_outgoing_federation(&obj);
    match &out {
        Json::Obj(entries) => {
            assert!(obj_get(entries, &b("event_id")).is_none());
            let unsig = obj_get(entries, &b("unsigned")).expect("unsigned kept");
            match unsig {
                Json::Obj(u) => {
                    assert!(obj_get(u, &b("transaction_id")).is_none());
                    assert!(obj_get(u, &b("age")).is_some());
                },
                _ => panic!("unsigned stays an object"),
            }
        },
        _ => panic!("object out"),
    }
}

#[test]
fn json_deep_equality() {
    let a = sample_content();
    let c = json_clone(&a);
    assert!(json_eq(&a, &c));
    let d = Json::Obj(vec![
        (b("body"), Json::Str(b("hi!"))),
        (b("msgtype"), Json::Str(b("m.text"))),
    ]);
    assert!(!json_eq(&a, &d));
}

#[test]
fn client_shapes_project_the_right_fields() {
    let mut p = sample_pdu();
    p.state_key = Some(b("@bob:s.example"));
    let room_event = p.to_room_event();
    let sync_event = p.to_sync_room_event();
    let stripped = p.to_stripped_state_event();
    match &room_event {
        Json::Obj(o) => {
            assert!(obj_get(o, &b("room_id")).is_some());
            assert!(obj_get(o, &b("event_id")).is_some());
            assert!(obj_get(o, &b("prev_events")).is_none());
        },
        _ => panic!("an object"),
    }
    match &sync_event {
        Json::Obj(o) => {
            assert!(obj_get(o, &b("room_id")).is_none());
            assert!(obj_get(o, &b("event_id")).is_some());
        },
        _ => panic!("an object"),
    }
    match &stripped {
        Json::Obj(o) => {
            assert_eq!(o.len(), 4);
            assert!(obj_get(o, &b("event_id")).is_none());
            assert!(obj_get(o, &b("origin_server_ts")).is_none());
            assert!(obj_get(o, &b("content")).is_some());
            assert!(obj_get(o, &b("state_key")).is_some());
        },
        _ => panic!("an object"),
    }
    let state_event = p.to_state_event();
    match &state_event {
        Json::Obj(o) => {
            assert!(obj_get(o, &b("state_key")).is_some());
            assert!(obj_get(o, &b("room_id")).is_some());
        },
        _ => panic!("an object"),
    }
}
