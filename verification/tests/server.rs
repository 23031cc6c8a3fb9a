//! Tests of the append pipeline, the store's state index, and the
//! push-rule evaluator.

use conduit::append::PduBuilder;
use conduit::dispatch::Dispatcher;
use conduit::json::Json;
use conduit::push::{default_pushrules, evaluate, build_notification, PushCtx, Tweak};
use conduit::store::Store;

fn b(s: &str) -> Vec<u8> {
    s.as_bytes().to_vec()
}

fn new_store() -> (Store, Dispatcher) {
    (Store::new(b("home.example")), Dispatcher::new())
}

fn create_room(store: &mut Store, disp: &mut Dispatcher, room: &str, creator: &str) -> Vec<u8> {
    let builder = PduBuilder {
        event_type: b("m.room.create"),
        content: Json::Obj(vec![(b("creator"), Json::Str(b(creator)))]),
        unsigned: vec![],
        state_key: Some(b("")),
        redacts: None,
    };
    store
        .build_and_append_pdu(disp, &builder, &b(creator), &b(room), 1_000)
        .expect("the create event founds the room")
}

fn join(store: &mut Store, disp: &mut Dispatcher, room: &str, user: &str, ts: u64) -> Vec<u8> {
    let builder = PduBuilder {
        event_type: b("m.room.member"),
        content: Json::Obj(vec![(b("membership"), Json::Str(b("join")))]),
        unsigned: vec![],
        state_key: Some(b(user)),
        redacts: None,
    };
    store
        .build_and_append_pdu(disp, &builder, &b(user), &b(room), ts)
        .expect("a user may set their own membership")
}

fn message(
    store: &mut Store,
    disp: &mut Dispatcher,
    room: &str,
    sender: &str,
    body: &str,
    ts: u64,
) -> Result<Vec<u8>, conduit::Error> {
    let builder = PduBuilder {
        event_type: b("m.room.message"),
        content: Json::Obj(vec![
            (b("body"), Json::Str(b(body))),
            (b("msgtype"), Json::Str(b("m.text"))),
        ]),
        unsigned: vec![],
        state_key: None,
        redacts: None,
    };
    store.build_and_append_pdu(disp, &builder, &b(sender), &b(room), ts)
}

#[test]
fn first_message_in_a_new_room() {
    let (mut store, mut disp) = new_store();
    let create_id = create_room(&mut store, &mut disp, "!r:home.example", "@alice:home.example");
    let create = store.get_pdu(&create_id).expect("the create event is stored");
    assert_eq!(create.depth, 0);
    assert!(create.prev_events.is_empty());
    assert!(create.event_id.starts_with(b"$"));

    let join_id = join(&mut store, &mut disp, "!r:home.example", "@alice:home.example", 1_001);
    let join_pdu = store.get_pdu(&join_id).expect("the join event is stored");
    assert_eq!(join_pdu.depth, 1);
    assert_eq!(join_pdu.prev_events, vec![create_id.clone()]);

    let msg_id = message(
        &mut store,
        &mut disp,
        "!r:home.example",
        "@alice:home.example",
        "hi",
        1_002,
    )
    .expect("a joined member sends");
    let msg = store.get_pdu(&msg_id).expect("stored");
    assert_eq!(msg.depth, 2);
    assert_eq!(msg.prev_events, vec![join_id.clone()]);

    // the room's current state holds the create event
    let state = store.room_state_full(&b("!r:home.example"));
    assert!(state.iter().any(|p| p.event_id == create_id));
    // the auth selection names the create event
    assert!(msg.auth_events.contains(&create_id));
}

#[test]
fn displayname_change_updates_current_state() {
    let (mut store, mut disp) = new_store();
    create_room(&mut store, &mut disp, "!r:home.example", "@alice:home.example");
    join(&mut store, &mut disp, "!r:home.example", "@alice:home.example", 1_001);
    let builder = PduBuilder {
        event_type: b("m.room.member"),
        content: Json::Obj(vec![
            (b("displayname"), Json::Str(b("alice"))),
            (b("membership"), Json::Str(b("join"))),
        ]),
        unsigned: vec![],
        state_key: Some(b("@alice:home.example")),
        redacts: None,
    };
    let new_id = store
        .build_and_append_pdu(&mut disp, &builder, &b("@alice:home.example"), &b("!r:home.example"), 1_002)
        .expect("own membership update");
    // the current (m.room.member, @alice) state points at the new event
    let cur = store
        .room_state_get(&b("!r:home.example"), &b("m.room.member"), &b("@alice:home.example"))
        .expect("a member event stands in the state index");
    assert_eq!(cur.event_id, new_id);
    match &cur.content {
        Json::Obj(entries) => {
            assert!(entries.iter().any(|(k, v)| k == &b("displayname")
                && matches!(v, Json::Str(s) if s == &b("alice"))));
        },
        _ => panic!("content is an object"),
    }
    assert!(store.is_joined(&b("@alice:home.example"), &b("!r:home.example")));
}

#[test]
fn stranger_may_not_send() {
    let (mut store, mut disp) = new_store();
    create_room(&mut store, &mut disp, "!r:home.example", "@alice:home.example");
    let r = message(
        &mut store,
        &mut disp,
        "!r:home.example",
        "@mallory:home.example",
        "hi",
        1_001,
    );
    assert_eq!(
        r.unwrap_err(),
        conduit::Error::BadRequest(conduit::ErrorKind::Forbidden)
    );
}

#[test]
fn create_into_existing_room_is_forbidden() {
    let (mut store, mut disp) = new_store();
    create_room(&mut store, &mut disp, "!r:home.example", "@alice:home.example");
    let builder = PduBuilder {
        event_type: b("m.room.create"),
        content: Json::Obj(vec![]),
        unsigned: vec![],
        state_key: Some(b("")),
        redacts: None,
    };
    let r = store.build_and_append_pdu(
        &mut disp,
        &builder,
        &b("@alice:home.example"),
        &b("!r:home.example"),
        1_001,
    );
    assert_eq!(
        r.unwrap_err(),
        conduit::Error::BadRequest(conduit::ErrorKind::Forbidden)
    );
}

#[test]
fn leaving_drops_membership() {
    let (mut store, mut disp) = new_store();
    create_room(&mut store, &mut disp, "!r:home.example", "@alice:home.example");
    join(&mut store, &mut disp, "!r:home.example", "@alice:home.example", 1_001);
    let builder = PduBuilder {
        event_type: b("m.room.member"),
        content: Json::Obj(vec![(b("membership"), Json::Str(b("leave")))]),
        unsigned: vec![],
        state_key: Some(b("@alice:home.example")),
        redacts: None,
    };
    store
        .build_and_append_pdu(&mut disp, &builder, &b("@alice:home.example"), &b("!r:home.example"), 1_002)
        .expect("own membership update");
    assert!(!store.is_joined(&b("@alice:home.example"), &b("!r:home.example")));
}

#[test]
fn event_id_is_dollar_prefixed_hash() {
    let (mut store, mut disp) = new_store();
    let id1 = create_room(&mut store, &mut disp, "!a:home.example", "@alice:home.example");
    let id2 = create_room(&mut store, &mut disp, "!b:home.example", "@alice:home.example");
    assert_eq!(id1.len(), 44);
    assert_eq!(id1[0], b'$');
    // different rooms give different hashes
    assert_ne!(id1, id2);
}

fn sample_message(msgtype: &str) -> conduit::pdu::Pdu {
    conduit::pdu::Pdu {
        event_id: b("$e"),
        room_id: b("!r:home.example"),
        sender: b("@bob:home.example"),
        origin_server_ts: 1,
        kind: b("m.room.message"),
        content: Json::Obj(vec![
            (b("body"), Json::Str(b("hello @alice"))),
            (b("msgtype"), Json::Str(b(msgtype))),
        ]),
        state_key: None,
        prev_events: vec![],
        depth: 1,
        auth_events: vec![],
        redacts: None,
        unsigned: vec![],
        hashes: b("h"),
        signatures: vec![],
    }
}

fn ctx(members: u64) -> PushCtx {
    PushCtx {
        user_id: b("@alice:home.example"),
        user_localpart: b("alice"),
        displayname: b("Alice"),
        room_member_count: members,
        sender_can_room_notify: false,
    }
}

#[test]
fn notices_are_suppressed() {
    let rules = default_pushrules();
    let pdu = sample_message("m.notice");
    assert!(evaluate(&rules, &pdu, &ctx(5)).is_none());
}

#[test]
fn plain_message_notifies_with_username_highlight() {
    let rules = default_pushrules();
    let pdu = sample_message("m.text");
    // the body holds the recipient's localpart: contains_user_name wins
    let tweaks = evaluate(&rules, &pdu, &ctx(5)).expect("notifies");
    assert!(tweaks
        .iter()
        .any(|t| matches!(t, Tweak::Highlight(true))));
}

#[test]
fn one_to_one_event_id_only_notification_is_low_priority() {
    let rules = default_pushrules();
    let mut pdu = sample_message("m.text");
    pdu.content = Json::Obj(vec![
        (b("body"), Json::Str(b("ping"))),
        (b("msgtype"), Json::Str(b("m.text"))),
    ]);
    let tweaks = evaluate(&rules, &pdu, &ctx(2)).expect("one-to-one notifies");
    let n = build_notification(&pdu, 3, tweaks, true);
    assert!(!n.prio_high);
    assert_eq!(n.unread, 3);
    assert!(n.sender.is_none());
    assert!(n.event_type.is_none());
    assert!(n.content.is_none());
    assert!(n.tweaks.is_empty());
    assert_eq!(n.event_id, b("$e"));
    assert_eq!(n.room_id, b("!r:home.example"));
}

#[test]
fn encrypted_event_notification_is_high_priority() {
    let rules = default_pushrules();
    let mut pdu = sample_message("m.text");
    pdu.kind = b("m.room.encrypted");
    pdu.content = Json::Obj(vec![]);
    let tweaks = evaluate(&rules, &pdu, &ctx(5)).expect("encrypted notifies");
    let n = build_notification(&pdu, 1, tweaks, false);
    assert!(n.prio_high);
    assert!(n.sender.is_some());
}

#[test]
fn master_rule_silences_everything_when_enabled() {
    let mut rules = default_pushrules();
    rules.rules[0].enabled = true;
    let pdu = sample_message("m.text");
    assert!(evaluate(&rules, &pdu, &ctx(5)).is_none());
}

#[test]
fn member_event_rule_matches_by_condition() {
    let rules = default_pushrules();
    let mut pdu = sample_message("m.text");
    pdu.kind = b("m.room.member");
    pdu.state_key = Some(b("@carol:home.example"));
    pdu.content = Json::Obj(vec![(b("membership"), Json::Str(b("join")))]);
    // the default member_event condition matches on the event type
    let tweaks = evaluate(&rules, &pdu, &ctx(5)).expect("member event notifies");
    assert!(!tweaks.iter().any(|t| matches!(t, Tweak::Highlight(true))));
}

#[test]
fn invite_for_me_notifies_the_target() {
    let rules = default_pushrules();
    let mut pdu = sample_message("m.text");
    pdu.kind = b("m.room.member");
    pdu.state_key = Some(b("@alice:home.example"));
    pdu.content = Json::Obj(vec![(b("membership"), Json::Str(b("invite")))]);
    let tweaks = evaluate(&rules, &pdu, &ctx(5)).expect("the invite notifies");
    assert!(tweaks.iter().any(|t| matches!(t, Tweak::Sound(_))));
}

#[test]
fn canonical_alias_for_another_room_is_forbidden() {
    let (mut store, mut disp) = new_store();
    create_room(&mut store, &mut disp, "!r:home.example", "@alice:home.example");
    join(&mut store, &mut disp, "!r:home.example", "@alice:home.example", 1_001);
    create_room(&mut store, &mut disp, "!other:home.example", "@alice:home.example");
    // the alias is bound to the other room
    store.set_alias(b("#nice:home.example"), b("!other:home.example"));
    let events_before = store.room_len(&b("!r:home.example"));
    let builder = PduBuilder {
        event_type: b("m.room.canonical_alias"),
        content: Json::Obj(vec![(b("alias"), Json::Str(b("#nice:home.example")))]),
        unsigned: vec![],
        state_key: Some(b("")),
        redacts: None,
    };
    let r = conduit::client::send_state_event_for_key_helper(
        &mut store,
        &mut disp,
        &builder,
        &b("@alice:home.example"),
        &b("!r:home.example"),
        1_002,
    );
    assert_eq!(
        r.unwrap_err(),
        conduit::Error::BadRequest(conduit::ErrorKind::Forbidden)
    );
    // nothing was appended
    assert_eq!(store.room_len(&b("!r:home.example")), events_before);
}

#[test]
fn canonical_alias_bound_to_this_room_passes() {
    let (mut store, mut disp) = new_store();
    create_room(&mut store, &mut disp, "!r:home.example", "@alice:home.example");
    join(&mut store, &mut disp, "!r:home.example", "@alice:home.example", 1_001);
    store.set_alias(b("#nice:home.example"), b("!r:home.example"));
    let builder = PduBuilder {
        event_type: b("m.room.canonical_alias"),
        content: Json::Obj(vec![
            (b("alias"), Json::Str(b("#nice:home.example"))),
            (b("alt_aliases"), Json::Arr(vec![])),
        ]),
        unsigned: vec![],
        state_key: Some(b("")),
        redacts: None,
    };
    let id = conduit::client::send_state_event_for_key_helper(
        &mut store,
        &mut disp,
        &builder,
        &b("@alice:home.example"),
        &b("!r:home.example"),
        1_002,
    )
    .expect("a bound local alias is accepted");
    let cur = store
        .room_state_get(&b("!r:home.example"), &b("m.room.canonical_alias"), &b(""))
        .expect("the alias event stands in the state index");
    assert_eq!(cur.event_id, id);
}

#[test]
fn foreign_alias_is_forbidden() {
    let (mut store, mut disp) = new_store();
    create_room(&mut store, &mut disp, "!r:home.example", "@alice:home.example");
    join(&mut store, &mut disp, "!r:home.example", "@alice:home.example", 1_001);
    let builder = PduBuilder {
        event_type: b("m.room.canonical_alias"),
        content: Json::Obj(vec![(b("alias"), Json::Str(b("#nice:far.example")))]),
        unsigned: vec![],
        state_key: Some(b("")),
        redacts: None,
    };
    let r = conduit::client::send_state_event_for_key_helper(
        &mut store,
        &mut disp,
        &builder,
        &b("@alice:home.example"),
        &b("!r:home.example"),
        1_002,
    );
    assert!(r.is_err());
}

#[test]
fn null_kind_deletes_the_pusher() {
    let mut data = conduit::push::PushData::new();
    let mk = |pushkey: &str, kind: Option<&str>| conduit::push::Pusher {
        pushkey: b(pushkey),
        app_id: b("app.example"),
        kind: kind.map(b),
        url: b("https://push.example/_matrix/push/v1/notify"),
        event_id_only: false,
    };
    data.set_pusher(&b("@alice:home.example"), mk("phone", Some("http")));
    data.set_pusher(&b("@alice:home.example"), mk("laptop", Some("http")));
    data.set_pusher(&b("@bob:home.example"), mk("phone", Some("http")));
    assert_eq!(data.get_pusher(&b("@alice:home.example")).len(), 2);
    // the client API's null kind deletes the pusher
    data.set_pusher(&b("@alice:home.example"), mk("phone", None));
    let left = data.get_pusher(&b("@alice:home.example"));
    assert_eq!(left.len(), 1);
    assert_eq!(left[0].pushkey, b("laptop"));
    // replacing under the same pushkey keeps one entry
    data.set_pusher(&b("@alice:home.example"), mk("laptop", Some("email")));
    let left = data.get_pusher(&b("@alice:home.example"));
    assert_eq!(left.len(), 1);
    assert_eq!(left[0].kind, Some(b("email")));
    assert_eq!(data.get_pusher(&b("@bob:home.example")).len(), 1);
}
