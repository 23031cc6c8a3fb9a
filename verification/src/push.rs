//! The push-rule evaluator and the notification shape.
//!
//! For a PDU and a recipient, the evaluator walks the recipient's rules in
//! tier order. The first enabled rule whose condition matches decides: a
//! rule carrying a suppression action silences the event, any other match
//! collects the rule's tweaks. The notification payload derives its
//! priority from the event type and the tweaks, and carries no body when
//! the pusher asks for event ids only.

use crate::bytes::{bytes_eq, contains_sub, find_sub, has_prefix, starts_with};
use crate::json::{
    ascii_bytes, ascii_seq, bytes_clone, entries_view, json_clone, json_view, obj_get, obj_get_v,
    Json, JsonV,
};
use crate::pdu::{Pdu, PduV};
use vstd::prelude::*;

verus! {

broadcast use vstd::std_specs::vec::group_vec_axioms;

pub open spec fn k_join() -> Seq<u8> {
    ascii_seq("join"@)
}

pub fn key_join() -> (r: Vec<u8>)
    ensures
        r@ == k_join(),
{
    proof {
        reveal_strlit("join");
    }
    ascii_bytes("join")
}

pub open spec fn k_invite() -> Seq<u8> {
    ascii_seq("invite"@)
}

pub fn key_invite() -> (r: Vec<u8>)
    ensures
        r@ == k_invite(),
{
    proof {
        reveal_strlit("invite");
    }
    ascii_bytes("invite")
}

pub open spec fn k_leave() -> Seq<u8> {
    ascii_seq("leave"@)
}

pub fn key_leave() -> (r: Vec<u8>)
    ensures
        r@ == k_leave(),
{
    proof {
        reveal_strlit("leave");
    }
    ascii_bytes("leave")
}

pub open spec fn k_ban() -> Seq<u8> {
    ascii_seq("ban"@)
}

pub fn key_ban() -> (r: Vec<u8>)
    ensures
        r@ == k_ban(),
{
    proof {
        reveal_strlit("ban");
    }
    ascii_bytes("ban")
}

pub open spec fn k_membership() -> Seq<u8> {
    ascii_seq("membership"@)
}

pub fn key_membership() -> (r: Vec<u8>)
    ensures
        r@ == k_membership(),
{
    proof {
        reveal_strlit("membership");
    }
    ascii_bytes("membership")
}

/// A tweak a matching rule attaches to the notification.
pub enum Tweak {
    Sound(Vec<u8>),
    Highlight(bool),
}

#[verifier::ext_equal]
pub enum TweakV {
    Sound(Seq<u8>),
    Highlight(bool),
}

impl View for Tweak {
    type V = TweakV;

    open spec fn view(&self) -> TweakV {
        match self {
            Tweak::Sound(s) => TweakV::Sound(s@),
            Tweak::Highlight(b) => TweakV::Highlight(*b),
        }
    }
}

/// What a rule does when it matches.
pub enum Action {
    Notify,
    DontNotify,
    Coalesce,
    SetTweak(Tweak),
}

#[verifier::ext_equal]
pub enum ActionV {
    Notify,
    DontNotify,
    Coalesce,
    SetTweak(TweakV),
}

impl View for Action {
    type V = ActionV;

    open spec fn view(&self) -> ActionV {
        match self {
            Action::Notify => ActionV::Notify,
            Action::DontNotify => ActionV::DontNotify,
            Action::Coalesce => ActionV::Coalesce,
            Action::SetTweak(t) => ActionV::SetTweak(t@),
        }
    }
}

pub open spec fn actions_view(s: Seq<Action>) -> Seq<ActionV> {
    Seq::new(
        s.len(),
        |i: int|
            if 0 <= i < s.len() {
                s[i]@
            } else {
                ActionV::Notify
            },
    )
}

/// One push rule: its id, whether it is enabled, its actions, and its
/// `event_match` conditions (a dotted key and a pattern each).
pub struct PushRule {
    pub rule_id: Vec<u8>,
    pub enabled: bool,
    pub actions: Vec<Action>,
    pub conditions: Vec<(Vec<u8>, Vec<u8>)>,
}

#[verifier::ext_equal]
pub struct PushRuleV {
    pub rule_id: Seq<u8>,
    pub enabled: bool,
    pub actions: Seq<ActionV>,
    pub conditions: Seq<(Seq<u8>, Seq<u8>)>,
}

impl View for PushRule {
    type V = PushRuleV;

    open spec fn view(&self) -> PushRuleV {
        PushRuleV {
            rule_id: self.rule_id@,
            enabled: self.enabled,
            actions: actions_view(self.actions@),
            conditions: crate::pdu::pairs_view(self.conditions@),
        }
    }
}

/// A recipient's rules, flattened in tier order: override, content, room,
/// sender, underride.
pub struct Ruleset {
    pub rules: Vec<PushRule>,
}

pub open spec fn rules_view(s: Seq<PushRule>) -> Seq<PushRuleV> {
    Seq::new(
        s.len(),
        |i: int|
            if 0 <= i < s.len() {
                s[i]@
            } else {
                s[0]@
            },
    )
}

/// What the evaluator knows of the recipient and the room: the recipient's
/// ids and display name, how many members the room has, and whether the
/// sender's power level reaches the room-notification threshold.
pub struct PushCtx {
    pub user_id: Vec<u8>,
    pub user_localpart: Vec<u8>,
    pub displayname: Vec<u8>,
    pub room_member_count: u64,
    pub sender_can_room_notify: bool,
}

#[verifier::ext_equal]
pub struct PushCtxV {
    pub user_id: Seq<u8>,
    pub user_localpart: Seq<u8>,
    pub displayname: Seq<u8>,
    pub room_member_count: u64,
    pub sender_can_room_notify: bool,
}

impl View for PushCtx {
    type V = PushCtxV;

    open spec fn view(&self) -> PushCtxV {
        PushCtxV {
            user_id: self.user_id@,
            user_localpart: self.user_localpart@,
            displayname: self.displayname@,
            room_member_count: self.room_member_count,
            sender_can_room_notify: self.sender_can_room_notify,
        }
    }
}

/// Whether the rule suppresses instead of notifying.
pub open spec fn has_dont_notify(actions: Seq<ActionV>) -> bool {
    exists|i: int| 0 <= i < actions.len() && (#[trigger] actions[i]) is DontNotify
}

/// The tweaks among the rule's actions, in order.
pub open spec fn tweaks_of(actions: Seq<ActionV>) -> Seq<TweakV>
    decreases actions.len(),
{
    if actions.len() == 0 {
        Seq::empty()
    } else {
        tweaks_of(actions.drop_last()) + (match actions.last() {
            ActionV::SetTweak(t) => seq![t],
            _ => Seq::<TweakV>::empty(),
        })
    }
}

/// The string a condition key denotes on this event: a top-level field by
/// name, or a key of `content`.
pub open spec fn cond_value(pdu: PduV, key: Seq<u8>) -> Option<Seq<u8>> {
    if key == ascii_seq("type"@) {
        Some(pdu.kind)
    } else if key == ascii_seq("sender"@) {
        Some(pdu.sender)
    } else if key == ascii_seq("room_id"@) {
        Some(pdu.room_id)
    } else if key == ascii_seq("state_key"@) {
        pdu.state_key
    } else if has_prefix(key, ascii_seq("content."@)) {
        match pdu.content {
            JsonV::Obj(o) => match obj_get_v(o, key.skip(8)) {
                Some(v) => if v is Str {
                    Some(v->Str_0)
                } else {
                    None
                },
                None => None,
            },
            _ => None,
        }
    } else {
        None
    }
}

/// Whether one `event_match` condition holds: the named string holds the
/// pattern.
pub open spec fn cond_matches(pdu: PduV, key: Seq<u8>, pattern: Seq<u8>) -> bool {
    match cond_value(pdu, key) {
        Some(v) => contains_sub(v, pattern),
        None => false,
    }
}

pub open spec fn any_cond_matches(pdu: PduV, conds: Seq<(Seq<u8>, Seq<u8>)>) -> bool {
    exists|i: int| 0 <= i < conds.len() && cond_matches(pdu, (#[trigger] conds[i]).0, conds[i].1)
}

/// The string under `key` in the event's content, if any.
pub open spec fn content_str(pdu: PduV, key: Seq<u8>) -> Option<Seq<u8>> {
    match pdu.content {
        JsonV::Obj(o) => match obj_get_v(o, key) {
            Some(v) => if v is Str {
                Some(v->Str_0)
            } else {
                None
            },
            None => None,
        },
        _ => None,
    }
}

/// Whether the event's body holds `needle`.
pub open spec fn body_contains(pdu: PduV, needle: Seq<u8>) -> bool {
    match content_str(pdu, ascii_seq("body"@)) {
        Some(b) => contains_sub(b, needle),
        None => false,
    }
}

/// Whether a rule's condition matches this event for this recipient, by
/// rule id, per the server's default rule table.
pub open spec fn rule_matches(rule: PushRuleV, pdu: PduV, ctx: PushCtxV) -> bool {
    if rule.rule_id == ascii_seq(".m.rule.master"@) {
        true
    } else if rule.rule_id == ascii_seq(".m.rule.suppress_notices"@) {
        pdu.kind == crate::pdu::k_m_room_message() && content_str(pdu, ascii_seq("msgtype"@))
            == Some(ascii_seq("m.notice"@))
    } else if rule.rule_id == ascii_seq(".m.rule.invite_for_me"@) {
        pdu.kind == crate::pdu::k_m_room_member() && pdu.state_key == Some(ctx.user_id)
            && content_str(pdu, k_membership()) == Some(k_invite())
    } else if rule.rule_id == ascii_seq(".m.rule.member_event"@) {
        pdu.kind == crate::pdu::k_m_room_member() && any_cond_matches(pdu, rule.conditions)
    } else if rule.rule_id == ascii_seq(".m.rule.contains_display_name"@) {
        pdu.kind == crate::pdu::k_m_room_message() && ctx.displayname.len() > 0 && body_contains(
            pdu,
            ctx.displayname,
        )
    } else if rule.rule_id == ascii_seq(".m.rule.contains_user_name"@) {
        pdu.kind == crate::pdu::k_m_room_message() && ctx.user_localpart.len() > 0
            && body_contains(pdu, ctx.user_localpart)
    } else if rule.rule_id == ascii_seq(".m.rule.roomnotif"@) {
        pdu.kind == crate::pdu::k_m_room_message() && body_contains(pdu, ascii_seq("@room"@))
            && ctx.sender_can_room_notify
    } else if rule.rule_id == ascii_seq(".m.rule.tombstone"@) {
        pdu.kind == ascii_seq("m.room.tombstone"@) && pdu.state_key == Some(Seq::<u8>::empty())
    } else if rule.rule_id == ascii_seq(".m.rule.call"@) {
        pdu.kind == ascii_seq("m.call.invite"@)
    } else if rule.rule_id == ascii_seq(".m.rule.encrypted_room_one_to_one"@) {
        ctx.room_member_count == 2 && pdu.kind == ascii_seq("m.room.encrypted"@)
    } else if rule.rule_id == ascii_seq(".m.rule.room_one_to_one"@) {
        ctx.room_member_count == 2 && pdu.kind == crate::pdu::k_m_room_message()
    } else if rule.rule_id == ascii_seq(".m.rule.message"@) {
        pdu.kind == crate::pdu::k_m_room_message()
    } else if rule.rule_id == ascii_seq(".m.rule.encrypted"@) {
        pdu.kind == ascii_seq("m.room.encrypted"@)
    } else {
        false
    }
}

/// What the ruleset decides for this event: `None` when no enabled rule
/// matches or the first match suppresses; otherwise the tweaks of the
/// first enabled rule that matches.
pub open spec fn eval_rules(rules: Seq<PushRuleV>, pdu: PduV, ctx: PushCtxV) -> Option<Seq<TweakV>>
    decreases rules.len(),
{
    if rules.len() == 0 {
        None
    } else if rules[0].enabled && rule_matches(rules[0], pdu, ctx) {
        if has_dont_notify(rules[0].actions) {
            None
        } else {
            Some(tweaks_of(rules[0].actions))
        }
    } else {
        eval_rules(rules.skip(1), pdu, ctx)
    }
}

/// The string under `key` in the event's content, executable.
fn content_str_get(pdu: &Pdu, key: &Vec<u8>) -> (r: Option<Vec<u8>>)
    ensures
        match r {
            Some(v) => content_str(pdu@, key@) == Some(v@),
            None => content_str(pdu@, key@) is None,
        },
{
    match &pdu.content {
        Json::Obj(entries) => {
            proof {
                crate::json::lemma_view_obj(*entries);
            }
            match obj_get(entries, key) {
                Some(v) => match crate::json::as_str(v) {
                    Some(s) => Some(bytes_clone(s)),
                    None => None,
                },
                None => None,
            }
        },
        _ => None,
    }
}

/// The string a condition key denotes, executable.
fn cond_value_get(pdu: &Pdu, key: &Vec<u8>) -> (r: Option<Vec<u8>>)
    ensures
        match r {
            Some(v) => cond_value(pdu@, key@) == Some(v@),
            None => cond_value(pdu@, key@) is None,
        },
{
    proof {
        reveal_strlit("type");
        reveal_strlit("sender");
        reveal_strlit("room_id");
        reveal_strlit("state_key");
        reveal_strlit("content.");
    }
    if bytes_eq(key, &ascii_bytes("type")) {
        return Some(bytes_clone(&pdu.kind));
    }
    if bytes_eq(key, &ascii_bytes("sender")) {
        return Some(bytes_clone(&pdu.sender));
    }
    if bytes_eq(key, &ascii_bytes("room_id")) {
        return Some(bytes_clone(&pdu.room_id));
    }
    if bytes_eq(key, &ascii_bytes("state_key")) {
        return match &pdu.state_key {
            Some(sk) => Some(bytes_clone(sk)),
            None => None,
        };
    }
    let prefix = ascii_bytes("content.");
    if starts_with(key, &prefix) {
        let mut inner: Vec<u8> = Vec::new();
        let mut i: usize = 8;
        proof {
            assert(ascii_seq("content."@).len() == 8);
            assert(inner@ =~= key@.subrange(8, 8));
        }
        while i < key.len()
            invariant
                8 <= i <= key@.len(),
                inner@ == key@.subrange(8, i as int),
            decreases key@.len() - i,
        {
            inner.push(key[i]);
            proof {
                assert(inner@ =~= key@.subrange(8, i + 1));
            }
            i = i + 1;
        }
        proof {
            assert(inner@ =~= key@.skip(8));
        }
        return match &pdu.content {
            Json::Obj(entries) => {
                proof {
                    crate::json::lemma_view_obj(*entries);
                }
                match obj_get(entries, &inner) {
                    Some(v) => match crate::json::as_str(v) {
                        Some(s) => Some(bytes_clone(s)),
                        None => None,
                    },
                    None => None,
                }
            },
            _ => None,
        };
    }
    None
}

/// Whether any of the rule's conditions matches, executable.
fn any_cond_match(pdu: &Pdu, conds: &Vec<(Vec<u8>, Vec<u8>)>) -> (r: bool)
    ensures
        r == any_cond_matches(pdu@, crate::pdu::pairs_view(conds@)),
{
    let ghost cv = crate::pdu::pairs_view(conds@);
    let mut i: usize = 0;
    while i < conds.len()
        invariant
            0 <= i <= conds@.len(),
            cv == crate::pdu::pairs_view(conds@),
            cv.len() == conds@.len(),
            forall|t: int| 0 <= t < i ==> !cond_matches(pdu@, (#[trigger] cv[t]).0, cv[t].1),
        decreases conds@.len() - i,
    {
        proof {
            assert(cv[i as int] == (conds@[i as int].0@, conds@[i as int].1@));
        }
        let matched = match cond_value_get(pdu, &conds[i].0) {
            Some(v) => find_sub(&v, &conds[i].1),
            None => false,
        };
        if matched {
            return true;
        }
        i = i + 1;
    }
    proof {
        if any_cond_matches(pdu@, cv) {
            let t = choose|t: int|
                0 <= t < cv.len() && cond_matches(pdu@, (#[trigger] cv[t]).0, cv[t].1);
            assert(!cond_matches(pdu@, cv[t].0, cv[t].1));
        }
    }
    false
}

/// Whether the event's body holds `needle`, executable.
fn body_contains_check(pdu: &Pdu, needle: &Vec<u8>) -> (r: bool)
    ensures
        r == body_contains(pdu@, needle@),
{
    proof {
        reveal_strlit("body");
    }
    let kb = ascii_bytes("body");
    match content_str_get(pdu, &kb) {
        Some(b) => find_sub(&b, needle),
        None => false,
    }
}

/// Whether the rule's condition matches, executable.
fn rule_match_check(rule: &PushRule, pdu: &Pdu, ctx: &PushCtx) -> (r: bool)
    ensures
        r == rule_matches(rule@, pdu@, ctx@),
{
    proof {
        reveal_strlit("msgtype");
        reveal_strlit("m.notice");
        reveal_strlit("m.room.tombstone");
        reveal_strlit("m.call.invite");
        reveal_strlit("m.room.encrypted");
        reveal_strlit(".m.rule.master");
        reveal_strlit(".m.rule.suppress_notices");
        reveal_strlit(".m.rule.invite_for_me");
        reveal_strlit(".m.rule.member_event");
        reveal_strlit(".m.rule.contains_display_name");
        reveal_strlit(".m.rule.contains_user_name");
        reveal_strlit(".m.rule.roomnotif");
        reveal_strlit(".m.rule.tombstone");
        reveal_strlit(".m.rule.call");
        reveal_strlit(".m.rule.encrypted_room_one_to_one");
        reveal_strlit(".m.rule.room_one_to_one");
        reveal_strlit(".m.rule.message");
        reveal_strlit(".m.rule.encrypted");
        reveal_strlit("@room");
    }
    if bytes_eq(&rule.rule_id, &ascii_bytes(".m.rule.master")) {
        return true;
    }
    if bytes_eq(&rule.rule_id, &ascii_bytes(".m.rule.suppress_notices")) {
        let is_msg = bytes_eq(&pdu.kind, &crate::pdu::key_m_room_message());
        if !is_msg {
            return false;
        }
        let km = ascii_bytes("msgtype");
        return match content_str_get(pdu, &km) {
            Some(v) => bytes_eq(&v, &ascii_bytes("m.notice")),
            None => false,
        };
    }
    if bytes_eq(&rule.rule_id, &ascii_bytes(".m.rule.invite_for_me")) {
        if !bytes_eq(&pdu.kind, &crate::pdu::key_m_room_member()) {
            return false;
        }
        let sk_matches = match &pdu.state_key {
            Some(sk) => bytes_eq(sk, &ctx.user_id),
            None => false,
        };
        if !sk_matches {
            return false;
        }
        let kmem = key_membership();
        return match content_str_get(pdu, &kmem) {
            Some(v) => bytes_eq(&v, &key_invite()),
            None => false,
        };
    }
    if bytes_eq(&rule.rule_id, &ascii_bytes(".m.rule.member_event")) {
        if !bytes_eq(&pdu.kind, &crate::pdu::key_m_room_member()) {
            return false;
        }
        return any_cond_match(pdu, &rule.conditions);
    }
    if bytes_eq(&rule.rule_id, &ascii_bytes(".m.rule.contains_display_name")) {
        if !bytes_eq(&pdu.kind, &crate::pdu::key_m_room_message()) {
            return false;
        }
        if ctx.displayname.len() == 0 {
            return false;
        }
        return body_contains_check(pdu, &ctx.displayname);
    }
    if bytes_eq(&rule.rule_id, &ascii_bytes(".m.rule.contains_user_name")) {
        if !bytes_eq(&pdu.kind, &crate::pdu::key_m_room_message()) {
            return false;
        }
        if ctx.user_localpart.len() == 0 {
            return false;
        }
        return body_contains_check(pdu, &ctx.user_localpart);
    }
    if bytes_eq(&rule.rule_id, &ascii_bytes(".m.rule.roomnotif")) {
        if !bytes_eq(&pdu.kind, &crate::pdu::key_m_room_message()) {
            return false;
        }
        proof {
            reveal_strlit("@room");
        }
        let at_room = ascii_bytes("@room");
        if !body_contains_check(pdu, &at_room) {
            return false;
        }
        return ctx.sender_can_room_notify;
    }
    if bytes_eq(&rule.rule_id, &ascii_bytes(".m.rule.tombstone")) {
        if !bytes_eq(&pdu.kind, &ascii_bytes("m.room.tombstone")) {
            return false;
        }
        return match &pdu.state_key {
            Some(sk) => {
                let empty = sk.len() == 0;
                proof {
                    if sk@.len() == 0 {
                        assert(sk@ =~= Seq::<u8>::empty());
                    }
                }
                empty
            },
            None => false,
        };
    }
    if bytes_eq(&rule.rule_id, &ascii_bytes(".m.rule.call")) {
        return bytes_eq(&pdu.kind, &ascii_bytes("m.call.invite"));
    }
    if bytes_eq(&rule.rule_id, &ascii_bytes(".m.rule.encrypted_room_one_to_one")) {
        return ctx.room_member_count == 2 && bytes_eq(&pdu.kind, &ascii_bytes("m.room.encrypted"));
    }
    if bytes_eq(&rule.rule_id, &ascii_bytes(".m.rule.room_one_to_one")) {
        return ctx.room_member_count == 2 && bytes_eq(
            &pdu.kind,
            &crate::pdu::key_m_room_message(),
        );
    }
    if bytes_eq(&rule.rule_id, &ascii_bytes(".m.rule.message")) {
        return bytes_eq(&pdu.kind, &crate::pdu::key_m_room_message());
    }
    if bytes_eq(&rule.rule_id, &ascii_bytes(".m.rule.encrypted")) {
        return bytes_eq(&pdu.kind, &ascii_bytes("m.room.encrypted"));
    }
    false
}

/// Walks the rules in order and decides: `None` silences the event, the
/// tweaks of the first enabled matching rule notify.
pub fn evaluate(ruleset: &Ruleset, pdu: &Pdu, ctx: &PushCtx) -> (r: Option<Vec<Tweak>>)
    ensures
        match r {
            Some(tw) => eval_rules(rules_view(ruleset.rules@), pdu@, ctx@) == Some(
                crate::push::tweaks_seq_view(tw@),
            ),
            None => eval_rules(rules_view(ruleset.rules@), pdu@, ctx@) is None,
        },
{
    let ghost rv = rules_view(ruleset.rules@);
    let mut i: usize = 0;
    proof {
        assert(rv.skip(0) =~= rv);
    }
    while i < ruleset.rules.len()
        invariant
            0 <= i <= ruleset.rules@.len(),
            rv == rules_view(ruleset.rules@),
            rv.len() == ruleset.rules@.len(),
            eval_rules(rv, pdu@, ctx@) == eval_rules(rv.skip(i as int), pdu@, ctx@),
        decreases ruleset.rules@.len() - i,
    {
        let rule = &ruleset.rules[i];
        proof {
            assert(rv[i as int] == ruleset.rules@[i as int]@);
            assert(rv.skip(i as int)[0] == rv[i as int]);
            assert(rv.skip(i as int).skip(1) =~= rv.skip(i + 1));
        }
        if rule.enabled && rule_match_check(rule, pdu, ctx) {
            // the first enabled match decides
            let mut suppress = false;
            let mut tweaks: Vec<Tweak> = Vec::new();
            let mut a: usize = 0;
            proof {
                assert(actions_view(rule.actions@).subrange(0, 0) =~= Seq::<ActionV>::empty());
                assert(tweaks_seq_view(tweaks@) =~= tweaks_of(
                    actions_view(rule.actions@).subrange(0, 0),
                ));
            }
            while a < rule.actions.len()
                invariant
                    0 <= a <= rule.actions@.len(),
                    actions_view(rule.actions@).len() == rule.actions@.len(),
                    suppress == (exists|t: int|
                        0 <= t < a && (#[trigger] actions_view(rule.actions@)[t]) is DontNotify),
                    tweaks_seq_view(tweaks@) == tweaks_of(
                        actions_view(rule.actions@).subrange(0, a as int),
                    ),
                decreases rule.actions@.len() - a,
            {
                proof {
                    assert(actions_view(rule.actions@)[a as int] == rule.actions@[a as int]@);
                    let pre = actions_view(rule.actions@).subrange(0, a as int);
                    let now = actions_view(rule.actions@).subrange(0, a + 1);
                    assert(now.drop_last() =~= pre);
                    assert(now.last() == actions_view(rule.actions@)[a as int]);
                }
                let ghost tw_old = tweaks@;
                match &rule.actions[a] {
                    Action::DontNotify => {
                        suppress = true;
                        proof {
                            assert(actions_view(rule.actions@)[a as int] is DontNotify);
                            assert(tweaks_seq_view(tweaks@) =~= tweaks_of(
                                actions_view(rule.actions@).subrange(0, a + 1),
                            ));
                        }
                    },
                    Action::SetTweak(t) => {
                        tweaks.push(clone_tweak(t));
                        proof {
                            assert(tweaks_seq_view(tweaks@) =~= tweaks_seq_view(tw_old).push(
                                rule.actions@[a as int]@->SetTweak_0,
                            ));
                            assert(tweaks_seq_view(tweaks@) =~= tweaks_of(
                                actions_view(rule.actions@).subrange(0, a + 1),
                            ));
                        }
                    },
                    _ => {
                        proof {
                            assert(tweaks_seq_view(tweaks@) =~= tweaks_of(
                                actions_view(rule.actions@).subrange(0, a + 1),
                            ));
                        }
                    },
                }
                a = a + 1;
            }
            proof {
                assert(actions_view(rule.actions@).subrange(
                    0,
                    actions_view(rule.actions@).len() as int,
                ) =~= actions_view(rule.actions@));
                if suppress {
                    assert(has_dont_notify(rv[i as int].actions));
                } else {
                    if has_dont_notify(rv[i as int].actions) {
                        let t = choose|t: int|
                            0 <= t < rv[i as int].actions.len() && (
                            #[trigger] rv[i as int].actions[t]) is DontNotify;
                        assert(exists|t2: int|
                            0 <= t2 < rule.actions@.len() && (#[trigger] actions_view(
                                rule.actions@,
                            )[t2]) is DontNotify);
                    }
                }
            }
            if suppress {
                return None;
            }
            return Some(tweaks);
        }
        i = i + 1;
    }
    proof {
        assert(rv.skip(i as int).len() == 0);
    }
    None
}

pub open spec fn tweaks_seq_view(s: Seq<Tweak>) -> Seq<TweakV> {
    Seq::new(
        s.len(),
        |i: int|
            if 0 <= i < s.len() {
                s[i]@
            } else {
                TweakV::Highlight(false)
            },
    )
}

/// A copy of a tweak.
pub fn clone_tweak(t: &Tweak) -> (r: Tweak)
    ensures
        r@ == t@,
{
    match t {
        Tweak::Sound(s) => Tweak::Sound(bytes_clone(s)),
        Tweak::Highlight(b) => Tweak::Highlight(*b),
    }
}

/// The server's default rules, in tier order, as the rule table defines
/// them: the disabled master switch, the notice suppression, then the
/// member, name, room-notification, tombstone, call, one-to-one, message
/// and encrypted rules.
pub fn default_pushrules() -> (r: Ruleset)
    ensures
        rules_view(r.rules@).len() == 13,
        rules_view(r.rules@)[0].rule_id == ascii_seq(".m.rule.master"@),
        !rules_view(r.rules@)[0].enabled,
        rules_view(r.rules@)[1].rule_id == ascii_seq(".m.rule.suppress_notices"@),
        rules_view(r.rules@)[1].enabled,
        has_dont_notify(rules_view(r.rules@)[0].actions),
        has_dont_notify(rules_view(r.rules@)[1].actions),
        forall|i: int| 2 <= i < 13 ==> (#[trigger] rules_view(r.rules@)[i]).enabled,
        forall|i: int| 2 <= i < 13 ==> !has_dont_notify(#[trigger] rules_view(r.rules@)[i].actions),
        rules_view(r.rules@)[2].rule_id == ascii_seq(".m.rule.invite_for_me"@),
        rules_view(r.rules@)[3].rule_id == ascii_seq(".m.rule.member_event"@),
        rules_view(r.rules@)[4].rule_id == ascii_seq(".m.rule.contains_display_name"@),
        rules_view(r.rules@)[5].rule_id == ascii_seq(".m.rule.contains_user_name"@),
        rules_view(r.rules@)[6].rule_id == ascii_seq(".m.rule.roomnotif"@),
        rules_view(r.rules@)[7].rule_id == ascii_seq(".m.rule.tombstone"@),
        rules_view(r.rules@)[8].rule_id == ascii_seq(".m.rule.call"@),
        rules_view(r.rules@)[9].rule_id == ascii_seq(".m.rule.encrypted_room_one_to_one"@),
        rules_view(r.rules@)[10].rule_id == ascii_seq(".m.rule.room_one_to_one"@),
        rules_view(r.rules@)[11].rule_id == ascii_seq(".m.rule.message"@),
        rules_view(r.rules@)[12].rule_id == ascii_seq(".m.rule.encrypted"@),
{
    proof {
        reveal_strlit(".m.rule.master");
        reveal_strlit(".m.rule.suppress_notices");
        reveal_strlit(".m.rule.invite_for_me");
        reveal_strlit(".m.rule.member_event");
        reveal_strlit(".m.rule.contains_display_name");
        reveal_strlit(".m.rule.contains_user_name");
        reveal_strlit(".m.rule.roomnotif");
        reveal_strlit(".m.rule.tombstone");
        reveal_strlit(".m.rule.call");
        reveal_strlit(".m.rule.encrypted_room_one_to_one");
        reveal_strlit(".m.rule.room_one_to_one");
        reveal_strlit(".m.rule.message");
        reveal_strlit(".m.rule.encrypted");
        reveal_strlit("default");
        reveal_strlit("ring");
        reveal_strlit("type");
        reveal_strlit("m.room.member");
    }
    let mut rules: Vec<PushRule> = Vec::new();
    let mut master_actions: Vec<Action> = Vec::new();
    master_actions.push(Action::DontNotify);
    rules.push(
        PushRule {
            rule_id: ascii_bytes(".m.rule.master"),
            enabled: false,
            actions: master_actions,
            conditions: Vec::new(),
        },
    );
    let mut suppress_actions: Vec<Action> = Vec::new();
    suppress_actions.push(Action::DontNotify);
    rules.push(
        PushRule {
            rule_id: ascii_bytes(".m.rule.suppress_notices"),
            enabled: true,
            actions: suppress_actions,
            conditions: Vec::new(),
        },
    );
    let mut invite_actions: Vec<Action> = Vec::new();
    invite_actions.push(Action::Notify);
    invite_actions.push(Action::SetTweak(Tweak::Sound(ascii_bytes("default"))));
    invite_actions.push(Action::SetTweak(Tweak::Highlight(false)));
    rules.push(
        PushRule {
            rule_id: ascii_bytes(".m.rule.invite_for_me"),
            enabled: true,
            actions: invite_actions,
            conditions: Vec::new(),
        },
    );
    let mut member_actions: Vec<Action> = Vec::new();
    member_actions.push(Action::Notify);
    let mut member_conds: Vec<(Vec<u8>, Vec<u8>)> = Vec::new();
    member_conds.push((ascii_bytes("type"), ascii_bytes("m.room.member")));
    rules.push(
        PushRule {
            rule_id: ascii_bytes(".m.rule.member_event"),
            enabled: true,
            actions: member_actions,
            conditions: member_conds,
        },
    );
    let mut dn_actions: Vec<Action> = Vec::new();
    dn_actions.push(Action::Notify);
    dn_actions.push(Action::SetTweak(Tweak::Sound(ascii_bytes("default"))));
    dn_actions.push(Action::SetTweak(Tweak::Highlight(true)));
    rules.push(
        PushRule {
            rule_id: ascii_bytes(".m.rule.contains_display_name"),
            enabled: true,
            actions: dn_actions,
            conditions: Vec::new(),
        },
    );
    let mut un_actions: Vec<Action> = Vec::new();
    un_actions.push(Action::Notify);
    un_actions.push(Action::SetTweak(Tweak::Sound(ascii_bytes("default"))));
    un_actions.push(Action::SetTweak(Tweak::Highlight(true)));
    rules.push(
        PushRule {
            rule_id: ascii_bytes(".m.rule.contains_user_name"),
            enabled: true,
            actions: un_actions,
            conditions: Vec::new(),
        },
    );
    let mut rn_actions: Vec<Action> = Vec::new();
    rn_actions.push(Action::Notify);
    rn_actions.push(Action::SetTweak(Tweak::Highlight(true)));
    rules.push(
        PushRule {
            rule_id: ascii_bytes(".m.rule.roomnotif"),
            enabled: true,
            actions: rn_actions,
            conditions: Vec::new(),
        },
    );
    let mut tomb_actions: Vec<Action> = Vec::new();
    tomb_actions.push(Action::Notify);
    tomb_actions.push(Action::SetTweak(Tweak::Highlight(true)));
    rules.push(
        PushRule {
            rule_id: ascii_bytes(".m.rule.tombstone"),
            enabled: true,
            actions: tomb_actions,
            conditions: Vec::new(),
        },
    );
    let mut call_actions: Vec<Action> = Vec::new();
    call_actions.push(Action::Notify);
    call_actions.push(Action::SetTweak(Tweak::Sound(ascii_bytes("ring"))));
    call_actions.push(Action::SetTweak(Tweak::Highlight(false)));
    rules.push(
        PushRule {
            rule_id: ascii_bytes(".m.rule.call"),
            enabled: true,
            actions: call_actions,
            conditions: Vec::new(),
        },
    );
    let mut e121_actions: Vec<Action> = Vec::new();
    e121_actions.push(Action::Notify);
    e121_actions.push(Action::SetTweak(Tweak::Sound(ascii_bytes("default"))));
    e121_actions.push(Action::SetTweak(Tweak::Highlight(false)));
    rules.push(
        PushRule {
            rule_id: ascii_bytes(".m.rule.encrypted_room_one_to_one"),
            enabled: true,
            actions: e121_actions,
            conditions: Vec::new(),
        },
    );
    let mut r121_actions: Vec<Action> = Vec::new();
    r121_actions.push(Action::Notify);
    r121_actions.push(Action::SetTweak(Tweak::Highlight(false)));
    rules.push(
        PushRule {
            rule_id: ascii_bytes(".m.rule.room_one_to_one"),
            enabled: true,
            actions: r121_actions,
            conditions: Vec::new(),
        },
    );
    let mut msg_actions: Vec<Action> = Vec::new();
    msg_actions.push(Action::Notify);
    msg_actions.push(Action::SetTweak(Tweak::Highlight(false)));
    rules.push(
        PushRule {
            rule_id: ascii_bytes(".m.rule.message"),
            enabled: true,
            actions: msg_actions,
            conditions: Vec::new(),
        },
    );
    let mut enc_actions: Vec<Action> = Vec::new();
    enc_actions.push(Action::Notify);
    enc_actions.push(Action::SetTweak(Tweak::Highlight(false)));
    rules.push(
        PushRule {
            rule_id: ascii_bytes(".m.rule.encrypted"),
            enabled: true,
            actions: enc_actions,
            conditions: Vec::new(),
        },
    );
    proof {
        assert(rules_view(rules@).len() == 13);
        assert forall|i: int| 0 <= i < 13 implies #[trigger] rules_view(rules@)[i]
            == rules@[i]@ by {}
        assert(actions_view(rules@[0].actions@)[0] is DontNotify);
        assert(actions_view(rules@[1].actions@)[0] is DontNotify);
        assert forall|i: int| 2 <= i < 13 implies !has_dont_notify(
            #[trigger] rules_view(rules@)[i].actions,
        ) by {
            if has_dont_notify(rules_view(rules@)[i].actions) {
                let t = choose|t: int|
                    0 <= t < rules_view(rules@)[i].actions.len() && (
                    #[trigger] rules_view(rules@)[i].actions[t]) is DontNotify;
                assert(actions_view(rules@[i].actions@)[t] == rules@[i].actions@[t]@);
            }
        }
    }
    Ruleset { rules }
}

/// The notification the push gateway receives for one event. With the
/// event-id-only format the event's sender, type and content stay out.
pub struct Notification {
    pub event_id: Vec<u8>,
    pub room_id: Vec<u8>,
    pub prio_high: bool,
    pub unread: u64,
    pub event_id_only: bool,
    pub sender: Option<Vec<u8>>,
    pub event_type: Option<Vec<u8>>,
    pub content: Option<Json>,
    pub user_is_target: bool,
    pub tweaks: Vec<Tweak>,
}

/// Whether the tweaks raise the priority: a highlight or a sound.
pub open spec fn tweaks_raise_priority(tw: Seq<TweakV>) -> bool {
    exists|i: int|
        0 <= i < tw.len() && ((#[trigger] tw[i]) == TweakV::Highlight(true) || tw[i] is Sound)
}

/// Builds the notification for one event: priority is high exactly for
/// encrypted events and for tweaks that highlight or ring; with the
/// event-id-only format nothing but the ids and counts is carried.
pub fn build_notification(pdu: &Pdu, unread: u64, tweaks: Vec<Tweak>, event_id_only: bool) -> (r:
    Notification)
    ensures
        r.event_id@ == pdu@.event_id,
        r.room_id@ == pdu@.room_id,
        r.unread == unread,
        r.event_id_only == event_id_only,
        r.prio_high == (pdu@.kind == ascii_seq("m.room.encrypted"@) || tweaks_raise_priority(
            tweaks_seq_view(tweaks@),
        )),
        event_id_only ==> r.sender is None && r.event_type is None && r.content is None
            && r.tweaks@.len() == 0,
        !event_id_only ==> (match r.sender {
            Some(sv) => sv@ == pdu@.sender,
            None => false,
        }) && (match r.event_type {
            Some(tv) => tv@ == pdu@.kind,
            None => false,
        }) && (match r.content {
            Some(c) => c@ == pdu@.content,
            None => false,
        }) && tweaks_seq_view(r.tweaks@) == tweaks_seq_view(tweaks@),
        r.user_is_target == (pdu@.kind == crate::pdu::k_m_room_member() && pdu@.state_key == Some(
            pdu@.sender,
        )),
{
    proof {
        reveal_strlit("m.room.encrypted");
    }
    let mut prio_high = bytes_eq(&pdu.kind, &ascii_bytes("m.room.encrypted"));
    let mut t: usize = 0;
    while t < tweaks.len()
        invariant
            0 <= t <= tweaks@.len(),
            tweaks_seq_view(tweaks@).len() == tweaks@.len(),
            prio_high == (pdu@.kind == ascii_seq("m.room.encrypted"@) || exists|i: int|
                0 <= i < t && ((#[trigger] tweaks_seq_view(tweaks@)[i]) == TweakV::Highlight(true)
                    || tweaks_seq_view(tweaks@)[i] is Sound)),
        decreases tweaks@.len() - t,
    {
        proof {
            assert(tweaks_seq_view(tweaks@)[t as int] == tweaks@[t as int]@);
        }
        match &tweaks[t] {
            Tweak::Highlight(b) => {
                if *b {
                    prio_high = true;
                }
            },
            Tweak::Sound(_) => {
                prio_high = true;
            },
        }
        t = t + 1;
    }
    proof {
        if tweaks_raise_priority(tweaks_seq_view(tweaks@)) {
            let i = choose|i: int|
                0 <= i < tweaks_seq_view(tweaks@).len() && ((#[trigger] tweaks_seq_view(
                    tweaks@,
                )[i]) == TweakV::Highlight(true) || tweaks_seq_view(tweaks@)[i] is Sound);
        }
    }
    let user_is_target = bytes_eq(&pdu.kind, &crate::pdu::key_m_room_member()) && (
    match &pdu.state_key {
        Some(sk) => bytes_eq(sk, &pdu.sender),
        None => false,
    });
    if event_id_only {
        Notification {
            event_id: bytes_clone(&pdu.event_id),
            room_id: bytes_clone(&pdu.room_id),
            prio_high,
            unread,
            event_id_only,
            sender: None,
            event_type: None,
            content: None,
            user_is_target,
            tweaks: Vec::new(),
        }
    } else {
        let r = Notification {
            event_id: bytes_clone(&pdu.event_id),
            room_id: bytes_clone(&pdu.room_id),
            prio_high,
            unread,
            event_id_only,
            sender: Some(bytes_clone(&pdu.sender)),
            event_type: Some(bytes_clone(&pdu.kind)),
            content: Some(json_clone(&pdu.content)),
            user_is_target,
            tweaks,
        };
        r
    }
}


/// A per-user push delivery target, keyed by (user, pushkey). A kind of
/// `None` stands for the client API's null, which deletes the pusher.
pub struct Pusher {
    pub pushkey: Vec<u8>,
    pub app_id: Vec<u8>,
    pub kind: Option<Vec<u8>>,
    pub url: Vec<u8>,
    pub event_id_only: bool,
}

#[verifier::ext_equal]
pub struct PusherV {
    pub pushkey: Seq<u8>,
    pub app_id: Seq<u8>,
    pub kind: Option<Seq<u8>>,
    pub url: Seq<u8>,
    pub event_id_only: bool,
}

impl View for Pusher {
    type V = PusherV;

    open spec fn view(&self) -> PusherV {
        PusherV {
            pushkey: self.pushkey@,
            app_id: self.app_id@,
            kind: crate::pdu::opt_view(self.kind),
            url: self.url@,
            event_id_only: self.event_id_only,
        }
    }
}

pub open spec fn pushers_view(s: Seq<(Vec<u8>, Pusher)>) -> Seq<(Seq<u8>, PusherV)> {
    Seq::new(
        s.len(),
        |i: int|
            if 0 <= i < s.len() {
                (s[i].0@, s[i].1@)
            } else {
                (Seq::empty(), s[0].1@)
            },
    )
}

/// The pusher registry: one entry per (user, pushkey).
pub struct PushData {
    pub senderkey_pusher: Vec<(Vec<u8>, Pusher)>,
}

impl PushData {
    /// Entries are keyed once per (user, pushkey).
    pub open spec fn wf(&self) -> bool {
        forall|a: int, b: int|
            0 <= a < b < pushers_view(self.senderkey_pusher@).len() ==> !((#[trigger] pushers_view(
                self.senderkey_pusher@,
            )[a]).0 == (#[trigger] pushers_view(self.senderkey_pusher@)[b]).0 && pushers_view(
                self.senderkey_pusher@,
            )[a].1.pushkey == pushers_view(self.senderkey_pusher@)[b].1.pushkey)
    }

    pub fn new() -> (r: PushData)
        ensures
            r.wf(),
            pushers_view(r.senderkey_pusher@) == Seq::<(Seq<u8>, PusherV)>::empty(),
    {
        let r = PushData { senderkey_pusher: Vec::new() };
        proof {
            assert(pushers_view(r.senderkey_pusher@) =~= Seq::<(Seq<u8>, PusherV)>::empty());
        }
        r
    }

    /// Sets or deletes the sender's pusher under its pushkey: any prior
    /// entry of that pair goes; a pusher whose kind is null is only
    /// deleted, as the client API says.
    pub fn set_pusher(&mut self, sender: &Vec<u8>, pusher: Pusher)
        requires
            old(self).wf(),
        ensures
            final(self).wf(),
            ({
                let filtered = pushers_view(old(self).senderkey_pusher@).filter(
                    |e: (Seq<u8>, PusherV)| !(e.0 == sender@ && e.1.pushkey == pusher@.pushkey),
                );
                pushers_view(final(self).senderkey_pusher@) == if pusher@.kind is None {
                    filtered
                } else {
                    filtered.push((sender@, pusher@))
                }
            }),
    {
        let ghost pre = pushers_view(self.senderkey_pusher@);
        let ghost pred = |e: (Seq<u8>, PusherV)| !(e.0 == sender@ && e.1.pushkey
            == pusher@.pushkey);
        let mut out: Vec<(Vec<u8>, Pusher)> = Vec::new();
        let mut i: usize = 0;
        proof {
            reveal(Seq::filter);
            assert(pre.subrange(0, 0) =~= Seq::<(Seq<u8>, PusherV)>::empty());
            assert(pushers_view(out@) =~= pre.subrange(0, 0).filter(pred));
        }
        while i < self.senderkey_pusher.len()
            invariant
                0 <= i <= self.senderkey_pusher@.len(),
                pre == pushers_view(self.senderkey_pusher@),
                pre.len() == self.senderkey_pusher@.len(),
                pred == (|e: (Seq<u8>, PusherV)| !(e.0 == sender@ && e.1.pushkey
                    == pusher@.pushkey)),
                pushers_view(out@) == pre.subrange(0, i as int).filter(pred),
            decreases self.senderkey_pusher@.len() - i,
        {
            proof {
                reveal(Seq::filter);
                let now = pre.subrange(0, i + 1);
                assert(now.drop_last() =~= pre.subrange(0, i as int));
                assert(now.last() == pre[i as int]);
                assert(pre[i as int] == (
                    self.senderkey_pusher@[i as int].0@,
                    self.senderkey_pusher@[i as int].1@,
                ));
            }
            let ghost out_old = pushers_view(out@);
            let same = bytes_eq(&self.senderkey_pusher[i].0, sender) && bytes_eq(
                &self.senderkey_pusher[i].1.pushkey,
                &pusher.pushkey,
            );
            if !same {
                let entry = clone_pusher(&self.senderkey_pusher[i].1);
                out.push((bytes_clone(&self.senderkey_pusher[i].0), entry));
                proof {
                    assert(pushers_view(out@) =~= out_old.push(pre[i as int]));
                }
            }
            proof {
                assert(pushers_view(out@) =~= pre.subrange(0, i + 1).filter(pred));
            }
            i = i + 1;
        }
        proof {
            assert(pre.subrange(0, pre.len() as int) =~= pre);
        }
        let is_delete = match &pusher.kind {
            Some(_) => false,
            None => true,
        };
        let ghost filtered = pushers_view(out@);
        if !is_delete {
            out.push((bytes_clone(sender), pusher));
            proof {
                assert(pushers_view(out@) =~= filtered.push(
                    (pushers_view(out@).last().0, pushers_view(out@).last().1),
                ));
            }
        }
        self.senderkey_pusher = out;
        proof {
            crate::json::lemma_filter_membership(pre, pred, filtered);
            crate::json::lemma_filter_elements(pre, pred);
            crate::json::lemma_filter_distinct_values(pre, pred);
            let fin = pushers_view(self.senderkey_pusher@);
            assert(forall|a: int, b: int| 0 <= a < b < pre.len() ==> pre[a] != pre[b]) by {
                assert forall|a: int, b: int| 0 <= a < b < pre.len() implies pre[a] != pre[b] by {
                    assert(!((pre[a]).0 == (pre[b]).0 && pre[a].1.pushkey == pre[b].1.pushkey));
                }
            }
            assert forall|a: int, b: int| 0 <= a < b < fin.len() implies !((#[trigger] fin[a]).0
                == (#[trigger] fin[b]).0 && fin[a].1.pushkey == fin[b].1.pushkey) by {
                if b < filtered.len() {
                    assert(fin[a] == filtered[a] && fin[b] == filtered[b]);
                    assert(pre.contains(filtered[a]) && pre.contains(filtered[b]));
                    let wa = choose|w: int| 0 <= w < pre.len() && pre[w] == filtered[a];
                    let wb = choose|w: int| 0 <= w < pre.len() && pre[w] == filtered[b];
                    if fin[a].0 == fin[b].0 && fin[a].1.pushkey == fin[b].1.pushkey {
                        assert(filtered[a] != filtered[b]);
                        if wa < wb {
                            assert(!((pre[wa]).0 == (pre[wb]).0 && pre[wa].1.pushkey
                                == pre[wb].1.pushkey));
                        } else if wb < wa {
                            assert(!((pre[wb]).0 == (pre[wa]).0 && pre[wb].1.pushkey
                                == pre[wa].1.pushkey));
                        }
                    }
                } else {
                    assert(fin[a] == filtered[a]);
                    pre.lemma_filter_pred(pred, a);
                }
            }
        }
    }

    /// Every pusher the sender configured, in order.
    pub fn get_pusher(&self, sender: &Vec<u8>) -> (r: Vec<Pusher>)
        ensures
            ({
                let mine = pushers_view(self.senderkey_pusher@).filter(
                    |e: (Seq<u8>, PusherV)| e.0 == sender@,
                );
                r@.len() == mine.len() && forall|i: int|
                    0 <= i < r@.len() ==> (#[trigger] r@[i])@ == mine[i].1
            }),
    {
        let ghost pre = pushers_view(self.senderkey_pusher@);
        let ghost pred = |e: (Seq<u8>, PusherV)| e.0 == sender@;
        let mut out: Vec<Pusher> = Vec::new();
        let mut i: usize = 0;
        proof {
            reveal(Seq::filter);
            assert(pre.subrange(0, 0) =~= Seq::<(Seq<u8>, PusherV)>::empty());
        }
        while i < self.senderkey_pusher.len()
            invariant
                0 <= i <= self.senderkey_pusher@.len(),
                pre == pushers_view(self.senderkey_pusher@),
                pre.len() == self.senderkey_pusher@.len(),
                pred == (|e: (Seq<u8>, PusherV)| e.0 == sender@),
                out@.len() == pre.subrange(0, i as int).filter(pred).len(),
                forall|t: int|
                    0 <= t < out@.len() ==> (#[trigger] out@[t])@ == pre.subrange(
                        0,
                        i as int,
                    ).filter(pred)[t].1,
            decreases self.senderkey_pusher@.len() - i,
        {
            proof {
                reveal(Seq::filter);
                let now = pre.subrange(0, i + 1);
                assert(now.drop_last() =~= pre.subrange(0, i as int));
                assert(now.last() == pre[i as int]);
                assert(pre[i as int] == (
                    self.senderkey_pusher@[i as int].0@,
                    self.senderkey_pusher@[i as int].1@,
                ));
            }
            if bytes_eq(&self.senderkey_pusher[i].0, sender) {
                out.push(clone_pusher(&self.senderkey_pusher[i].1));
            }
            proof {
                assert forall|t: int| 0 <= t < out@.len() implies (#[trigger] out@[t])@
                    == pre.subrange(0, i + 1).filter(pred)[t].1 by {
                    let f1 = pre.subrange(0, i as int).filter(pred);
                    let f2 = pre.subrange(0, i + 1).filter(pred);
                    if t < f1.len() {
                        assert(f2[t] == f1[t]);
                    }
                }
            }
            i = i + 1;
        }
        proof {
            assert(pre.subrange(0, pre.len() as int) =~= pre);
        }
        out
    }
}

/// A copy of a pusher.
pub fn clone_pusher(p: &Pusher) -> (r: Pusher)
    ensures
        r@ == p@,
{
    Pusher {
        pushkey: bytes_clone(&p.pushkey),
        app_id: bytes_clone(&p.app_id),
        kind: match &p.kind {
            Some(k) => Some(bytes_clone(k)),
            None => None,
        },
        url: bytes_clone(&p.url),
        event_id_only: p.event_id_only,
    }
}

} // verus!
