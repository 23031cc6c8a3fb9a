//! Canonical JSON values.
//!
//! Event content is schemaless JSON. A value is modelled by [`Json`]; its
//! mathematical counterpart is [`JsonV`]. Strings are UTF-8 byte strings and
//! objects are lists of key/value pairs whose keys are strictly ascending in
//! byte order, so every well-formed value has exactly one canonical encoding.

use crate::bytes::{bytes_eq, hex_digit, lex_lt};
use vstd::prelude::*;

verus! {

broadcast use vstd::std_specs::vec::group_vec_axioms;

/// The byte string of an ASCII text.
pub open spec fn ascii_seq(cs: Seq<char>) -> Seq<u8> {
    Seq::new(cs.len(), |i: int| cs[i] as u8)
}

/// Turns an ASCII literal into its byte string.
pub fn ascii_bytes(s: &str) -> (r: Vec<u8>)
    requires
        s.is_ascii(),
    ensures
        r@ == ascii_seq(s@),
{
    broadcast use vstd::string::is_ascii_spec_bytes;

    let r = s.as_bytes_vec();
    assert(r@ =~= ascii_seq(s@));
    r
}

/// Mathematical model of a JSON value.
#[verifier::ext_equal]
pub enum JsonV {
    Null,
    Bool(bool),
    Int(int),
    Str(Seq<u8>),
    Arr(Seq<JsonV>),
    Obj(Seq<(Seq<u8>, JsonV)>),
}

/// A JSON value as stored and transmitted. Strings are UTF-8 byte strings;
/// objects are ordered lists of key/value pairs.
pub enum Json {
    Null,
    Bool(bool),
    Int(i64),
    Str(Vec<u8>),
    Arr(Vec<Json>),
    Obj(Vec<(Vec<u8>, Json)>),
}

/// The model of a list of object entries.
pub open spec fn entries_view(s: Seq<(Vec<u8>, Json)>) -> Seq<(Seq<u8>, JsonV)> {
    Seq::new(
        s.len(),
        |i: int|
            if 0 <= i < s.len() {
                (s[i].0@, json_view(s[i].1))
            } else {
                (Seq::empty(), JsonV::Null)
            },
    )
}

/// The model of a list of array elements.
pub open spec fn elems_view(s: Seq<Json>) -> Seq<JsonV> {
    Seq::new(
        s.len(),
        |i: int|
            if 0 <= i < s.len() {
                json_view(s[i])
            } else {
                JsonV::Null
            },
    )
}

pub open spec fn json_view(j: Json) -> JsonV
    decreases j,
{
    match j {
        Json::Null => JsonV::Null,
        Json::Bool(b) => JsonV::Bool(b),
        Json::Int(i) => JsonV::Int(i as int),
        Json::Str(s) => JsonV::Str(s@),
        Json::Arr(v) => JsonV::Arr(
            Seq::new(
                v@.len(),
                |i: int|
                    if 0 <= i < v@.len() {
                        json_view(v@[i])
                    } else {
                        JsonV::Null
                    },
            ),
        ),
        Json::Obj(v) => JsonV::Obj(
            Seq::new(
                v@.len(),
                |i: int|
                    if 0 <= i < v@.len() {
                        (v@[i].0@, json_view(v@[i].1))
                    } else {
                        (Seq::empty(), JsonV::Null)
                    },
            ),
        ),
    }
}

impl View for Json {
    type V = JsonV;

    open spec fn view(&self) -> JsonV {
        json_view(*self)
    }
}

pub broadcast proof fn lemma_view_arr(v: Vec<Json>)
    ensures
        (#[trigger] json_view(Json::Arr(v))) == JsonV::Arr(elems_view(v@)),
{
    let a = json_view(Json::Arr(v));
    assert(a is Arr);
    let s1 = a->Arr_0;
    let s2 = elems_view(v@);
    assert(s1.len() == v@.len());
    assert(s2.len() == v@.len());
    assert forall|i: int| 0 <= i < v@.len() implies s1[i] == s2[i] by {
        assert(s1[i] == json_view(v@[i]));
        assert(s2[i] == json_view(v@[i]));
    }
    assert(s1 =~= s2);
}

pub broadcast proof fn lemma_view_obj(v: Vec<(Vec<u8>, Json)>)
    ensures
        (#[trigger] json_view(Json::Obj(v))) == JsonV::Obj(entries_view(v@)),
{
    let a = json_view(Json::Obj(v));
    assert(a is Obj);
    let s1 = a->Obj_0;
    let s2 = entries_view(v@);
    assert forall|i: int| 0 <= i < v@.len() implies s1[i] == s2[i] by {
        assert(s1[i] == (v@[i].0@, json_view(v@[i].1)));
        assert(s2[i] == (v@[i].0@, json_view(v@[i].1)));
    }
    assert(s1 =~= s2);
}

/// Object keys are strictly ascending, hence unique.
pub open spec fn obj_keys_sorted(o: Seq<(Seq<u8>, JsonV)>) -> bool {
    forall|i: int, j: int| 0 <= i < j < o.len() ==> lex_lt(o[i].0, o[j].0)
}

/// Largest integer magnitude canonical JSON admits: 2^53.
pub open spec fn json_int_max() -> int {
    9007199254740992
}

/// A well-formed value: integers stay in the canonical range and object
/// keys are strictly ascending at every level.
pub open spec fn wf_json(v: JsonV) -> bool
    decreases v,
{
    match v {
        JsonV::Null => true,
        JsonV::Bool(_) => true,
        JsonV::Int(i) => -json_int_max() < i < json_int_max(),
        JsonV::Str(_) => true,
        JsonV::Arr(a) => wf_list(a),
        JsonV::Obj(o) => obj_keys_sorted(o) && wf_entries(o),
    }
}

pub open spec fn wf_list(a: Seq<JsonV>) -> bool
    decreases a,
{
    a.len() == 0 || (wf_json(a[0]) && wf_list(a.subrange(1, a.len() as int)))
}

pub open spec fn wf_entries(o: Seq<(Seq<u8>, JsonV)>) -> bool
    decreases o,
{
    o.len() == 0 || (wf_json(o[0].1) && wf_entries(o.subrange(1, o.len() as int)))
}

pub proof fn lemma_wf_list_iff(a: Seq<JsonV>)
    ensures
        wf_list(a) == (forall|t: int| 0 <= t < a.len() ==> wf_json(#[trigger] a[t])),
    decreases a.len(),
{
    if a.len() > 0 {
        let tail = a.subrange(1, a.len() as int);
        lemma_wf_list_iff(tail);
        if wf_list(a) {
            assert forall|t: int| 0 <= t < a.len() implies wf_json(#[trigger] a[t]) by {
                if t > 0 {
                    assert(tail[t - 1] == a[t]);
                    assert(wf_json(tail[t - 1]));
                }
            }
        } else {
            if wf_json(a[0]) {
                let t = choose|t: int| 0 <= t < tail.len() && !wf_json(#[trigger] tail[t]);
                assert(a[t + 1] == tail[t]);
                assert(!wf_json(a[t + 1]));
            }
        }
    }
}

pub proof fn lemma_wf_entries_iff(o: Seq<(Seq<u8>, JsonV)>)
    ensures
        wf_entries(o) == (forall|t: int| 0 <= t < o.len() ==> wf_json(#[trigger] o[t].1)),
    decreases o.len(),
{
    if o.len() > 0 {
        let tail = o.subrange(1, o.len() as int);
        lemma_wf_entries_iff(tail);
        if wf_entries(o) {
            assert forall|t: int| 0 <= t < o.len() implies wf_json(#[trigger] o[t].1) by {
                if t > 0 {
                    assert(tail[t - 1] == o[t]);
                    assert(wf_json(tail[t - 1].1));
                }
            }
        } else {
            if wf_json(o[0].1) {
                let t = choose|t: int| 0 <= t < tail.len() && !wf_json(#[trigger] tail[t].1);
                assert(o[t + 1] == tail[t]);
                assert(!wf_json(o[t + 1].1));
            }
        }
    }
}

/// The value under `k`, first match.
pub open spec fn obj_get_v(o: Seq<(Seq<u8>, JsonV)>, k: Seq<u8>) -> Option<JsonV>
    decreases o.len(),
{
    if o.len() == 0 {
        None
    } else if o[0].0 == k {
        Some(o[0].1)
    } else {
        obj_get_v(o.skip(1), k)
    }
}

/// Looks `key` up in an entry list, first match.
pub fn obj_get<'a>(entries: &'a Vec<(Vec<u8>, Json)>, key: &Vec<u8>) -> (r: Option<&'a Json>)
    ensures
        match r {
            Some(j) => obj_get_v(entries_view(entries@), key@) == Some(json_view(*j)),
            None => obj_get_v(entries_view(entries@), key@) is None,
        },
{
    let o = Ghost(entries_view(entries@));
    let mut i: usize = 0;
    proof {
        assert(o@.skip(0) =~= o@);
    }
    while i < entries.len()
        invariant
            0 <= i <= entries@.len(),
            o@ == entries_view(entries@),
            o@.len() == entries@.len(),
            obj_get_v(o@, key@) == obj_get_v(o@.skip(i as int), key@),
        decreases entries@.len() - i,
    {
        if bytes_eq(&entries[i].0, key) {
            assert(o@.skip(i as int)[0] == o@[i as int]);
            assert(o@[i as int].0 == key@);
            return Some(&entries[i].1);
        }
        proof {
            assert(o@.skip(i as int)[0] == o@[i as int]);
            assert(o@[i as int].0 != key@);
            assert(o@.skip(i as int).skip(1) =~= o@.skip(i + 1));
        }
        i = i + 1;
    }
    proof {
        assert(o@.skip(i as int).len() == 0);
    }
    None
}

/// Copies a byte string.
pub fn bytes_clone(v: &Vec<u8>) -> (r: Vec<u8>)
    ensures
        r@ == v@,
{
    let mut r: Vec<u8> = Vec::new();
    let mut i: usize = 0;
    while i < v.len()
        invariant
            0 <= i <= v@.len(),
            r@ == v@.subrange(0, i as int),
        decreases v@.len() - i,
    {
        r.push(v[i]);
        proof {
            assert(r@ =~= v@.subrange(0, i + 1));
        }
        i = i + 1;
    }
    proof {
        assert(v@.subrange(0, v@.len() as int) =~= v@);
    }
    r
}

/// Deep copy with the same model.
pub fn json_clone(j: &Json) -> (r: Json)
    ensures
        r@ == j@,
    decreases j,
{
    match j {
        Json::Null => Json::Null,
        Json::Bool(b) => Json::Bool(*b),
        Json::Int(i) => Json::Int(*i),
        Json::Str(s) => Json::Str(bytes_clone(s)),
        Json::Arr(v) => {
            let mut out: Vec<Json> = Vec::new();
            let mut i: usize = 0;
            while i < v.len()
                invariant
                    *j == Json::Arr(*v),
                    0 <= i <= v@.len(),
                    out@.len() == i,
                    forall|k: int| 0 <= k < i ==> json_view(#[trigger] out@[k]) == json_view(v@[k]),
                decreases v@.len() - i,
            {
                proof {
                    assert(decreases_to!(*j => j->Arr_0));
                    assert(j->Arr_0 == *v);
                    assert(decreases_to!(*v => v@[i as int]));
                    assert(decreases_to!(*j => v@[i as int]));
                }
                let c = json_clone(&v[i]);
                out.push(c);
                i = i + 1;
            }
            proof {
                lemma_view_arr(out);
                lemma_view_arr(*v);
                assert(elems_view(out@) =~= elems_view(v@));
            }
            Json::Arr(out)
        },
        Json::Obj(v) => {
            let mut out: Vec<(Vec<u8>, Json)> = Vec::new();
            let mut i: usize = 0;
            while i < v.len()
                invariant
                    *j == Json::Obj(*v),
                    0 <= i <= v@.len(),
                    out@.len() == i,
                    forall|k: int|
                        0 <= k < i ==> (#[trigger] out@[k]).0@ == v@[k].0@ && json_view(out@[k].1)
                            == json_view(v@[k].1),
                decreases v@.len() - i,
            {
                proof {
                    assert(decreases_to!(*j => j->Obj_0));
                    assert(j->Obj_0 == *v);
                    assert(decreases_to!(*v => v@[i as int]));
                    assert(decreases_to!(v@[i as int] => v@[i as int].1));
                    assert(decreases_to!(*j => v@[i as int].1));
                }
                let key = bytes_clone(&v[i].0);
                let val = json_clone(&v[i].1);
                out.push((key, val));
                i = i + 1;
            }
            proof {
                lemma_view_obj(out);
                lemma_view_obj(*v);
                assert(entries_view(out@) =~= entries_view(v@));
            }
            Json::Obj(out)
        },
    }
}

/// Whether `ks` lists the byte string `k`.
pub open spec fn keys_view(ks: Seq<Vec<u8>>) -> Seq<Seq<u8>> {
    Seq::new(
        ks.len(),
        |i: int|
            if 0 <= i < ks.len() {
                ks[i]@
            } else {
                Seq::empty()
            },
    )
}

pub fn keys_contain(ks: &Vec<Vec<u8>>, k: &Vec<u8>) -> (r: bool)
    ensures
        r == keys_view(ks@).contains(k@),
{
    let mut i: usize = 0;
    while i < ks.len()
        invariant
            0 <= i <= ks@.len(),
            forall|t: int| 0 <= t < i ==> keys_view(ks@)[t] != k@,
        decreases ks@.len() - i,
    {
        if &ks[i] == k {
            assert(keys_view(ks@)[i as int] == k@);
            return true;
        }
        i = i + 1;
    }
    proof {
        if keys_view(ks@).contains(k@) {
            let t = choose|t: int| 0 <= t < keys_view(ks@).len() && keys_view(ks@)[t] == k@;
            assert(keys_view(ks@)[t] != k@);
        }
    }
    false
}

/// Keeps the entries whose key is listed in `allowed`, in order.
pub open spec fn retain_keys_v(o: Seq<(Seq<u8>, JsonV)>, allowed: Seq<Seq<u8>>) -> Seq<
    (Seq<u8>, JsonV),
> {
    o.filter(|e: (Seq<u8>, JsonV)| allowed.contains(e.0))
}

/// The projection that redaction applies to `content`: only the keys on
/// the allow list survive, in their original order.
pub fn obj_retain_keys(entries: &Vec<(Vec<u8>, Json)>, allowed: &Vec<Vec<u8>>) -> (r: Vec<
    (Vec<u8>, Json),
>)
    ensures
        entries_view(r@) == retain_keys_v(entries_view(entries@), keys_view(allowed@)),
{
    let pred = Ghost(
        |e: (Seq<u8>, JsonV)| keys_view(allowed@).contains(e.0),
    );
    let o = Ghost(entries_view(entries@));
    let mut out: Vec<(Vec<u8>, Json)> = Vec::new();
    let mut i: usize = 0;
    proof {
        reveal(Seq::filter);
        assert(o@.subrange(0, 0) =~= Seq::<(Seq<u8>, JsonV)>::empty());
        assert(entries_view(out@) =~= o@.subrange(0, 0).filter(pred@));
    }
    while i < entries.len()
        invariant
            0 <= i <= entries@.len(),
            o@ == entries_view(entries@),
            o@.len() == entries@.len(),
            pred@ == (|e: (Seq<u8>, JsonV)| keys_view(allowed@).contains(e.0)),
            entries_view(out@) == o@.subrange(0, i as int).filter(pred@),
        decreases entries@.len() - i,
    {
        let keep = keys_contain(allowed, &entries[i].0);
        proof {
            reveal(Seq::filter);
            let pre = o@.subrange(0, i as int);
            let now = o@.subrange(0, i + 1);
            assert(now.drop_last() =~= pre);
            assert(now.last() == o@[i as int]);
            assert(o@[i as int].0 == entries@[i as int].0@);
        }
        if keep {
            let key = bytes_clone(&entries[i].0);
            let val = json_clone(&entries[i].1);
            out.push((key, val));
            proof {
                assert(entries_view(out@) =~= o@.subrange(0, i + 1).filter(pred@));
            }
        } else {
            proof {
                assert(entries_view(out@) =~= o@.subrange(0, i + 1).filter(pred@));
            }
        }
        i = i + 1;
    }
    proof {
        assert(o@.subrange(0, o@.len() as int) =~= o@);
    }
    out
}

/// Drops the entry under `k`, if any; the rest keeps its order.
pub open spec fn remove_key_v(o: Seq<(Seq<u8>, JsonV)>, k: Seq<u8>) -> Seq<(Seq<u8>, JsonV)> {
    o.filter(|e: (Seq<u8>, JsonV)| e.0 != k)
}

pub fn obj_remove_key(entries: &Vec<(Vec<u8>, Json)>, key: &Vec<u8>) -> (r: Vec<(Vec<u8>, Json)>)
    ensures
        entries_view(r@) == remove_key_v(entries_view(entries@), key@),
{
    let pred = Ghost(|e: (Seq<u8>, JsonV)| e.0 != key@);
    let o = Ghost(entries_view(entries@));
    let mut out: Vec<(Vec<u8>, Json)> = Vec::new();
    let mut i: usize = 0;
    proof {
        reveal(Seq::filter);
        assert(o@.subrange(0, 0) =~= Seq::<(Seq<u8>, JsonV)>::empty());
        assert(entries_view(out@) =~= o@.subrange(0, 0).filter(pred@));
    }
    while i < entries.len()
        invariant
            0 <= i <= entries@.len(),
            o@ == entries_view(entries@),
            o@.len() == entries@.len(),
            pred@ == (|e: (Seq<u8>, JsonV)| e.0 != key@),
            entries_view(out@) == o@.subrange(0, i as int).filter(pred@),
        decreases entries@.len() - i,
    {
        let keep = !bytes_eq(&entries[i].0, key);
        proof {
            reveal(Seq::filter);
            let pre = o@.subrange(0, i as int);
            let now = o@.subrange(0, i + 1);
            assert(now.drop_last() =~= pre);
            assert(now.last() == o@[i as int]);
            assert(o@[i as int].0 == entries@[i as int].0@);
        }
        if keep {
            let k2 = bytes_clone(&entries[i].0);
            let v2 = json_clone(&entries[i].1);
            out.push((k2, v2));
            proof {
                assert(entries_view(out@) =~= o@.subrange(0, i + 1).filter(pred@));
            }
        } else {
            proof {
                assert(entries_view(out@) =~= o@.subrange(0, i + 1).filter(pred@));
            }
        }
        i = i + 1;
    }
    proof {
        assert(o@.subrange(0, o@.len() as int) =~= o@);
    }
    out
}

/// Every element a filter keeps comes from the underlying list.
pub proof fn lemma_filter_elements<A>(s: Seq<A>, pred: spec_fn(A) -> bool)
    ensures
        forall|i: int|
            0 <= i < s.filter(pred).len() ==> s.contains(#[trigger] s.filter(pred)[i]),
    decreases s.len(),
{
    reveal(Seq::filter);
    if s.len() > 0 {
        lemma_filter_elements(s.drop_last(), pred);
        assert forall|i: int| 0 <= i < s.filter(pred).len() implies s.contains(
            #[trigger] s.filter(pred)[i],
        ) by {
            let f = s.filter(pred);
            let fd = s.drop_last().filter(pred);
            if pred(s.last()) && i == f.len() - 1 {
                assert(s[s.len() - 1] == f[i]);
            } else {
                assert(f[i] == fd[i]);
                assert(s.drop_last().contains(fd[i]));
                let t = choose|t: int| 0 <= t < s.drop_last().len() && s.drop_last()[t] == fd[i];
                assert(s[t] == fd[i]);
            }
        }
    }
}

/// Filtering keeps strictly ascending keys strictly ascending.
pub proof fn lemma_filter_sorted(o: Seq<(Seq<u8>, JsonV)>, pred: spec_fn((Seq<u8>, JsonV)) -> bool)
    requires
        obj_keys_sorted(o),
    ensures
        obj_keys_sorted(o.filter(pred)),
    decreases o.len(),
{
    reveal(Seq::filter);
    if o.len() > 0 {
        assert(obj_keys_sorted(o.drop_last())) by {
            assert(forall|i: int, j: int|
                0 <= i < j < o.drop_last().len() ==> o.drop_last()[i] == o[i] && o.drop_last()[j]
                    == o[j]);
        }
        lemma_filter_sorted(o.drop_last(), pred);
        let f = o.filter(pred);
        let fd = o.drop_last().filter(pred);
        if pred(o.last()) {
            lemma_filter_elements(o.drop_last(), pred);
            assert forall|i: int, j: int| 0 <= i < j < f.len() implies lex_lt(f[i].0, f[j].0) by {
                if j < f.len() - 1 {
                    assert(f[i] == fd[i] && f[j] == fd[j]);
                } else {
                    assert(f[j] == o.last());
                    assert(f[i] == fd[i]);
                    assert(o.drop_last().contains(fd[i]));
                    let t = choose|t: int|
                        0 <= t < o.drop_last().len() && o.drop_last()[t] == fd[i];
                    assert(o[t] == fd[i]);
                    assert(lex_lt(o[t].0, o[o.len() - 1].0));
                }
            }
        }
    }
}

/// Whether the value is a string, and which.
pub fn as_str<'a>(j: &'a Json) -> (r: Option<&'a Vec<u8>>)
    ensures
        match r {
            Some(s) => j@ == JsonV::Str(s@),
            None => !(j@ is Str),
        },
{
    match j {
        Json::Str(s) => Some(s),
        _ => None,
    }
}

/// Whether the value is an object, and its entries.
pub fn as_obj<'a>(j: &'a Json) -> (r: Option<&'a Vec<(Vec<u8>, Json)>>)
    ensures
        match r {
            Some(o) => j@ == JsonV::Obj(entries_view(o@)),
            None => !(j@ is Obj),
        },
{
    match j {
        Json::Obj(o) => {
            proof {
                lemma_view_obj(*o);
            }
            Some(o)
        },
        _ => None,
    }
}

/// Whether the value is an array, and its elements.
pub fn as_arr<'a>(j: &'a Json) -> (r: Option<&'a Vec<Json>>)
    ensures
        match r {
            Some(a) => j@ == JsonV::Arr(elems_view(a@)),
            None => !(j@ is Arr),
        },
{
    match j {
        Json::Arr(a) => {
            proof {
                lemma_view_arr(*a);
            }
            Some(a)
        },
        _ => None,
    }
}

/// Whether the value is an integer, and which.
pub fn as_int(j: &Json) -> (r: Option<i64>)
    ensures
        match r {
            Some(i) => j@ == JsonV::Int(i as int),
            None => !(j@ is Int),
        },
{
    match j {
        Json::Int(i) => Some(*i),
        _ => None,
    }
}

/// Decimal digits of a non-negative integer.
pub open spec fn dec_nat(n: nat) -> Seq<u8>
    decreases n,
{
    if n < 10 {
        seq![(48 + n) as u8]
    } else {
        dec_nat(n / 10).push((48 + n % 10) as u8)
    }
}

/// Decimal form of an integer, with a leading minus sign if negative.
pub open spec fn dec_int(i: int) -> Seq<u8> {
    if i < 0 {
        seq![45u8] + dec_nat((-i) as nat)
    } else {
        dec_nat(i as nat)
    }
}

/// How a byte of a string is written inside quotes: the two-character
/// escapes of JSON, `\u00XX` for the remaining control bytes, and every
/// other byte as itself.
pub open spec fn escape_byte(b: u8) -> Seq<u8> {
    if b == 34 {
        seq![92u8, 34u8]
    } else if b == 92 {
        seq![92u8, 92u8]
    } else if b == 8 {
        seq![92u8, 98u8]
    } else if b == 12 {
        seq![92u8, 102u8]
    } else if b == 10 {
        seq![92u8, 110u8]
    } else if b == 13 {
        seq![92u8, 114u8]
    } else if b == 9 {
        seq![92u8, 116u8]
    } else if b < 32 {
        seq![92u8, 117u8, 48u8, 48u8, hex_digit(b / 16), hex_digit(b % 16)]
    } else {
        seq![b]
    }
}

pub open spec fn escape(s: Seq<u8>) -> Seq<u8>
    decreases s.len(),
{
    if s.len() == 0 {
        Seq::empty()
    } else {
        escape_byte(s[0]) + escape(s.subrange(1, s.len() as int))
    }
}

pub proof fn lemma_escape_push(s: Seq<u8>, b: u8)
    ensures
        escape(s.push(b)) == escape(s) + escape_byte(b),
    decreases s.len(),
{
    if s.len() == 0 {
        assert(s.push(b).subrange(1, s.push(b).len() as int) =~= Seq::<u8>::empty());
        assert(escape(Seq::<u8>::empty()) =~= Seq::<u8>::empty());
        assert(escape(s) =~= Seq::<u8>::empty());
        assert(escape(s.push(b)) =~= escape(s) + escape_byte(b));
    } else {
        assert(s.push(b).subrange(1, s.push(b).len() as int) =~= s.subrange(
            1,
            s.len() as int,
        ).push(b));
        lemma_escape_push(s.subrange(1, s.len() as int), b);
        assert(escape(s.push(b)) =~= escape(s) + escape_byte(b));
    }
}

/// The quoted, escaped form of a string.
pub open spec fn encode_str(s: Seq<u8>) -> Seq<u8> {
    seq![34u8] + escape(s) + seq![34u8]
}

/// The canonical encoding of a value: no whitespace, and objects emitted
/// in their (ascending) key order.
pub open spec fn encode_json(v: JsonV) -> Seq<u8>
    decreases v,
{
    match v {
        JsonV::Null => seq![110u8, 117u8, 108u8, 108u8],
        JsonV::Bool(b) => if b {
            seq![116u8, 114u8, 117u8, 101u8]
        } else {
            seq![102u8, 97u8, 108u8, 115u8, 101u8]
        },
        JsonV::Int(i) => dec_int(i),
        JsonV::Str(s) => encode_str(s),
        JsonV::Arr(a) => seq![91u8] + encode_elems(a) + seq![93u8],
        JsonV::Obj(o) => seq![123u8] + encode_entries(o) + seq![125u8],
    }
}

pub open spec fn encode_elems(a: Seq<JsonV>) -> Seq<u8>
    decreases a,
{
    if a.len() == 0 {
        Seq::empty()
    } else if a.len() == 1 {
        encode_json(a[0])
    } else {
        encode_json(a[0]) + seq![44u8] + encode_elems(a.subrange(1, a.len() as int))
    }
}

pub open spec fn encode_entry(e: (Seq<u8>, JsonV)) -> Seq<u8>
    decreases e,
{
    encode_str(e.0) + seq![58u8] + encode_json(e.1)
}

pub open spec fn encode_entries(o: Seq<(Seq<u8>, JsonV)>) -> Seq<u8>
    decreases o,
{
    if o.len() == 0 {
        Seq::empty()
    } else if o.len() == 1 {
        encode_entry(o[0])
    } else {
        encode_entry(o[0]) + seq![44u8] + encode_entries(o.subrange(1, o.len() as int))
    }
}

pub proof fn lemma_encode_elems_push(a: Seq<JsonV>, x: JsonV)
    ensures
        encode_elems(a.push(x)) == if a.len() == 0 {
            encode_json(x)
        } else {
            encode_elems(a) + seq![44u8] + encode_json(x)
        },
    decreases a.len(),
{
    let ap = a.push(x);
    if a.len() == 0 {
        assert(ap.len() == 1 && ap[0] == x);
    } else {
        assert(ap.subrange(1, ap.len() as int) =~= a.subrange(1, a.len() as int).push(x));
        lemma_encode_elems_push(a.subrange(1, a.len() as int), x);
        if a.len() == 1 {
            assert(encode_elems(ap) =~= encode_elems(a) + seq![44u8] + encode_json(x));
        } else {
            assert(encode_elems(ap) =~= encode_elems(a) + seq![44u8] + encode_json(x));
        }
    }
}

pub proof fn lemma_encode_entries_push(o: Seq<(Seq<u8>, JsonV)>, e: (Seq<u8>, JsonV))
    ensures
        encode_entries(o.push(e)) == if o.len() == 0 {
            encode_entry(e)
        } else {
            encode_entries(o) + seq![44u8] + encode_entry(e)
        },
    decreases o.len(),
{
    let op = o.push(e);
    if o.len() == 0 {
        assert(op.len() == 1 && op[0] == e);
    } else {
        assert(op.subrange(1, op.len() as int) =~= o.subrange(1, o.len() as int).push(e));
        lemma_encode_entries_push(o.subrange(1, o.len() as int), e);
        if o.len() == 1 {
            assert(encode_entries(op) =~= encode_entries(o) + seq![44u8] + encode_entry(e));
        } else {
            assert(encode_entries(op) =~= encode_entries(o) + seq![44u8] + encode_entry(e));
        }
    }
}

/// Appends the decimal digits of `n`.
fn push_dec_u64(out: &mut Vec<u8>, n: u64)
    ensures
        final(out)@ == old(out)@ + dec_nat(n as nat),
    decreases n,
{
    if n < 10 {
        out.push(48 + n as u8);
        assert(out@ =~= old(out)@ + dec_nat(n as nat));
    } else {
        push_dec_u64(out, n / 10);
        out.push(48 + (n % 10) as u8);
        assert(out@ =~= old(out)@ + dec_nat(n as nat));
    }
}

/// Appends the escaped form of one string byte.
fn push_escaped_byte(out: &mut Vec<u8>, b: u8)
    ensures
        final(out)@ == old(out)@ + escape_byte(b),
{
    if b == 34 || b == 92 {
        out.push(92);
        out.push(b);
    } else if b == 8 {
        out.push(92);
        out.push(98);
    } else if b == 12 {
        out.push(92);
        out.push(102);
    } else if b == 10 {
        out.push(92);
        out.push(110);
    } else if b == 13 {
        out.push(92);
        out.push(114);
    } else if b == 9 {
        out.push(92);
        out.push(116);
    } else if b < 32 {
        out.push(92);
        out.push(117);
        out.push(48);
        out.push(48);
        let hi = b / 16;
        let lo = b % 16;
        out.push(if hi < 10 { 48 + hi } else { 87 + hi });
        out.push(if lo < 10 { 48 + lo } else { 87 + lo });
    } else {
        out.push(b);
    }
    assert(out@ =~= old(out)@ + escape_byte(b));
}

/// Appends the quoted, escaped form of a string.
fn push_encoded_str(out: &mut Vec<u8>, s: &Vec<u8>)
    ensures
        final(out)@ == old(out)@ + encode_str(s@),
{
    out.push(34);
    let mut i: usize = 0;
    proof {
        assert(s@.subrange(0, 0) =~= Seq::<u8>::empty());
        assert(escape(s@.subrange(0, 0)) =~= Seq::<u8>::empty());
        assert(out@ =~= old(out)@ + seq![34u8] + escape(s@.subrange(0, 0)));
    }
    while i < s.len()
        invariant
            0 <= i <= s@.len(),
            out@ == old(out)@ + seq![34u8] + escape(s@.subrange(0, i as int)),
        decreases s@.len() - i,
    {
        push_escaped_byte(out, s[i]);
        proof {
            assert(s@.subrange(0, i + 1) =~= s@.subrange(0, i as int).push(s@[i as int]));
            lemma_escape_push(s@.subrange(0, i as int), s@[i as int]);
            assert(out@ =~= old(out)@ + seq![34u8] + escape(s@.subrange(0, i + 1)));
        }
        i = i + 1;
    }
    out.push(34);
    proof {
        assert(s@.subrange(0, s@.len() as int) =~= s@);
        assert(out@ =~= old(out)@ + encode_str(s@));
    }
}

/// Appends the canonical encoding of `j`.
pub fn encode_onto(j: &Json, out: &mut Vec<u8>)
    ensures
        final(out)@ == old(out)@ + encode_json(j@),
    decreases j,
{
    match j {
        Json::Null => {
            out.push(110);
            out.push(117);
            out.push(108);
            out.push(108);
            assert(out@ =~= old(out)@ + encode_json(j@));
        },
        Json::Bool(b) => {
            if *b {
                out.push(116);
                out.push(114);
                out.push(117);
                out.push(101);
            } else {
                out.push(102);
                out.push(97);
                out.push(108);
                out.push(115);
                out.push(101);
            }
            assert(out@ =~= old(out)@ + encode_json(j@));
        },
        Json::Int(i) => {
            let iv = *i;
            if iv < 0 {
                out.push(45);
                let wide: i128 = iv as i128;
                let mag: u64 = (-wide) as u64;
                push_dec_u64(out, mag);
                assert(out@ =~= old(out)@ + encode_json(j@));
            } else {
                push_dec_u64(out, iv as u64);
                assert(out@ =~= old(out)@ + encode_json(j@));
            }
        },
        Json::Str(s) => {
            push_encoded_str(out, s);
            assert(out@ =~= old(out)@ + encode_json(j@));
        },
        Json::Arr(v) => {
            proof {
                lemma_view_arr(*v);
            }
            out.push(91);
            let mut i: usize = 0;
            proof {
                assert(elems_view(v@).subrange(0, 0) =~= Seq::<JsonV>::empty());
                assert(out@ =~= old(out)@ + seq![91u8] + encode_elems(
                    elems_view(v@).subrange(0, 0),
                ));
            }
            while i < v.len()
                invariant
                    *j == Json::Arr(*v),
                    0 <= i <= v@.len(),
                    out@ == old(out)@ + seq![91u8] + encode_elems(
                        elems_view(v@).subrange(0, i as int),
                    ),
                decreases v@.len() - i,
            {
                proof {
                    assert(decreases_to!(*j => j->Arr_0));
                    assert(j->Arr_0 == *v);
                    assert(decreases_to!(*v => v@[i as int]));
                    assert(decreases_to!(*j => v@[i as int]));
                }
                if i > 0 {
                    out.push(44);
                }
                encode_onto(&v[i], out);
                proof {
                    let pre = elems_view(v@).subrange(0, i as int);
                    let now = elems_view(v@).subrange(0, i + 1);
                    assert(now =~= pre.push(elems_view(v@)[i as int]));
                    lemma_encode_elems_push(pre, elems_view(v@)[i as int]);
                    assert(elems_view(v@)[i as int] == json_view(v@[i as int]));
                    assert(out@ =~= old(out)@ + seq![91u8] + encode_elems(now));
                }
                i = i + 1;
            }
            out.push(93);
            proof {
                assert(elems_view(v@).subrange(0, elems_view(v@).len() as int) =~= elems_view(v@));
                assert(out@ =~= old(out)@ + encode_json(j@));
            }
        },
        Json::Obj(v) => {
            proof {
                lemma_view_obj(*v);
            }
            out.push(123);
            let mut i: usize = 0;
            proof {
                assert(entries_view(v@).subrange(0, 0) =~= Seq::<(Seq<u8>, JsonV)>::empty());
                assert(out@ =~= old(out)@ + seq![123u8] + encode_entries(
                    entries_view(v@).subrange(0, 0),
                ));
            }
            while i < v.len()
                invariant
                    *j == Json::Obj(*v),
                    0 <= i <= v@.len(),
                    out@ == old(out)@ + seq![123u8] + encode_entries(
                        entries_view(v@).subrange(0, i as int),
                    ),
                decreases v@.len() - i,
            {
                proof {
                    assert(decreases_to!(*j => j->Obj_0));
                    assert(j->Obj_0 == *v);
                    assert(decreases_to!(*v => v@[i as int]));
                    assert(decreases_to!(v@[i as int] => v@[i as int].1));
                    assert(decreases_to!(*j => v@[i as int].1));
                }
                if i > 0 {
                    out.push(44);
                }
                push_encoded_str(out, &v[i].0);
                out.push(58);
                encode_onto(&v[i].1, out);
                proof {
                    let pre = entries_view(v@).subrange(0, i as int);
                    let now = entries_view(v@).subrange(0, i + 1);
                    assert(now =~= pre.push(entries_view(v@)[i as int]));
                    lemma_encode_entries_push(pre, entries_view(v@)[i as int]);
                    assert(entries_view(v@)[i as int] == (v@[i as int].0@, json_view(
                        v@[i as int].1,
                    )));
                    assert(out@ =~= old(out)@ + seq![123u8] + encode_entries(now));
                }
                i = i + 1;
            }
            out.push(125);
            proof {
                assert(entries_view(v@).subrange(0, entries_view(v@).len() as int) =~= entries_view(
                    v@,
                ));
                assert(out@ =~= old(out)@ + encode_json(j@));
            }
        },
    }
}

/// The canonical encoding of a value, as bytes.
pub fn to_canonical_bytes(j: &Json) -> (r: Vec<u8>)
    ensures
        r@ == encode_json(j@),
{
    let mut out: Vec<u8> = Vec::new();
    encode_onto(j, &mut out);
    proof {
        assert(out@ =~= encode_json(j@));
    }
    out
}

/// Deep structural equality of values.
pub fn json_eq(a: &Json, b: &Json) -> (r: bool)
    ensures
        r == (a@ == b@),
    decreases a,
{
    match a {
        Json::Null => {
            match b {
                Json::Null => true,
                _ => false,
            }
        },
        Json::Bool(x) => {
            match b {
                Json::Bool(y) => *x == *y,
                _ => false,
            }
        },
        Json::Int(x) => {
            match b {
                Json::Int(y) => *x == *y,
                _ => false,
            }
        },
        Json::Str(x) => {
            match b {
                Json::Str(y) => bytes_eq(x, y),
                _ => false,
            }
        },
        Json::Arr(x) => {
            match b {
                Json::Arr(y) => {
                    proof {
                        lemma_view_arr(*x);
                        lemma_view_arr(*y);
                        assert(*a == Json::Arr(*x));
                        assert(*b == Json::Arr(*y));
                    }
                    if x.len() != y.len() {
                        proof {
                            assert(elems_view(x@).len() != elems_view(y@).len());
                        }
                        return false;
                    }
                    let mut i: usize = 0;
                    while i < x.len()
                        invariant
                            *a == Json::Arr(*x),
                            *b == Json::Arr(*y),
                            a@ == JsonV::Arr(elems_view(x@)),
                            b@ == JsonV::Arr(elems_view(y@)),
                            x@.len() == y@.len(),
                            0 <= i <= x@.len(),
                            forall|k: int|
                                0 <= k < i ==> elems_view(x@)[k] == #[trigger] elems_view(y@)[k],
                        decreases x@.len() - i,
                    {
                        proof {
                            assert(decreases_to!(*a => a->Arr_0));
                            assert(a->Arr_0 == *x);
                            assert(decreases_to!(*x => x@[i as int]));
                            assert(decreases_to!(*a => x@[i as int]));
                        }
                        if !json_eq(&x[i], &y[i]) {
                            proof {
                                assert(elems_view(x@)[i as int] != elems_view(y@)[i as int]);
                            }
                            return false;
                        }
                        i = i + 1;
                    }
                    proof {
                        assert(elems_view(x@) =~= elems_view(y@));
                    }
                    true
                },
                _ => false,
            }
        },
        Json::Obj(x) => {
            match b {
                Json::Obj(y) => {
                    proof {
                        lemma_view_obj(*x);
                        lemma_view_obj(*y);
                        assert(*a == Json::Obj(*x));
                        assert(*b == Json::Obj(*y));
                    }
                    if x.len() != y.len() {
                        proof {
                            assert(entries_view(x@).len() != entries_view(y@).len());
                        }
                        return false;
                    }
                    let mut i: usize = 0;
                    while i < x.len()
                        invariant
                            *a == Json::Obj(*x),
                            *b == Json::Obj(*y),
                            a@ == JsonV::Obj(entries_view(x@)),
                            b@ == JsonV::Obj(entries_view(y@)),
                            x@.len() == y@.len(),
                            0 <= i <= x@.len(),
                            forall|k: int|
                                0 <= k < i ==> entries_view(x@)[k] == #[trigger] entries_view(
                                    y@,
                                )[k],
                        decreases x@.len() - i,
                    {
                        proof {
                            assert(decreases_to!(*a => a->Obj_0));
                            assert(a->Obj_0 == *x);
                            assert(decreases_to!(*x => x@[i as int]));
                            assert(decreases_to!(x@[i as int] => x@[i as int].1));
                            assert(decreases_to!(*a => x@[i as int].1));
                        }
                        if !bytes_eq(&x[i].0, &y[i].0) {
                            proof {
                                assert(entries_view(x@)[i as int].0 != entries_view(
                                    y@,
                                )[i as int].0);
                            }
                            return false;
                        }
                        if !json_eq(&x[i].1, &y[i].1) {
                            proof {
                                assert(entries_view(x@)[i as int].1 != entries_view(
                                    y@,
                                )[i as int].1);
                            }
                            return false;
                        }
                        proof {
                            let p = entries_view(x@)[i as int];
                            let q = entries_view(y@)[i as int];
                            assert(p.0 == q.0 && p.1 == q.1);
                            assert(p =~= q);
                        }
                        i = i + 1;
                    }
                    proof {
                        assert(entries_view(x@) =~= entries_view(y@));
                    }
                    true
                },
                _ => false,
            }
        },
    }
}

/// Keys ascend pairwise as soon as they ascend between neighbours.
pub proof fn lemma_chain_lt(o: Seq<(Seq<u8>, JsonV)>, i: int, j: int)
    requires
        forall|k: int| 0 <= k < o.len() - 1 ==> lex_lt(#[trigger] o[k].0, o[k + 1].0),
        0 <= i < j < o.len(),
    ensures
        lex_lt(o[i].0, o[j].0),
    decreases j - i,
{
    if j == i + 1 {
    } else {
        lemma_chain_lt(o, i, j - 1);
        crate::bytes::lemma_lex_lt_transitive(o[i].0, o[j - 1].0, o[j].0);
    }
}

pub proof fn lemma_adjacent_sorted(o: Seq<(Seq<u8>, JsonV)>)
    requires
        forall|k: int| 0 <= k < o.len() - 1 ==> lex_lt(#[trigger] o[k].0, o[k + 1].0),
    ensures
        obj_keys_sorted(o),
{
    assert forall|i: int, j: int| 0 <= i < j < o.len() implies lex_lt(o[i].0, o[j].0) by {
        lemma_chain_lt(o, i, j);
    }
}

pub proof fn lemma_wf_arr_unfold(a: Seq<JsonV>)
    ensures
        wf_json(JsonV::Arr(a)) == (forall|t: int| 0 <= t < a.len() ==> wf_json(#[trigger] a[t])),
{
    lemma_wf_list_iff(a);
}

pub proof fn lemma_wf_obj_unfold(o: Seq<(Seq<u8>, JsonV)>)
    ensures
        wf_json(JsonV::Obj(o)) == (obj_keys_sorted(o) && (forall|t: int|
            0 <= t < o.len() ==> wf_json(#[trigger] o[t].1))),
{
    lemma_wf_entries_iff(o);
}

/// Checks well-formedness: integer range and ascending keys, at every level.
#[verifier::rlimit(80)]
pub fn json_wf_check(j: &Json) -> (r: bool)
    ensures
        r == wf_json(j@),
    decreases j,
{
    match j {
        Json::Null => {
            proof {
                assert(*j == Json::Null);
            }
            true
        },
        Json::Bool(b) => {
            proof {
                assert(*j == Json::Bool(*b));
            }
            true
        },
        Json::Int(i) => {
            proof {
                assert(*j == Json::Int(*i));
            }
            let ok = *i > -9007199254740992i64 && *i < 9007199254740992i64;
            assert(j@ == JsonV::Int(*i as int));
            assert(ok == wf_json(j@));
            ok
        },
        Json::Str(s) => {
            proof {
                assert(*j == Json::Str(*s));
            }
            true
        },
        Json::Arr(v) => {
            proof {
                lemma_view_arr(*v);
            }
            let mut i: usize = 0;
            let mut ok = true;
            while i < v.len()
                invariant
                    *j == Json::Arr(*v),
                    a_view_inv(j, v),
                    0 <= i <= v@.len(),
                    ok == forall|k: int| 0 <= k < i ==> wf_json(#[trigger] elems_view(v@)[k]),
                decreases v@.len() - i,
            {
                proof {
                    assert(decreases_to!(*j => j->Arr_0));
                    assert(j->Arr_0 == *v);
                    assert(decreases_to!(*v => v@[i as int]));
                    assert(decreases_to!(*j => v@[i as int]));
                }
                let w = json_wf_check(&v[i]);
                proof {
                    assert(elems_view(v@)[i as int] == json_view(v@[i as int]));
                }
                ok = ok && w;
                i = i + 1;
            }
            proof {
                let a = elems_view(v@);
                assert(i == v@.len() && a.len() == v@.len());
                lemma_wf_arr_unfold(a);
                if ok {
                    assert(forall|k: int| 0 <= k < a.len() ==> wf_json(#[trigger] a[k]));
                    assert(wf_json(JsonV::Arr(a)));
                } else {
                    let k = choose|k: int| 0 <= k < i && !wf_json(#[trigger] elems_view(v@)[k]);
                    assert(!wf_json(a[k]));
                    lemma_wf_arr_unfold(a);
                    assert(!wf_json(JsonV::Arr(a)));
                }
            }
            assert(ok == wf_json(j@));
            ok
        },
        Json::Obj(v) => {
            proof {
                lemma_view_obj(*v);
            }
            let mut i: usize = 0;
            let mut ok = true;
            while i < v.len()
                invariant
                    *j == Json::Obj(*v),
                    o_view_inv(j, v),
                    0 <= i <= v@.len(),
                    ok == ((forall|k: int|
                        0 <= k < i ==> wf_json(#[trigger] entries_view(v@)[k].1)) && (forall|k: int|
                        0 <= k < i - 1 ==> lex_lt(
                            (#[trigger] entries_view(v@)[k]).0,
                            entries_view(v@)[k + 1].0,
                        ))),
                decreases v@.len() - i,
            {
                proof {
                    assert(decreases_to!(*j => j->Obj_0));
                    assert(j->Obj_0 == *v);
                    assert(decreases_to!(*v => v@[i as int]));
                    assert(decreases_to!(v@[i as int] => v@[i as int].1));
                    assert(decreases_to!(*j => v@[i as int].1));
                }
                let w = json_wf_check(&v[i].1);
                let asc = if i > 0 {
                    crate::bytes::bytes_lt(&v[i - 1].0, &v[i].0)
                } else {
                    true
                };
                proof {
                    let o = entries_view(v@);
                    assert(o[i as int] == (v@[i as int].0@, json_view(v@[i as int].1)));
                    if i > 0 {
                        assert(o[i - 1] == (v@[i - 1].0@, json_view(v@[i - 1].1)));
                    }
                    if ok && w && asc {
                        assert(forall|k: int| 0 <= k < i + 1 ==> wf_json(#[trigger] o[k].1));
                        assert(forall|k: int|
                            0 <= k < i ==> lex_lt((#[trigger] o[k]).0, o[k + 1].0));
                    } else {
                        if (forall|k: int| 0 <= k < i + 1 ==> wf_json(#[trigger] o[k].1)) && (
                        forall|k: int| 0 <= k < i ==> lex_lt((#[trigger] o[k]).0, o[k + 1].0)) {
                            assert(wf_json(o[i as int].1));
                            if i > 0 {
                                assert(lex_lt(o[i - 1].0, o[i as int].0));
                            }
                            assert(forall|k: int| 0 <= k < i ==> wf_json(#[trigger] o[k].1));
                            assert(forall|k: int|
                                0 <= k < i - 1 ==> lex_lt((#[trigger] o[k]).0, o[k + 1].0));
                            assert(false);
                        }
                    }
                }
                ok = ok && w && asc;
                i = i + 1;
            }
            proof {
                let o = entries_view(v@);
                assert(i == v@.len() && o.len() == v@.len());
                lemma_wf_obj_unfold(o);
                if ok {
                    assert(forall|k: int| 0 <= k < o.len() ==> wf_json(#[trigger] o[k].1));
                    assert(forall|k: int|
                        0 <= k < o.len() - 1 ==> lex_lt((#[trigger] o[k]).0, o[k + 1].0));
                    lemma_adjacent_sorted(o);
                    assert(wf_json(JsonV::Obj(o)));
                } else {
                    if !(forall|k: int|
                        0 <= k < i ==> wf_json(#[trigger] entries_view(v@)[k].1)) {
                        let k = choose|k: int|
                            0 <= k < i && !wf_json(#[trigger] entries_view(v@)[k].1);
                        assert(!wf_json(o[k].1));
                        assert(!wf_json(JsonV::Obj(o)));
                    } else {
                        let k = choose|k: int|
                            0 <= k < i - 1 && !lex_lt(
                                (#[trigger] entries_view(v@)[k]).0,
                                entries_view(v@)[k + 1].0,
                            );
                        assert(!lex_lt(o[k].0, o[k + 1].0));
                        if obj_keys_sorted(o) {
                            assert(lex_lt(o[k].0, o[k + 1].0));
                        }
                        assert(!wf_json(JsonV::Obj(o)));
                    }
                }
            }
            assert(ok == wf_json(j@));
            ok
        },
    }
}

/// Ties an array value to its element vector, for loop invariants.
pub open spec fn a_view_inv(j: &Json, v: &Vec<Json>) -> bool {
    j@ == JsonV::Arr(elems_view(v@))
}

/// Ties an object value to its entry vector, for loop invariants.
pub open spec fn o_view_inv(j: &Json, v: &Vec<(Vec<u8>, Json)>) -> bool {
    j@ == JsonV::Obj(entries_view(v@))
}

/// What a filter keeps: exactly the listed elements that satisfy the
/// predicate.
pub proof fn lemma_filter_membership<A>(s: Seq<A>, pred: spec_fn(A) -> bool, f: Seq<A>)
    requires
        f == s.filter(pred),
    ensures
        forall|x: A| #[trigger] f.contains(x) ==> s.contains(x) && pred(x),
        forall|x: A| s.contains(x) && pred(x) ==> #[trigger] f.contains(x),
{
    lemma_filter_elements(s, pred);
    assert forall|x: A| #[trigger] f.contains(x) implies s.contains(x) && pred(x) by {
        let t = choose|t: int| 0 <= t < f.len() && f[t] == x;
        assert(s.contains(f[t]));
        s.lemma_filter_pred(pred, t);
    }
    assert forall|x: A| s.contains(x) && pred(x) implies #[trigger] f.contains(x) by {
        let u = choose|u: int| 0 <= u < s.len() && s[u] == x;
        s.lemma_filter_contains(pred, u);
    }
}

/// Filters with pointwise equal predicates agree.
pub proof fn lemma_filter_congruent<A>(s: Seq<A>, f: spec_fn(A) -> bool, g: spec_fn(A) -> bool)
    requires
        forall|x: A| #[trigger] f(x) == g(x),
    ensures
        s.filter(f) == s.filter(g),
    decreases s.len(),
{
    reveal(Seq::filter);
    if s.len() > 0 {
        lemma_filter_congruent(s.drop_last(), f, g);
        assert(f(s.last()) == g(s.last()));
        assert(s.filter(f) =~= s.filter(g));
    } else {
        assert(s.filter(f) =~= s.filter(g));
    }
}

/// A filter of a duplicate-free list is duplicate-free.
pub proof fn lemma_filter_distinct_values<A>(s: Seq<A>, pred: spec_fn(A) -> bool)
    requires
        forall|i: int, j: int| 0 <= i < j < s.len() ==> s[i] != s[j],
    ensures
        forall|a: int, b: int|
            0 <= a < b < s.filter(pred).len() ==> s.filter(pred)[a] != s.filter(pred)[b],
    decreases s.len(),
{
    reveal(Seq::filter);
    if s.len() > 0 {
        let dl = s.drop_last();
        assert(forall|i: int, j: int| 0 <= i < j < dl.len() ==> dl[i] != dl[j]) by {
            assert(forall|i: int| 0 <= i < dl.len() ==> dl[i] == s[i]);
        }
        lemma_filter_distinct_values(dl, pred);
        let f = s.filter(pred);
        let fd = dl.filter(pred);
        if pred(s.last()) {
            assert forall|a: int, b: int| 0 <= a < b < f.len() implies f[a] != f[b] by {
                if b < f.len() - 1 {
                    assert(f[a] == fd[a] && f[b] == fd[b]);
                } else {
                    assert(f[b] == s.last());
                    assert(f[a] == fd[a]);
                    lemma_filter_elements(dl, pred);
                    assert(dl.contains(fd[a]));
                    let t = choose|t: int| 0 <= t < dl.len() && dl[t] == fd[a];
                    assert(s[t] == fd[a] && s[s.len() - 1] == s.last());
                }
            }
        }
    }
}

/// A filter that keeps everything is the identity.
pub proof fn lemma_filter_all<A>(s: Seq<A>, pred: spec_fn(A) -> bool)
    requires
        forall|i: int| 0 <= i < s.len() ==> pred(#[trigger] s[i]),
    ensures
        s.filter(pred) == s,
    decreases s.len(),
{
    reveal(Seq::filter);
    if s.len() > 0 {
        assert(forall|i: int|
            0 <= i < s.drop_last().len() ==> pred(#[trigger] s.drop_last()[i]) && s.drop_last()[i]
                == s[i]);
        lemma_filter_all(s.drop_last(), pred);
        assert(pred(s.last()));
        assert(s.filter(pred) =~= s);
    } else {
        assert(s.filter(pred) =~= s);
    }
}

} // verus!
