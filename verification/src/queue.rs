//! Outbound queue keys and the two queue tables.
//!
//! A queue entry is one key: the destination tag, the `0xff` delimiter,
//! then the PDU id. Federation peers are tagged by their bare server name,
//! application services by a leading `+`, push fan-out entries by a
//! leading `$`. The pending and in-flight tables are sets of such keys; a
//! destination's reservation marker is its prefix with no PDU id behind
//! the delimiter.

use crate::bytes::{bytes_eq, has_prefix, starts_with};
use crate::json::bytes_clone;
use crate::pdu::valid_server_name;
use vstd::prelude::*;

verus! {

broadcast use vstd::std_specs::vec::group_vec_axioms;

/// Where a queued PDU is bound: a federation peer, an application
/// service, or the push gateway fan-out for one PDU.
pub enum Destination {
    Normal(Vec<u8>),
    Appservice(Vec<u8>),
    Push(Vec<u8>),
}

#[verifier::ext_equal]
pub enum DestinationV {
    Normal(Seq<u8>),
    Appservice(Seq<u8>),
    Push(Seq<u8>),
}

impl View for Destination {
    type V = DestinationV;

    open spec fn view(&self) -> DestinationV {
        match self {
            Destination::Normal(s) => DestinationV::Normal(s@),
            Destination::Appservice(s) => DestinationV::Appservice(s@),
            Destination::Push(s) => DestinationV::Push(s@),
        }
    }
}

/// A destination whose tag survives the key codec: server names hold only
/// server-name bytes, and tagged ids are non-empty and free of the
/// delimiter.
pub open spec fn valid_destination(d: DestinationV) -> bool {
    match d {
        DestinationV::Normal(s) => valid_server_name(s) && s[0] != 43u8 && s[0] != 36u8,
        DestinationV::Appservice(id) => id.len() > 0 && forall|i: int|
            0 <= i < id.len() ==> #[trigger] id[i] != 255u8,
        DestinationV::Push(id) => id.len() > 0 && forall|i: int|
            0 <= i < id.len() ==> #[trigger] id[i] != 255u8,
    }
}

/// The destination tag: what stands before the delimiter.
pub open spec fn dest_tag_v(d: DestinationV) -> Seq<u8> {
    match d {
        DestinationV::Normal(s) => s,
        DestinationV::Appservice(id) => seq![43u8] + id,
        DestinationV::Push(id) => seq![36u8] + id,
    }
}

/// The key prefix of a destination: its tag and the delimiter. The bare
/// prefix is the destination's reservation marker.
pub open spec fn queue_prefix_v(d: DestinationV) -> Seq<u8> {
    dest_tag_v(d) + seq![255u8]
}

/// The queue key of one PDU bound for `d`.
pub open spec fn queue_key_v(d: DestinationV, pdu_id: Seq<u8>) -> Seq<u8> {
    queue_prefix_v(d) + pdu_id
}

/// What a tag denotes: `+` marks an application service, `$` a push
/// fan-out entry, anything else a federation peer (whose name must be a
/// valid server name).
pub open spec fn tag_dest_v(tag: Seq<u8>) -> Option<DestinationV> {
    if tag.len() == 0 {
        None
    } else if tag[0] == 43u8 {
        if tag.len() >= 2 {
            Some(DestinationV::Appservice(tag.subrange(1, tag.len() as int)))
        } else {
            None
        }
    } else if tag[0] == 36u8 {
        if tag.len() >= 2 {
            Some(DestinationV::Push(tag.subrange(1, tag.len() as int)))
        } else {
            None
        }
    } else if valid_server_name(tag) {
        Some(DestinationV::Normal(tag))
    } else {
        None
    }
}

/// The first position of the delimiter.
pub open spec fn find_delim(s: Seq<u8>) -> Option<int>
    decreases s.len(),
{
    if s.len() == 0 {
        None
    } else if s[0] == 255u8 {
        Some(0)
    } else {
        match find_delim(s.subrange(1, s.len() as int)) {
            Some(i) => Some(i + 1),
            None => None,
        }
    }
}

pub proof fn lemma_find_delim_at(s: Seq<u8>, n: int)
    requires
        0 <= n < s.len(),
        s[n] == 255u8,
        forall|j: int| 0 <= j < n ==> s[j] != 255u8,
    ensures
        find_delim(s) == Some(n),
    decreases n,
{
    if n == 0 {
    } else {
        let t = s.subrange(1, s.len() as int);
        assert(t[n - 1] == s[n]);
        assert(forall|j: int| 0 <= j < n - 1 ==> t[j] == s[j + 1] && #[trigger] t[j] != 255u8);
        lemma_find_delim_at(t, n - 1);
    }
}

/// What a queue key denotes: the destination of its tag, and the PDU id
/// behind the delimiter.
pub open spec fn parse_queue_key_v(k: Seq<u8>) -> Option<(DestinationV, Seq<u8>)> {
    match find_delim(k) {
        Some(i) => match tag_dest_v(k.subrange(0, i)) {
            Some(d) => Some((d, k.subrange(i + 1, k.len() as int))),
            None => None,
        },
        None => None,
    }
}

/// Keys of valid destinations decode to what they encode.
pub proof fn lemma_queue_key_round_trip(d: DestinationV, pdu_id: Seq<u8>)
    requires
        valid_destination(d),
    ensures
        parse_queue_key_v(queue_key_v(d, pdu_id)) == Some((d, pdu_id)),
{
    let tag = dest_tag_v(d);
    let k = queue_key_v(d, pdu_id);
    assert(k.len() == tag.len() + 1 + pdu_id.len());
    assert(k[tag.len() as int] == 255u8);
    assert forall|j: int| 0 <= j < tag.len() implies k[j] != 255u8 by {
        assert(k[j] == tag[j]);
        match d {
            DestinationV::Normal(s) => {
                assert(crate::pdu::is_server_byte(s[j]));
            },
            DestinationV::Appservice(id) => {
                if j > 0 {
                    assert(tag[j] == id[j - 1]);
                }
            },
            DestinationV::Push(id) => {
                if j > 0 {
                    assert(tag[j] == id[j - 1]);
                }
            },
        }
    }
    lemma_find_delim_at(k, tag.len() as int);
    assert(k.subrange(0, tag.len() as int) =~= tag);
    assert(k.subrange(tag.len() as int + 1, k.len() as int) =~= pdu_id);
    match d {
        DestinationV::Normal(s) => {
            assert(tag_dest_v(tag) == Some(d));
        },
        DestinationV::Appservice(id) => {
            assert(tag[0] == 43u8);
            assert(tag.subrange(1, tag.len() as int) =~= id);
        },
        DestinationV::Push(id) => {
            assert(tag[0] == 36u8);
            assert(tag.subrange(1, tag.len() as int) =~= id);
        },
    }
}

/// The shape of a reservation marker: a non-empty tag free of the
/// delimiter, then the delimiter.
pub open spec fn is_marker(p: Seq<u8>) -> bool {
    p.len() >= 2 && p[p.len() - 1] == 255u8 && forall|j: int|
        0 <= j < p.len() - 1 ==> p[j] != 255u8
}

/// A valid destination's prefix is a marker.
pub proof fn lemma_prefix_is_marker(d: DestinationV)
    requires
        valid_destination(d),
    ensures
        is_marker(queue_prefix_v(d)),
{
    let tag = dest_tag_v(d);
    let p = queue_prefix_v(d);
    assert forall|j: int| 0 <= j < p.len() - 1 implies p[j] != 255u8 by {
        assert(p[j] == tag[j]);
        match d {
            DestinationV::Normal(s) => {
                assert(crate::pdu::is_server_byte(s[j]));
            },
            DestinationV::Appservice(id) => {
                if j > 0 {
                    assert(tag[j] == id[j - 1]);
                }
            },
            DestinationV::Push(id) => {
                if j > 0 {
                    assert(tag[j] == id[j - 1]);
                }
            },
        }
    }
}

/// Two distinct markers never extend one another.
pub proof fn lemma_markers_no_extend(p: Seq<u8>, q: Seq<u8>)
    requires
        is_marker(p),
        is_marker(q),
        p != q,
    ensures
        !(has_prefix(p, q) && p.len() > q.len()),
{
    if has_prefix(p, q) && p.len() > q.len() {
        assert(p.subrange(0, q.len() as int) == q);
        assert(p[q.len() - 1] == q[q.len() - 1]) by {
            assert(p.subrange(0, q.len() as int)[q.len() - 1] == p[q.len() - 1]);
        }
        assert(p[q.len() - 1] == 255u8);
        assert(q.len() - 1 < p.len() - 1);
    }
}

/// `find_delim` answers with the first delimiter.
pub proof fn lemma_find_delim_first(s: Seq<u8>)
    requires
        find_delim(s) is Some,
    ensures
        ({
            let i = find_delim(s)->Some_0;
            0 <= i < s.len() && s[i] == 255u8 && forall|j: int| 0 <= j < i ==> s[j] != 255u8
        }),
    decreases s.len(),
{
    if s.len() == 0 {
    } else if s[0] == 255u8 {
    } else {
        let t = s.subrange(1, s.len() as int);
        lemma_find_delim_first(t);
        let i = find_delim(t)->Some_0;
        assert(s[i + 1] == t[i]);
        assert forall|j: int| 0 <= j < i + 1 implies s[j] != 255u8 by {
            if j > 0 {
                assert(s[j] == t[j - 1]);
            }
        }
    }
}

/// What the key codec accepts is a valid destination.
pub proof fn lemma_parse_valid(k: Seq<u8>)
    requires
        parse_queue_key_v(k) is Some,
    ensures
        valid_destination(parse_queue_key_v(k)->Some_0.0),
{
    lemma_find_delim_first(k);
    let i = find_delim(k)->Some_0;
    let tag = k.subrange(0, i);
    assert(forall|j: int| 0 <= j < tag.len() ==> #[trigger] tag[j] != 255u8);
    let d = parse_queue_key_v(k)->Some_0.0;
    if tag.len() == 0 {
    } else if tag[0] == 43u8 {
        let id = tag.subrange(1, tag.len() as int);
        assert forall|j: int| 0 <= j < id.len() implies #[trigger] id[j] != 255u8 by {
            assert(id[j] == tag[j + 1]);
        }
    } else if tag[0] == 36u8 {
        let id = tag.subrange(1, tag.len() as int);
        assert forall|j: int| 0 <= j < id.len() implies #[trigger] id[j] != 255u8 by {
            assert(id[j] == tag[j + 1]);
        }
    } else {
    }
}

/// The prefix bytes of a destination.
pub fn queue_prefix(d: &Destination) -> (r: Vec<u8>)
    ensures
        r@ == queue_prefix_v(d@),
{
    let mut out: Vec<u8> = Vec::new();
    match d {
        Destination::Normal(s) => {
            out = bytes_clone(s);
        },
        Destination::Appservice(id) => {
            out.push(43);
            let mut i: usize = 0;
            while i < id.len()
                invariant
                    0 <= i <= id@.len(),
                    out@ == seq![43u8] + id@.subrange(0, i as int),
                decreases id@.len() - i,
            {
                out.push(id[i]);
                proof {
                    assert(out@ =~= seq![43u8] + id@.subrange(0, i + 1));
                }
                i = i + 1;
            }
            proof {
                assert(id@.subrange(0, id@.len() as int) =~= id@);
            }
        },
        Destination::Push(id) => {
            out.push(36);
            let mut i: usize = 0;
            while i < id.len()
                invariant
                    0 <= i <= id@.len(),
                    out@ == seq![36u8] + id@.subrange(0, i as int),
                decreases id@.len() - i,
            {
                out.push(id[i]);
                proof {
                    assert(out@ =~= seq![36u8] + id@.subrange(0, i + 1));
                }
                i = i + 1;
            }
            proof {
                assert(id@.subrange(0, id@.len() as int) =~= id@);
            }
        },
    }
    out.push(255);
    proof {
        assert(out@ =~= queue_prefix_v(d@));
    }
    out
}

/// The queue key of one PDU bound for `d`.
pub fn queue_key(d: &Destination, pdu_id: &Vec<u8>) -> (r: Vec<u8>)
    ensures
        r@ == queue_key_v(d@, pdu_id@),
{
    let mut out = queue_prefix(d);
    let mut i: usize = 0;
    while i < pdu_id.len()
        invariant
            0 <= i <= pdu_id@.len(),
            out@ == queue_prefix_v(d@) + pdu_id@.subrange(0, i as int),
        decreases pdu_id@.len() - i,
    {
        out.push(pdu_id[i]);
        proof {
            assert(out@ =~= queue_prefix_v(d@) + pdu_id@.subrange(0, i + 1));
        }
        i = i + 1;
    }
    proof {
        assert(pdu_id@.subrange(0, pdu_id@.len() as int) =~= pdu_id@);
        assert(out@ =~= queue_key_v(d@, pdu_id@));
    }
    out
}

/// Decodes a queue key into its destination and PDU id.
pub fn parse_queue_key(k: &Vec<u8>) -> (r: Option<(Destination, Vec<u8>)>)
    ensures
        match r {
            Some(p) => parse_queue_key_v(k@) == Some((p.0@, p.1@)),
            None => parse_queue_key_v(k@) is None,
        },
{
    let mut i: usize = 0;
    while i < k.len()
        invariant
            0 <= i <= k@.len(),
            forall|j: int| 0 <= j < i ==> k@[j] != 255u8,
        decreases k@.len() - i,
    {
        if k[i] == 255 {
            proof {
                lemma_find_delim_at(k@, i as int);
            }
            let mut tag: Vec<u8> = Vec::new();
            let mut t: usize = 0;
            while t < i
                invariant
                    0 <= t <= i <= k@.len(),
                    tag@ == k@.subrange(0, t as int),
                decreases i - t,
            {
                tag.push(k[t]);
                proof {
                    assert(tag@ =~= k@.subrange(0, t + 1));
                }
                t = t + 1;
            }
            let mut pdu: Vec<u8> = Vec::new();
            let mut u: usize = i + 1;
            while u < k.len()
                invariant
                    0 <= i < u <= k@.len(),
                    pdu@ == k@.subrange(i + 1, u as int),
                decreases k@.len() - u,
            {
                pdu.push(k[u]);
                proof {
                    assert(pdu@ =~= k@.subrange(i + 1, u + 1));
                }
                u = u + 1;
            }
            if tag.len() == 0 {
                return None;
            }
            if tag[0] == 43 {
                if tag.len() < 2 {
                    return None;
                }
                let mut id: Vec<u8> = Vec::new();
                let mut v: usize = 1;
                while v < tag.len()
                    invariant
                        1 <= v <= tag@.len(),
                        id@ == tag@.subrange(1, v as int),
                    decreases tag@.len() - v,
                {
                    id.push(tag[v]);
                    proof {
                        assert(id@ =~= tag@.subrange(1, v + 1));
                    }
                    v = v + 1;
                }
                return Some((Destination::Appservice(id), pdu));
            }
            if tag[0] == 36 {
                if tag.len() < 2 {
                    return None;
                }
                let mut id: Vec<u8> = Vec::new();
                let mut v: usize = 1;
                while v < tag.len()
                    invariant
                        1 <= v <= tag@.len(),
                        id@ == tag@.subrange(1, v as int),
                    decreases tag@.len() - v,
                {
                    id.push(tag[v]);
                    proof {
                        assert(id@ =~= tag@.subrange(1, v + 1));
                    }
                    v = v + 1;
                }
                return Some((Destination::Push(id), pdu));
            }
            if crate::pdu::is_valid_server_name(&tag) {
                return Some((Destination::Normal(tag), pdu));
            }
            return None;
        }
        i = i + 1;
    }
    proof {
        if find_delim(k@) is Some {
            lemma_find_delim_index(k@);
        }
    }
    None
}

/// Where `find_delim` answers, the byte there is the delimiter.
pub proof fn lemma_find_delim_index(s: Seq<u8>)
    requires
        find_delim(s) is Some,
    ensures
        0 <= find_delim(s)->Some_0 < s.len() && s[find_delim(s)->Some_0] == 255u8,
    decreases s.len(),
{
    if s.len() == 0 {
    } else if s[0] == 255u8 {
    } else {
        let t = s.subrange(1, s.len() as int);
        lemma_find_delim_index(t);
        let i = find_delim(t)->Some_0;
        assert(s[i + 1] == t[i]);
    }
}

/// A set of byte keys: one of the dispatcher's two tables.
pub struct KeySet {
    pub keys: Vec<Vec<u8>>,
}

impl View for KeySet {
    type V = Seq<Seq<u8>>;

    open spec fn view(&self) -> Seq<Seq<u8>> {
        crate::json::keys_view(self.keys@)
    }
}

impl KeySet {
    /// Keys are listed once.
    pub open spec fn wf(&self) -> bool {
        forall|i: int, j: int| 0 <= i < j < self@.len() ==> self@[i] != self@[j]
    }

    pub fn new() -> (r: KeySet)
        ensures
            r@ == Seq::<Seq<u8>>::empty(),
            r.wf(),
    {
        let r = KeySet { keys: Vec::new() };
        proof {
            assert(r@ =~= Seq::<Seq<u8>>::empty());
        }
        r
    }

    pub fn contains(&self, k: &Vec<u8>) -> (r: bool)
        ensures
            r == self@.contains(k@),
    {
        let mut i: usize = 0;
        while i < self.keys.len()
            invariant
                0 <= i <= self.keys@.len(),
                self@.len() == self.keys@.len(),
                forall|t: int| 0 <= t < i ==> self@[t] != k@,
            decreases self.keys@.len() - i,
        {
            if bytes_eq(&self.keys[i], k) {
                assert(self@[i as int] == k@);
                return true;
            }
            proof {
                assert(self@[i as int] == self.keys@[i as int]@);
            }
            i = i + 1;
        }
        proof {
            if self@.contains(k@) {
                let t = choose|t: int| 0 <= t < self@.len() && self@[t] == k@;
                assert(self@[t] != k@);
            }
        }
        false
    }

    /// Adds a key; a present key is left alone.
    pub fn insert(&mut self, k: Vec<u8>)
        requires
            old(self).wf(),
        ensures
            final(self).wf(),
            old(self)@.contains(k@) ==> final(self)@ == old(self)@,
            !old(self)@.contains(k@) ==> final(self)@ == old(self)@.push(k@),
    {
        if !self.contains(&k) {
            let ghost pre = self@;
            self.keys.push(k);
            proof {
                assert(self@ =~= pre.push(k@));
                assert forall|i: int, j: int| 0 <= i < j < self@.len() implies self@[i]
                    != self@[j] by {
                    if j < self@.len() - 1 {
                        assert(self@[i] == pre[i] && self@[j] == pre[j]);
                    } else {
                        assert(self@[j] == k@);
                        assert(self@[i] == pre[i]);
                        if self@[i] == k@ {
                            assert(pre.contains(k@));
                        }
                    }
                }
            }
        }
    }

    /// Adds a key only when absent; the dispatcher's reservation step.
    pub fn cas_insert(&mut self, k: Vec<u8>) -> (r: bool)
        requires
            old(self).wf(),
        ensures
            final(self).wf(),
            r == !old(self)@.contains(k@),
            r ==> final(self)@ == old(self)@.push(k@),
            !r ==> final(self)@ == old(self)@,
    {
        if self.contains(&k) {
            false
        } else {
            self.insert(k);
            true
        }
    }

    /// Removes a key; every other key stays, in order.
    pub fn remove(&mut self, k: &Vec<u8>)
        requires
            old(self).wf(),
        ensures
            final(self).wf(),
            final(self)@ == old(self)@.filter(|x: Seq<u8>| x != k@),
    {
        let ghost pred = |x: Seq<u8>| x != k@;
        let mut out: Vec<Vec<u8>> = Vec::new();
        let mut i: usize = 0;
        proof {
            reveal(Seq::filter);
            assert(self@.subrange(0, 0) =~= Seq::<Seq<u8>>::empty());
            assert(crate::json::keys_view(out@) =~= self@.subrange(0, 0).filter(pred));
        }
        while i < self.keys.len()
            invariant
                0 <= i <= self.keys@.len(),
                self@.len() == self.keys@.len(),
                pred == (|x: Seq<u8>| x != k@),
                crate::json::keys_view(out@) == self@.subrange(0, i as int).filter(pred),
            decreases self.keys@.len() - i,
        {
            proof {
                reveal(Seq::filter);
                let now = self@.subrange(0, i + 1);
                assert(now.drop_last() =~= self@.subrange(0, i as int));
                assert(now.last() == self@[i as int]);
                assert(self@[i as int] == self.keys@[i as int]@);
            }
            let ghost out_old = out@;
            if !bytes_eq(&self.keys[i], k) {
                out.push(bytes_clone(&self.keys[i]));
                proof {
                    assert(crate::json::keys_view(out@) =~= crate::json::keys_view(out_old).push(
                        self@[i as int],
                    ));
                }
            }
            i = i + 1;
        }
        proof {
            assert(self@.subrange(0, self@.len() as int) =~= self@);
        }
        let ghost pre = self@;
        self.keys = out;
        proof {
            crate::json::lemma_filter_elements(pre, pred);
            assert forall|a: int, b: int| 0 <= a < b < self@.len() implies self@[a] != self@[b] by {
                let f = pre.filter(pred);
                assert(pre.contains(f[a]) && pre.contains(f[b]));
                lemma_filter_distinct(pre, pred, a, b);
            }
        }
    }

    /// The keys that begin with `p`, in table order.
    pub fn scan_prefix(&self, p: &Vec<u8>) -> (r: Vec<Vec<u8>>)
        ensures
            crate::json::keys_view(r@) == self@.filter(|x: Seq<u8>| has_prefix(x, p@)),
    {
        let ghost pred = |x: Seq<u8>| has_prefix(x, p@);
        let mut out: Vec<Vec<u8>> = Vec::new();
        let mut i: usize = 0;
        proof {
            reveal(Seq::filter);
            assert(self@.subrange(0, 0) =~= Seq::<Seq<u8>>::empty());
            assert(crate::json::keys_view(out@) =~= self@.subrange(0, 0).filter(pred));
        }
        while i < self.keys.len()
            invariant
                0 <= i <= self.keys@.len(),
                self@.len() == self.keys@.len(),
                pred == (|x: Seq<u8>| has_prefix(x, p@)),
                crate::json::keys_view(out@) == self@.subrange(0, i as int).filter(pred),
            decreases self.keys@.len() - i,
        {
            proof {
                reveal(Seq::filter);
                let now = self@.subrange(0, i + 1);
                assert(now.drop_last() =~= self@.subrange(0, i as int));
                assert(now.last() == self@[i as int]);
                assert(self@[i as int] == self.keys@[i as int]@);
            }
            let ghost out_old = out@;
            if starts_with(&self.keys[i], p) {
                out.push(bytes_clone(&self.keys[i]));
                proof {
                    assert(crate::json::keys_view(out@) =~= crate::json::keys_view(out_old).push(
                        self@[i as int],
                    ));
                }
            }
            i = i + 1;
        }
        proof {
            assert(self@.subrange(0, self@.len() as int) =~= self@);
        }
        out
    }

    /// Removes every key that begins with `p` and is longer than `p`:
    /// the in-flight entries of a destination, leaving its marker.
    pub fn remove_prefix_longer(&mut self, p: &Vec<u8>)
        requires
            old(self).wf(),
        ensures
            final(self).wf(),
            final(self)@ == old(self)@.filter(
                |x: Seq<u8>| !(has_prefix(x, p@) && x.len() > p@.len()),
            ),
    {
        let ghost pred = |x: Seq<u8>| !(has_prefix(x, p@) && x.len() > p@.len());
        let mut out: Vec<Vec<u8>> = Vec::new();
        let mut i: usize = 0;
        proof {
            reveal(Seq::filter);
            assert(self@.subrange(0, 0) =~= Seq::<Seq<u8>>::empty());
            assert(crate::json::keys_view(out@) =~= self@.subrange(0, 0).filter(pred));
        }
        while i < self.keys.len()
            invariant
                0 <= i <= self.keys@.len(),
                self@.len() == self.keys@.len(),
                pred == (|x: Seq<u8>| !(has_prefix(x, p@) && x.len() > p@.len())),
                crate::json::keys_view(out@) == self@.subrange(0, i as int).filter(pred),
            decreases self.keys@.len() - i,
        {
            proof {
                reveal(Seq::filter);
                let now = self@.subrange(0, i + 1);
                assert(now.drop_last() =~= self@.subrange(0, i as int));
                assert(now.last() == self@[i as int]);
                assert(self@[i as int] == self.keys@[i as int]@);
            }
            let ghost out_old = out@;
            let keep = !(starts_with(&self.keys[i], p) && self.keys[i].len() > p.len());
            if keep {
                out.push(bytes_clone(&self.keys[i]));
                proof {
                    assert(crate::json::keys_view(out@) =~= crate::json::keys_view(out_old).push(
                        self@[i as int],
                    ));
                }
            }
            i = i + 1;
        }
        proof {
            assert(self@.subrange(0, self@.len() as int) =~= self@);
        }
        let ghost pre = self@;
        self.keys = out;
        proof {
            assert forall|a: int, b: int| 0 <= a < b < self@.len() implies self@[a] != self@[b] by {
                lemma_filter_distinct(pre, pred, a, b);
            }
        }
    }

    /// How many keys the table holds.
    pub fn len(&self) -> (r: usize)
        ensures
            r == self@.len(),
    {
        self.keys.len()
    }

    /// The key at an index, for walking the table.
    pub fn index(&self, i: usize) -> (r: Vec<u8>)
        requires
            i < self@.len(),
        ensures
            r@ == self@[i as int],
    {
        proof {
            assert(self@[i as int] == self.keys@[i as int]@);
        }
        bytes_clone(&self.keys[i])
    }
}

/// Filtering a duplicate-free list leaves it duplicate-free.
pub proof fn lemma_filter_distinct(s: Seq<Seq<u8>>, pred: spec_fn(Seq<u8>) -> bool, a: int, b: int)
    requires
        forall|i: int, j: int| 0 <= i < j < s.len() ==> s[i] != s[j],
        0 <= a < b < s.filter(pred).len(),
    ensures
        s.filter(pred)[a] != s.filter(pred)[b],
    decreases s.len(),
{
    reveal(Seq::filter);
    if s.len() > 0 {
        let f = s.filter(pred);
        let dl = s.drop_last();
        let fd = dl.filter(pred);
        assert(forall|i: int, j: int| 0 <= i < j < dl.len() ==> dl[i] != dl[j]) by {
            assert(forall|i: int| 0 <= i < dl.len() ==> dl[i] == s[i]);
        }
        if pred(s.last()) {
            if b < f.len() - 1 {
                lemma_filter_distinct(dl, pred, a, b);
            } else {
                assert(f[b] == s.last());
                assert(f[a] == fd[a]);
                crate::json::lemma_filter_elements(dl, pred);
                assert(dl.contains(fd[a]));
                let t = choose|t: int| 0 <= t < dl.len() && dl[t] == fd[a];
                assert(s[t] == fd[a] && s[s.len() - 1] == s.last());
            }
        } else {
            lemma_filter_distinct(dl, pred, a, b);
        }
    }
}

} // verus!
