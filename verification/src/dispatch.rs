//! The outbound transaction dispatcher's decisions.
//!
//! One long-lived worker owns two key tables: `pending` holds newly
//! enqueued PDUs, `current` holds the entries of outstanding transactions
//! together with one reservation marker per destination that has a
//! transaction in flight. The worker reacts to two events: a pending-table
//! wakeup, and the completion of a transaction. The decisions are here;
//! performing the HTTP delivery and handing back the outcome is the
//! caller's part.
//!
//! At most one transaction is in flight per destination: a transaction
//! starts only when the destination's reservation is won, and the
//! reservation is surrendered only when its transaction completes. After a
//! failure the destination backs off for `min(60·k² s, 24 h)` after `k`
//! consecutive failures, and its in-flight entries stay in `current`, so
//! no enqueued PDU is lost short of a delivered transaction.

use crate::bytes::{bytes_eq, has_prefix};
use crate::json::{
    bytes_clone, keys_view, lemma_filter_congruent, lemma_filter_elements, lemma_filter_membership,
};
use crate::queue::{
    is_marker, lemma_markers_no_extend, lemma_parse_valid, lemma_prefix_is_marker,
    parse_queue_key, parse_queue_key_v, queue_key_v, queue_prefix, queue_prefix_v,
    valid_destination, Destination, KeySet,
};
use vstd::prelude::*;

verus! {

broadcast use vstd::std_specs::vec::group_vec_axioms;

/// One transaction to dispatch: the destination and the PDU ids to carry.
pub struct TxnStart {
    pub dest: Destination,
    pub pdu_ids: Vec<Vec<u8>>,
}

/// How long a destination with `k` consecutive failures must rest after
/// its last attempt: `min(60_000·k², 86_400_000)` milliseconds.
pub open spec fn backoff_window_ms(k: u32) -> int {
    if 60000 * (k as int) * (k as int) > 86400000 {
        86400000
    } else {
        60000 * (k as int) * (k as int)
    }
}

/// The window, executable.
pub fn backoff_window(k: u32) -> (r: u64)
    ensures
        r as int == backoff_window_ms(k),
{
    if k >= 38 {
        proof {
            assert(60000 * (k as int) * (k as int) > 86400000) by (nonlinear_arith)
                requires
                    k >= 38,
            ;
        }
        86400000
    } else {
        proof {
            assert(60000 * (k as int) * (k as int) <= 86400000) by (nonlinear_arith)
                requires
                    k < 38,
            ;
        }
        60000u64 * (k as u64) * (k as u64)
    }
}

pub open spec fn bk_view(s: Seq<(Vec<u8>, u32, u64)>) -> Seq<(Seq<u8>, u32, u64)> {
    Seq::new(
        s.len(),
        |i: int|
            if 0 <= i < s.len() {
                (s[i].0@, s[i].1, s[i].2)
            } else {
                (Seq::empty(), 0u32, 0u64)
            },
    )
}

/// The failure record of a destination prefix: the last entry written for
/// it. A record of zero failures means the same as none: the window is
/// empty.
pub open spec fn bk_of(s: Seq<(Seq<u8>, u32, u64)>, k: Seq<u8>) -> Option<(u32, u64)>
    decreases s.len(),
{
    if s.len() == 0 {
        None
    } else if s[s.len() - 1].0 == k {
        Some((s[s.len() - 1].1, s[s.len() - 1].2))
    } else {
        bk_of(s.drop_last(), k)
    }
}

/// How many consecutive failures the record counts.
pub open spec fn bk_fails(s: Seq<(Seq<u8>, u32, u64)>, k: Seq<u8>) -> u32 {
    match bk_of(s, k) {
        Some((f, _)) => f,
        None => 0u32,
    }
}

fn bk_lookup(v: &Vec<(Vec<u8>, u32, u64)>, k: &Vec<u8>) -> (r: Option<(u32, u64)>)
    ensures
        r == bk_of(bk_view(v@), k@),
{
    let ghost s = bk_view(v@);
    let mut i: usize = v.len();
    proof {
        assert(s.subrange(0, i as int) =~= s);
    }
    while i > 0
        invariant
            0 <= i <= v@.len(),
            s == bk_view(v@),
            s.len() == v@.len(),
            bk_of(s, k@) == bk_of(s.subrange(0, i as int), k@),
        decreases i,
    {
        proof {
            assert(s[i - 1] == (v@[i - 1].0@, v@[i - 1].1, v@[i - 1].2));
            assert(s.subrange(0, i as int).last() == s[i - 1]);
        }
        if bytes_eq(&v[i - 1].0, k) {
            return Some((v[i - 1].1, v[i - 1].2));
        }
        proof {
            assert(s.subrange(0, i as int).drop_last() =~= s.subrange(0, i - 1));
        }
        i = i - 1;
    }
    proof {
        assert(s.subrange(0, 0) =~= Seq::<(Seq<u8>, u32, u64)>::empty());
    }
    None
}

/// Writes the record of one prefix; every other record is unchanged.
fn bk_set(v: &mut Vec<(Vec<u8>, u32, u64)>, k: &Vec<u8>, fails: u32, at: u64)
    ensures
        bk_of(bk_view(final(v)@), k@) == Some((fails, at)),
        forall|k2: Seq<u8>|
            k2 != k@ ==> #[trigger] bk_of(bk_view(final(v)@), k2) == bk_of(bk_view(old(v)@), k2),
{
    let ghost pre = bk_view(v@);
    v.push((bytes_clone(k), fails, at));
    proof {
        let fin = bk_view(v@);
        assert(fin.drop_last() =~= pre);
        assert(fin[fin.len() - 1] == (k@, fails, at));
    }
}

/// The dispatcher's persistent tables, its in-memory backoff map, and the
/// set of destinations whose transaction is in flight.
pub struct Dispatcher {
    pub pending: KeySet,
    pub current: KeySet,
    pub backoff: Vec<(Vec<u8>, u32, u64)>,
    pub in_flight: KeySet,
}

impl Dispatcher {
    /// Tables are duplicate-free, and every destination with a transaction
    /// in flight holds its reservation marker in `current`. At most one
    /// transaction is in flight per destination: `in_flight` is a set.
    pub open spec fn wf(&self) -> bool {
        &&& self.pending.wf()
        &&& self.current.wf()
        &&& self.in_flight.wf()
        &&& forall|p: Seq<u8>|
            #[trigger] self.in_flight@.contains(p) ==> self.current@.contains(p) && is_marker(p)
    }

    pub fn new() -> (r: Dispatcher)
        ensures
            r.wf(),
            r.pending@ == Seq::<Seq<u8>>::empty(),
            r.current@ == Seq::<Seq<u8>>::empty(),
            r.in_flight@ == Seq::<Seq<u8>>::empty(),
            bk_view(r.backoff@) == Seq::<(Seq<u8>, u32, u64)>::empty(),
    {
        let r = Dispatcher {
            pending: KeySet::new(),
            current: KeySet::new(),
            backoff: Vec::new(),
            in_flight: KeySet::new(),
        };
        proof {
            assert(bk_view(r.backoff@) =~= Seq::<(Seq<u8>, u32, u64)>::empty());
        }
        r
    }

    /// Writes one entry into the pending table: the append pipeline's
    /// enqueue step.
    pub fn enqueue(&mut self, dest: &Destination, pdu_id: &Vec<u8>)
        requires
            old(self).wf(),
            valid_destination(dest@),
            pdu_id@.len() > 0,
        ensures
            final(self).wf(),
            final(self).pending@ == if old(self).pending@.contains(queue_key_v(dest@, pdu_id@)) {
                old(self).pending@
            } else {
                old(self).pending@.push(queue_key_v(dest@, pdu_id@))
            },
            final(self).current@ == old(self).current@,
            final(self).in_flight@ == old(self).in_flight@,
            final(self).backoff@ == old(self).backoff@,
    {
        let key = crate::queue::queue_key(dest, pdu_id);
        self.pending.insert(key);
    }

    /// Reacts to one pending-table wakeup. The key is decoded; a
    /// destination inside its backoff window, or one whose reservation is
    /// already held, is left for a later wakeup or for the completion of
    /// the running transaction. Otherwise the reservation is taken, the
    /// entry moves from pending to current, and a transaction for exactly
    /// this PDU starts.
    pub fn on_queue_event(&mut self, key: &Vec<u8>, now_ms: u64) -> (r: Option<TxnStart>)
        requires
            old(self).wf(),
        ensures
            final(self).wf(),
            // within the backoff window nothing is issued and nothing moves
            ({
                let parsed = parse_queue_key_v(key@);
                let rec = bk_of(bk_view(old(self).backoff@), queue_prefix_v(parsed->Some_0.0));
                parsed is Some && rec is Some && (now_ms as int) < (rec->Some_0.1 as int)
                    + backoff_window_ms(rec->Some_0.0) ==> r is None
            }),
            // a decodable key past its window with a free reservation starts
            ({
                let parsed = parse_queue_key_v(key@);
                let prefix = queue_prefix_v(parsed->Some_0.0);
                let rec = bk_of(bk_view(old(self).backoff@), prefix);
                let blocked = rec is Some && (now_ms as int) < (rec->Some_0.1 as int)
                    + backoff_window_ms(rec->Some_0.0);
                parsed is Some && !blocked && !old(self).current@.contains(prefix) ==> r is Some
            }),
            match r {
                Some(tx) => {
                    let parsed = parse_queue_key_v(key@);
                    let prefix = queue_prefix_v(tx.dest@);
                    &&& parsed is Some
                    &&& tx.dest@ == parsed->Some_0.0
                    &&& valid_destination(tx.dest@)
                    &&& keys_view(tx.pdu_ids@) == seq![parsed->Some_0.1]
                    // the reservation was free and is now held
                    &&& !old(self).current@.contains(prefix)
                    &&& !old(self).in_flight@.contains(prefix)
                    &&& final(self).in_flight@ == old(self).in_flight@.push(prefix)
                    // the entry moved from pending to current
                    &&& final(self).pending@ == old(self).pending@.filter(
                        |x: Seq<u8>| x != key@,
                    )
                    &&& final(self).current@ == if old(self).current@.contains(key@) || key@
                        == prefix {
                        old(self).current@.push(prefix)
                    } else {
                        old(self).current@.push(prefix).push(key@)
                    }
                    &&& final(self).backoff@ == old(self).backoff@
                },
                None => {
                    &&& final(self).pending@ == old(self).pending@
                    &&& final(self).current@ == old(self).current@
                    &&& final(self).in_flight@ == old(self).in_flight@
                    &&& final(self).backoff@ == old(self).backoff@
                },
            },
    {
        let parsed = match parse_queue_key(key) {
            Some(p) => p,
            None => {
                return None;
            },
        };
        let dest = parsed.0;
        let pdu_id = parsed.1;
        proof {
            lemma_parse_valid(key@);
        }
        let prefix = queue_prefix(&dest);
        match bk_lookup(&self.backoff, &prefix) {
            Some((fails, last)) => {
                let window = backoff_window(fails);
                let blocked = if now_ms < last {
                    true
                } else {
                    now_ms - last < window
                };
                if blocked {
                    return None;
                }
            },
            None => {},
        }
        if self.current.contains(&prefix) {
            return None;
        }
        let ghost cur0 = self.current@;
        self.current.insert(bytes_clone(&prefix));
        let ghost cur1 = self.current@;
        self.current.insert(bytes_clone(key));
        self.pending.remove(key);
        let ghost if0 = self.in_flight@;
        self.in_flight.insert(bytes_clone(&prefix));
        proof {
            lemma_prefix_is_marker(dest@);
            // the reservation was genuinely free
            assert(!old(self).in_flight@.contains(queue_prefix_v(dest@)));
            assert(cur1.contains(key@) <==> (cur0.contains(key@) || key@ == prefix@)) by {
                if cur0.contains(key@) {
                    let u = choose|u: int| 0 <= u < cur0.len() && cur0[u] == key@;
                    assert(cur1[u] == key@);
                }
                if key@ == prefix@ {
                    assert(cur1[cur0.len() as int] == prefix@);
                }
                if cur1.contains(key@) {
                    let u = choose|u: int| 0 <= u < cur1.len() && cur1[u] == key@;
                    if u < cur0.len() {
                        assert(cur0[u] == key@);
                    } else {
                        assert(cur1[u] == prefix@);
                    }
                }
            }
            if if0.contains(prefix@) {
                assert(cur0.contains(prefix@));
            }
            assert(self.in_flight@ == if0.push(prefix@));
            assert forall|p: Seq<u8>| #[trigger] self.in_flight@.contains(p)
                implies self.current@.contains(p) && is_marker(p) by {
                let t = choose|t: int|
                    0 <= t < self.in_flight@.len() && self.in_flight@[t] == p;
                if t < if0.len() {
                    assert(if0[t] == p);
                    assert(if0.contains(p));
                    assert(cur0.contains(p));
                    let u = choose|u: int| 0 <= u < cur0.len() && cur0[u] == p;
                    assert(cur1[u] == p);
                    assert(self.current@.contains(p)) by {
                        if self.current@ == cur1 {
                        } else {
                            assert(self.current@[u] == cur1[u]);
                        }
                    }
                } else {
                    assert(p == prefix@);
                    assert(cur1[cur0.len() as int] == prefix@);
                    assert(self.current@.contains(prefix@)) by {
                        if self.current@ == cur1 {
                            assert(self.current@[cur0.len() as int] == prefix@);
                        } else {
                            assert(self.current@[cur0.len() as int] == cur1[cur0.len() as int]);
                        }
                    }
                }
            }
        }
        let mut ids: Vec<Vec<u8>> = Vec::new();
        ids.push(pdu_id);
        proof {
            assert(keys_view(ids@) =~= seq![parse_queue_key_v(key@)->Some_0.1]);
        }
        Some(TxnStart { dest, pdu_ids: ids })
    }

    /// Reacts to a failed transaction: the failure count rises, the clock
    /// of the backoff window restarts, and the reservation is surrendered;
    /// the in-flight entries stay in `current`, so the next wakeup past
    /// the window retries them without loss.
    pub fn on_transaction_failure(&mut self, dest: &Destination, now_ms: u64)
        requires
            old(self).wf(),
            valid_destination(dest@),
            old(self).in_flight@.contains(queue_prefix_v(dest@)),
        ensures
            final(self).wf(),
            final(self).pending@ == old(self).pending@,
            // only the reservation marker leaves `current`
            final(self).current@ == old(self).current@.filter(
                |x: Seq<u8>| x != queue_prefix_v(dest@),
            ),
            final(self).in_flight@ == old(self).in_flight@.filter(
                |x: Seq<u8>| x != queue_prefix_v(dest@),
            ),
            // the failure record counts one more failure, now
            ({
                let rec = bk_of(bk_view(old(self).backoff@), queue_prefix_v(dest@));
                let fails = if rec is Some && rec->Some_0.0 < u32::MAX {
                    (rec->Some_0.0 + 1) as u32
                } else if rec is Some {
                    u32::MAX
                } else {
                    1u32
                };
                bk_of(bk_view(final(self).backoff@), queue_prefix_v(dest@)) == Some(
                    (fails, now_ms),
                )
            }),
            forall|k2: Seq<u8>|
                k2 != queue_prefix_v(dest@) ==> #[trigger] bk_of(bk_view(final(self).backoff@), k2)
                    == bk_of(bk_view(old(self).backoff@), k2),
    {
        let prefix = queue_prefix(dest);
        let fails = match bk_lookup(&self.backoff, &prefix) {
            Some((f, _)) => if f < u32::MAX {
                f + 1
            } else {
                f
            },
            None => 1,
        };
        bk_set(&mut self.backoff, &prefix, fails, now_ms);
        self.current.remove(&prefix);
        self.in_flight.remove(&prefix);
        proof {
            let pv = queue_prefix_v(dest@);
            lemma_filter_congruent(
                old(self).current@,
                |x: Seq<u8>| x != prefix@,
                |x: Seq<u8>| x != pv,
            );
            lemma_filter_congruent(
                old(self).in_flight@,
                |x: Seq<u8>| x != prefix@,
                |x: Seq<u8>| x != pv,
            );
            lemma_filter_membership(
                old(self).in_flight@,
                |x: Seq<u8>| x != pv,
                self.in_flight@,
            );
            lemma_filter_membership(
                old(self).current@,
                |x: Seq<u8>| x != pv,
                self.current@,
            );
            assert forall|p: Seq<u8>| #[trigger] self.in_flight@.contains(p)
                implies self.current@.contains(p) && is_marker(p) by {
                assert(old(self).in_flight@.contains(p) && p != pv);
                assert(old(self).current@.contains(p));
            }
        }
    }

    /// Reacts to a delivered transaction: its entries leave `current`, the
    /// failure record clears, and either a next batch of up to fifty
    /// pending entries for the same destination starts at once (the
    /// reservation stays held), or the reservation is surrendered.
    #[verifier::rlimit(100)]
    pub fn on_transaction_success(&mut self, dest: &Destination) -> (r: Option<TxnStart>)
        requires
            old(self).wf(),
            valid_destination(dest@),
            old(self).in_flight@.contains(queue_prefix_v(dest@)),
        ensures
            final(self).wf(),
            // the failure record is cleared
            bk_fails(bk_view(final(self).backoff@), queue_prefix_v(dest@)) == 0,
            forall|k2: Seq<u8>|
                k2 != queue_prefix_v(dest@) ==> #[trigger] bk_of(bk_view(final(self).backoff@), k2)
                    == bk_of(bk_view(old(self).backoff@), k2),
            // only keys of this destination leave either table
            (forall|x: Seq<u8>|
                #[trigger] old(self).pending@.contains(x) && !has_prefix(
                    x,
                    queue_prefix_v(dest@),
                ) ==> final(self).pending@.contains(x)),
            (forall|x: Seq<u8>|
                #[trigger] old(self).current@.contains(x) && !has_prefix(
                    x,
                    queue_prefix_v(dest@),
                ) ==> final(self).current@.contains(x)),
            // a waiting entry for this destination starts the next batch
            ((exists|x: Seq<u8>|
                #[trigger] old(self).pending@.contains(x) && has_prefix(
                    x,
                    queue_prefix_v(dest@),
                )) <==> r is Some),
            match r {
                Some(tx) => {
                    let prefix = queue_prefix_v(dest@);
                    &&& tx.dest@ == dest@
                    // a non-empty batch of at most fifty moved over
                    &&& 1 <= tx.pdu_ids@.len() <= 50
                    &&& (forall|i: int|
                        0 <= i < tx.pdu_ids@.len() ==> old(self).pending@.contains(
                            queue_key_v(dest@, #[trigger] keys_view(tx.pdu_ids@)[i]),
                        ) && final(self).current@.contains(
                            queue_key_v(dest@, keys_view(tx.pdu_ids@)[i]),
                        ))
                    // the delivered entries left; only the batch came in
                    &&& (forall|x: Seq<u8>|
                        #[trigger] final(self).current@.contains(x) ==> (old(
                            self,
                        ).current@.contains(x) && !(has_prefix(x, prefix) && x.len()
                            > prefix.len())) || (exists|i: int|
                            0 <= i < tx.pdu_ids@.len() && x == queue_key_v(
                                dest@,
                                #[trigger] keys_view(tx.pdu_ids@)[i],
                            )))
                    // the batch left the pending table; everything else stays
                    &&& (forall|x: Seq<u8>|
                        #[trigger] final(self).pending@.contains(x) ==> old(
                            self,
                        ).pending@.contains(x))
                    &&& (forall|x: Seq<u8>|
                        #[trigger] old(self).pending@.contains(x) && (forall|i: int|
                            0 <= i < tx.pdu_ids@.len() ==> x != queue_key_v(
                                dest@,
                                #[trigger] keys_view(tx.pdu_ids@)[i],
                            )) ==> final(self).pending@.contains(x))
                    // the reservation stays held
                    &&& final(self).in_flight@ == old(self).in_flight@
                    &&& final(self).current@.contains(prefix)
                },
                None => {
                    // nothing was waiting: the reservation is surrendered
                    &&& final(self).in_flight@ == old(self).in_flight@.filter(
                        |x: Seq<u8>| x != queue_prefix_v(dest@),
                    )
                    &&& final(self).pending@ == old(self).pending@
                    // exactly this destination's keys and marker left
                    &&& (forall|x: Seq<u8>|
                        #[trigger] final(self).current@.contains(x) <==> old(
                            self,
                        ).current@.contains(x) && !(has_prefix(x, queue_prefix_v(dest@)) && x.len()
                            > queue_prefix_v(dest@).len()) && x != queue_prefix_v(dest@))
                },
            },
    {
        let prefix = queue_prefix(dest);
        let ghost pv = queue_prefix_v(dest@);
        proof {
            lemma_prefix_is_marker(dest@);
        }
        // clear the failure record
        bk_set(&mut self.backoff, &prefix, 0, 0);
        // drop the delivered entries, keep the marker
        self.current.remove_prefix_longer(&prefix);
        let ghost mid_current = self.current@;
        proof {
            lemma_filter_congruent(
                old(self).current@,
                |x: Seq<u8>| !(has_prefix(x, prefix@) && x.len() > prefix@.len()),
                |x: Seq<u8>| !(has_prefix(x, pv) && x.len() > pv.len()),
            );
            lemma_filter_membership(
                old(self).current@,
                |x: Seq<u8>| !(has_prefix(x, pv) && x.len() > pv.len()),
                mid_current,
            );
        }
        // drain what arrived meanwhile
        let mut batch = self.pending.scan_prefix(&prefix);
        batch.truncate(50);
        let ghost full = old(self).pending@.filter(|x: Seq<u8>| has_prefix(x, pv));
        proof {
            lemma_filter_congruent(
                old(self).pending@,
                |x: Seq<u8>| has_prefix(x, prefix@),
                |x: Seq<u8>| has_prefix(x, pv),
            );
            lemma_filter_membership(old(self).pending@, |x: Seq<u8>| has_prefix(x, pv), full);
            lemma_filter_elements(old(self).pending@, |x: Seq<u8>| has_prefix(x, pv));
            if batch@.len() < full.len() {
                assert(keys_view(batch@) =~= full.subrange(0, 50));
            } else {
                assert(keys_view(batch@) =~= full);
            }
            assert forall|t: int| 0 <= t < batch@.len() implies has_prefix(
                #[trigger] keys_view(batch@)[t],
                pv,
            ) && old(self).pending@.contains(keys_view(batch@)[t]) by {
                assert(keys_view(batch@)[t] == full[t]);
                old(self).pending@.lemma_filter_pred(|x: Seq<u8>| has_prefix(x, pv), t);
            }
        }
        if batch.len() == 0 {
            self.current.remove(&prefix);
            self.in_flight.remove(&prefix);
            proof {
                lemma_filter_congruent(
                    mid_current,
                    |x: Seq<u8>| x != prefix@,
                    |x: Seq<u8>| x != pv,
                );
                lemma_filter_congruent(
                    old(self).in_flight@,
                    |x: Seq<u8>| x != prefix@,
                    |x: Seq<u8>| x != pv,
                );
                lemma_filter_membership(mid_current, |x: Seq<u8>| x != pv, self.current@);
                lemma_filter_membership(
                    old(self).in_flight@,
                    |x: Seq<u8>| x != pv,
                    self.in_flight@,
                );
                assert forall|p: Seq<u8>| #[trigger] self.in_flight@.contains(p)
                    implies self.current@.contains(p) && is_marker(p) by {
                    assert(old(self).in_flight@.contains(p) && p != pv);
                    assert(old(self).current@.contains(p) && is_marker(p));
                    lemma_markers_no_extend(p, pv);
                    assert(mid_current.contains(p));
                }
                assert forall|x: Seq<u8>|
                    #[trigger] old(self).current@.contains(x) && !has_prefix(x, pv)
                    implies self.current@.contains(x) by {
                    assert(x != pv) by {
                        if x == pv {
                            assert(pv.subrange(0, pv.len() as int) =~= pv);
                        }
                    }
                    assert(mid_current.contains(x));
                }
                // the pending table was untouched: full scan only read it
                assert(self.pending@ == old(self).pending@);
                // an empty batch means nothing with this prefix was pending
                assert(full.len() == 0) by {
                    if batch@.len() < full.len() {
                        assert(keys_view(batch@).len() == 50);
                    }
                }
                assert forall|x: Seq<u8>| #[trigger] old(self).pending@.contains(x)
                    implies !has_prefix(x, pv) by {
                    if has_prefix(x, pv) {
                        assert(full.contains(x));
                    }
                }
            }
            return None;
        }
        // move the batch into current, strip the prefix off each key
        let mut ids: Vec<Vec<u8>> = Vec::new();
        let mut i: usize = 0;
        let ghost pend0 = self.pending@;
        let ghost bk0 = self.backoff@;
        proof {
            assert(pend0 == old(self).pending@);
        }
        while i < batch.len()
            invariant
                0 <= i <= batch@.len(),
                1 <= batch@.len() <= 50,
                pend0 == old(self).pending@,
                self.pending.wf(),
                self.current.wf(),
                self.in_flight.wf(),
                    pv == queue_prefix_v((*dest)@),
                prefix@ == pv,
                is_marker(pv),
                forall|t: int|
                    0 <= t < batch@.len() ==> has_prefix(
                        #[trigger] keys_view(batch@)[t],
                        pv,
                    ) && pend0.contains(keys_view(batch@)[t]),
                ids@.len() == i,
                forall|t: int|
                    0 <= t < i ==> queue_key_v((*dest)@, (#[trigger] keys_view(ids@))[t])
                        == keys_view(batch@)[t],
                forall|t: int|
                    0 <= t < i ==> self.current@.contains(#[trigger] keys_view(batch@)[t]),
                forall|x: Seq<u8>|
                    #[trigger] mid_current.contains(x) ==> self.current@.contains(x),
                forall|x: Seq<u8>|
                    #[trigger] self.current@.contains(x) ==> mid_current.contains(x) || (exists|
                    t: int|
                        0 <= t < i && x == #[trigger] keys_view(batch@)[t]),
                forall|x: Seq<u8>|
                    #[trigger] self.pending@.contains(x) ==> pend0.contains(x),
                forall|x: Seq<u8>|
                    #[trigger] pend0.contains(x) && !has_prefix(x, pv)
                        ==> self.pending@.contains(x),
                forall|x: Seq<u8>|
                    #[trigger] pend0.contains(x) && (forall|t: int|
                        0 <= t < i ==> x != #[trigger] keys_view(batch@)[t])
                        ==> self.pending@.contains(x),
                forall|x: Seq<u8>|
                    #[trigger] self.pending@.contains(x) ==> (forall|t: int|
                        0 <= t < i ==> x != #[trigger] keys_view(batch@)[t]),
                self.in_flight@ == old(self).in_flight@,
                self.backoff@ == bk0,
            decreases batch@.len() - i,
        {
            let key = bytes_clone(&batch[i]);
            proof {
                assert(keys_view(batch@)[i as int] == batch@[i as int]@);
            }
            let mut id: Vec<u8> = Vec::new();
            let mut t: usize = prefix.len();
            proof {
                assert(has_prefix(key@, pv));
                assert(id@ =~= key@.subrange(pv.len() as int, prefix@.len() as int));
            }
            while t < key.len()
                invariant
                    prefix@ == pv,
                    has_prefix(key@, pv),
                    pv.len() <= t <= key@.len(),
                    id@ == key@.subrange(pv.len() as int, t as int),
                decreases key@.len() - t,
            {
                id.push(key[t]);
                proof {
                    assert(id@ =~= key@.subrange(pv.len() as int, t + 1));
                }
                t = t + 1;
            }
            proof {
                assert(queue_key_v((*dest)@, id@) =~= key@) by {
                    assert(key@.subrange(0, pv.len() as int) == pv);
                    assert(id@ == key@.subrange(pv.len() as int, key@.len() as int));
                }
            }
            let ghost cur_pre = self.current@;
            self.current.insert(bytes_clone(&key));
            proof {
                assert forall|x: Seq<u8>| #[trigger] cur_pre.contains(x)
                    implies self.current@.contains(x) by {
                    let u = choose|u: int| 0 <= u < cur_pre.len() && cur_pre[u] == x;
                    if self.current@ != cur_pre {
                        assert(self.current@[u] == x);
                    }
                }
                if !cur_pre.contains(key@) {
                    assert(self.current@[cur_pre.len() as int] == key@);
                }
                assert(self.current@.contains(key@));
                assert forall|x: Seq<u8>| #[trigger] self.current@.contains(x)
                    implies mid_current.contains(x) || (exists|t: int|
                    0 <= t < i + 1 && x == #[trigger] keys_view(batch@)[t]) by {
                    let u = choose|u: int|
                        0 <= u < self.current@.len() && self.current@[u] == x;
                    if self.current@ == cur_pre {
                        assert(cur_pre.contains(x));
                    } else if u < cur_pre.len() {
                        assert(cur_pre[u] == x);
                        assert(cur_pre.contains(x));
                    } else {
                        assert(x == key@);
                        assert(keys_view(batch@)[i as int] == key@);
                        assert(0 <= i < i + 1 && x == keys_view(batch@)[i as int]);
                    }
                    if cur_pre.contains(x) && !mid_current.contains(x) {
                        let t = choose|t: int|
                            0 <= t < i && x == #[trigger] keys_view(batch@)[t];
                        assert(0 <= t < i + 1 && x == keys_view(batch@)[t]);
                    }
                }
            }
            let ghost pend_pre = self.pending@;
            self.pending.remove(&key);
            proof {
                lemma_filter_membership(pend_pre, |x: Seq<u8>| x != key@, self.pending@);
                assert forall|x: Seq<u8>|
                    #[trigger] pend0.contains(x) && !has_prefix(x, pv)
                    implies self.pending@.contains(x) by {
                    assert(pend_pre.contains(x));
                    assert(x != key@) by {
                        assert(has_prefix(key@, pv));
                    }
                }
            }
            ids.push(id);
            proof {
                assert(keys_view(ids@)[i as int] == ids@[i as int]@);
                assert forall|u: int| 0 <= u < i + 1 implies queue_key_v(
                    (*dest)@,
                    (#[trigger] keys_view(ids@))[u],
                ) == keys_view(batch@)[u] by {
                    assert(keys_view(ids@)[u] == ids@[u]@);
                }
                assert forall|t2: int| 0 <= t2 < i + 1 implies self.current@.contains(
                    #[trigger] keys_view(batch@)[t2],
                ) by {
                    if t2 < i {
                        assert(cur_pre.contains(keys_view(batch@)[t2]));
                        let u = choose|u: int|
                            0 <= u < cur_pre.len() && cur_pre[u] == keys_view(batch@)[t2];
                        if self.current@ != cur_pre {
                            assert(self.current@[u] == cur_pre[u]);
                        }
                    }
                }
            }
            i = i + 1;
        }
        proof {
            // the marker and the other destinations' keys are still there
            assert forall|p: Seq<u8>| #[trigger] self.in_flight@.contains(p)
                implies self.current@.contains(p) && is_marker(p) by {
                assert(old(self).in_flight@.contains(p));
                assert(old(self).current@.contains(p) && is_marker(p));
                if p == pv {
                    assert(!(has_prefix(pv, pv) && pv.len() > pv.len()));
                    assert(mid_current.contains(p));
                } else {
                    lemma_markers_no_extend(p, pv);
                    assert(mid_current.contains(p));
                }
            }
            assert(old(self).in_flight@.contains(pv));
            assert(self.current@.contains(pv));
            assert forall|x: Seq<u8>|
                #[trigger] old(self).current@.contains(x) && !has_prefix(x, pv)
                implies self.current@.contains(x) by {
                assert(mid_current.contains(x));
            }
        }
        proof {
            assert(1 <= ids@.len() <= 50);
            assert forall|t: int| 0 <= t < ids@.len() implies old(self).pending@.contains(
                queue_key_v(dest@, #[trigger] keys_view(ids@)[t]),
            ) && self.current@.contains(queue_key_v(dest@, keys_view(ids@)[t])) by {
                assert(queue_key_v(dest@, keys_view(ids@)[t]) == keys_view(batch@)[t]);
                assert(pend0.contains(keys_view(batch@)[t]));
                assert(self.current@.contains(keys_view(batch@)[t]));
            }
            assert(self.in_flight@ == old(self).in_flight@);
            assert(bk_fails(bk_view(self.backoff@), queue_prefix_v(dest@)) == 0);
            // the batch's first key witnesses the waiting entry
            assert(old(self).pending@.contains(keys_view(batch@)[0]) && has_prefix(
                keys_view(batch@)[0],
                pv,
            ));
            // current: delivered entries out, batch in
            assert forall|x: Seq<u8>| #[trigger] self.current@.contains(x) implies (old(
                self,
            ).current@.contains(x) && !(has_prefix(x, pv) && x.len() > pv.len())) || (exists|
            t: int|
                0 <= t < ids@.len() && x == queue_key_v(dest@, #[trigger] keys_view(ids@)[t])) by {
                if mid_current.contains(x) {
                } else {
                    let t = choose|t: int|
                        0 <= t < ids@.len() && x == #[trigger] keys_view(batch@)[t];
                    assert(queue_key_v(dest@, keys_view(ids@)[t]) == keys_view(batch@)[t]);
                }
            }
            // pending: exactly the batch left
            assert forall|x: Seq<u8>|
                #[trigger] old(self).pending@.contains(x) && (forall|t: int|
                    0 <= t < ids@.len() ==> x != queue_key_v(
                        dest@,
                        #[trigger] keys_view(ids@)[t],
                    )) implies self.pending@.contains(x) by {
                assert forall|t: int| 0 <= t < ids@.len() implies x != #[trigger] keys_view(
                    batch@,
                )[t] by {
                    assert(queue_key_v(dest@, keys_view(ids@)[t]) == keys_view(batch@)[t]);
                }
            }
            assert(forall|x: Seq<u8>|
                #[trigger] self.current@.contains(x) ==> (old(self).current@.contains(x) && !(
                has_prefix(x, pv) && x.len() > pv.len())) || (exists|t: int|
                    0 <= t < ids@.len() && x == queue_key_v(
                        dest@,
                        #[trigger] keys_view(ids@)[t],
                    )));
            assert(forall|x: Seq<u8>| #[trigger] self.pending@.contains(x) ==> old(
                self,
            ).pending@.contains(x));
            assert(forall|x: Seq<u8>|
                #[trigger] old(self).pending@.contains(x) && (forall|t: int|
                    0 <= t < ids@.len() ==> x != queue_key_v(
                        dest@,
                        #[trigger] keys_view(ids@)[t],
                    )) ==> self.pending@.contains(x));
            assert(self.current@.contains(pv));
        }
        let cd = clone_dest(dest);
        let tx = TxnStart { dest: cd, pdu_ids: ids };
        proof {
            assert(tx.dest@ == dest@);
            assert(1 <= tx.pdu_ids@.len() <= 50);
            assert(forall|t: int|
                0 <= t < tx.pdu_ids@.len() ==> old(self).pending@.contains(
                    queue_key_v(dest@, #[trigger] keys_view(tx.pdu_ids@)[t]),
                ) && self.current@.contains(queue_key_v(dest@, keys_view(tx.pdu_ids@)[t])));
            assert(forall|x: Seq<u8>|
                #[trigger] self.current@.contains(x) ==> (old(self).current@.contains(x) && !(
                has_prefix(x, pv) && x.len() > pv.len())) || (exists|t: int|
                    0 <= t < tx.pdu_ids@.len() && x == queue_key_v(
                        dest@,
                        #[trigger] keys_view(tx.pdu_ids@)[t],
                    )));
            assert(forall|x: Seq<u8>|
                #[trigger] old(self).pending@.contains(x) && (forall|t: int|
                    0 <= t < tx.pdu_ids@.len() ==> x != queue_key_v(
                        dest@,
                        #[trigger] keys_view(tx.pdu_ids@)[t],
                    )) ==> self.pending@.contains(x));
            assert(self.wf());
        }
        Some(tx)
    }
}

/// A copy of a destination.
pub fn clone_dest(d: &Destination) -> (r: Destination)
    ensures
        r@ == d@,
{
    match d {
        Destination::Normal(s) => Destination::Normal(bytes_clone(s)),
        Destination::Appservice(s) => Destination::Appservice(bytes_clone(s)),
        Destination::Push(s) => Destination::Push(bytes_clone(s)),
    }
}

} // verus!
