//! Tests of the outbound dispatcher's decisions: reservation, batching,
//! backoff, and the queue-key codec.

use conduit::dispatch::{backoff_window, Dispatcher};
use conduit::queue::{parse_queue_key, queue_key, queue_prefix, Destination};

fn b(s: &str) -> Vec<u8> {
    s.as_bytes().to_vec()
}

#[test]
fn queue_key_round_trips_every_flavor() {
    for dest in [
        Destination::Normal(b("remote.example")),
        Destination::Appservice(b("bridge")),
        Destination::Push(b("70647531")),
    ] {
        let key = queue_key(&dest, &b("pdu-1"));
        let (d2, pdu) = parse_queue_key(&key).expect("own keys decode");
        assert_eq!(pdu, b("pdu-1"));
        let p1 = queue_prefix(&dest);
        let p2 = queue_prefix(&d2);
        assert_eq!(p1, p2);
    }
}

#[test]
fn queue_key_rejects_garbage() {
    assert!(parse_queue_key(&b("no delimiter")).is_none());
    let mut k = Vec::new();
    k.push(0xffu8);
    k.extend_from_slice(b"pdu");
    assert!(parse_queue_key(&k).is_none());
}

#[test]
fn reservation_admits_one_transaction_per_destination() {
    let mut d = Dispatcher::new();
    let dest = Destination::Normal(b("remote.example"));
    d.enqueue(&dest, &b("p1"));
    d.enqueue(&dest, &b("p2"));
    let k1 = queue_key(&dest, &b("p1"));
    let k2 = queue_key(&dest, &b("p2"));
    let tx = d.on_queue_event(&k1, 0).expect("first wakeup reserves");
    assert_eq!(tx.pdu_ids, vec![b("p1")]);
    // while the transaction runs, the second wakeup is dropped
    assert!(d.on_queue_event(&k2, 0).is_none());
    // completion drains what arrived meanwhile
    let tx2 = d.on_transaction_success(&dest).expect("drains the backlog");
    assert_eq!(tx2.pdu_ids, vec![b("p2")]);
    // nothing else is waiting: the reservation is surrendered
    assert!(d.on_transaction_success(&dest).is_none());
}

#[test]
fn backoff_window_formula() {
    assert_eq!(backoff_window(0), 0);
    assert_eq!(backoff_window(1), 60_000);
    assert_eq!(backoff_window(3), 540_000);
    assert_eq!(backoff_window(37), 82_140_000);
    assert_eq!(backoff_window(38), 86_400_000);
    assert_eq!(backoff_window(1000), 86_400_000);
}

#[test]
fn three_failures_hold_the_destination_back() {
    let mut d = Dispatcher::new();
    let dest = Destination::Normal(b("flaky.example"));
    let key = queue_key(&dest, &b("p1"));
    let mut now: u64 = 1_000_000;
    d.enqueue(&dest, &b("p1"));
    let tx = d.on_queue_event(&key, now).expect("no failures yet");
    assert_eq!(tx.pdu_ids, vec![b("p1")]);
    d.on_transaction_failure(&dest, now);
    // one failure: 60 s
    assert!(d.on_queue_event(&key, now + 59_999).is_none());
    d.enqueue(&dest, &b("p1"));
    now += 60_000;
    d.on_queue_event(&key, now).expect("window passed");
    d.on_transaction_failure(&dest, now);
    // two failures: 240 s
    assert!(d.on_queue_event(&key, now + 239_999).is_none());
    d.enqueue(&dest, &b("p1"));
    now += 240_000;
    d.on_queue_event(&key, now).expect("window passed");
    d.on_transaction_failure(&dest, now);
    // three failures: the next attempt is not issued before 540 s pass
    d.enqueue(&dest, &b("p1"));
    assert!(d.on_queue_event(&key, now + 539_999).is_none());
    assert!(d.on_queue_event(&key, now + 540_000).is_some());
}

#[test]
fn failure_retains_in_flight_entries() {
    let mut d = Dispatcher::new();
    let dest = Destination::Normal(b("remote.example"));
    d.enqueue(&dest, &b("p1"));
    let key = queue_key(&dest, &b("p1"));
    d.on_queue_event(&key, 0).expect("starts");
    d.on_transaction_failure(&dest, 0);
    // the entry is still recorded in the in-flight table
    assert!(d.current.contains(&key));
    // and the reservation marker is gone
    let marker = queue_prefix(&dest);
    assert!(!d.current.contains(&marker));
}

#[test]
fn success_clears_failure_record() {
    let mut d = Dispatcher::new();
    let dest = Destination::Normal(b("remote.example"));
    d.enqueue(&dest, &b("p1"));
    let key = queue_key(&dest, &b("p1"));
    d.on_queue_event(&key, 0).expect("starts");
    d.on_transaction_failure(&dest, 0);
    // blocked right after the failure
    d.enqueue(&dest, &b("p1"));
    assert!(d.on_queue_event(&key, 1).is_none());
    // past the window, the retry succeeds and the record clears
    let tx = d.on_queue_event(&key, 60_000).expect("window passed");
    assert_eq!(tx.pdu_ids, vec![b("p1")]);
    d.on_transaction_success(&dest);
    // no backoff any more: an immediate new send is allowed
    d.enqueue(&dest, &b("p2"));
    let k2 = queue_key(&dest, &b("p2"));
    assert!(d.on_queue_event(&k2, 60_001).is_some());
}

#[test]
fn independent_destinations_do_not_interfere() {
    let mut d = Dispatcher::new();
    let a = Destination::Normal(b("a.example"));
    let p = Destination::Appservice(b("bridge"));
    d.enqueue(&a, &b("p1"));
    d.enqueue(&p, &b("p1"));
    let ka = queue_key(&a, &b("p1"));
    let kp = queue_key(&p, &b("p1"));
    assert!(d.on_queue_event(&ka, 0).is_some());
    assert!(d.on_queue_event(&kp, 0).is_some());
    d.on_transaction_failure(&a, 0);
    // the appservice is unaffected by the peer's failure
    assert!(d.on_transaction_success(&p).is_none());
}
