use sending::key::{encode_key, Destination};
use sending::scheduler::{Scheduler, Transition};
use sending::store::{Table, Write};

fn server(name: &str) -> Destination {
    Destination::server(name.as_bytes().to_vec())
}

fn appservice(id: &str) -> Destination {
    Destination::appservice(id.as_bytes().to_vec())
}

fn ids(list: &[&str]) -> Vec<Vec<u8>> {
    list.iter().map(|s| s.as_bytes().to_vec()).collect()
}

fn write(w: &Write) -> (Table, bool, Vec<u8>) {
    (w.table, w.insert, w.key.clone())
}

fn writes(t: &Transition) -> Vec<(Table, bool, Vec<u8>)> {
    t.writes.iter().map(write).collect()
}

fn counts(s: &Scheduler, d: &Destination) -> (usize, usize, bool, bool, u32) {
    match s.lane_state(d) {
        Some(l) => (l.pending.len(), l.in_flight.len(), l.marker, l.sending, l.failures),
        None => (0, 0, false, false, 0),
    }
}

#[test]
fn single_pdu_is_sent_and_cleared() {
    let d = server("s.example");
    let mut s = Scheduler::new();
    let t = s.notify(&d, b"P1".to_vec(), 0);
    assert_eq!(t.send, Some(ids(&["P1"])));
    assert_eq!(
        writes(&t),
        vec![
            (Table::InFlight, true, b"s.example\xff".to_vec()),
            (Table::InFlight, true, b"s.example\xffP1".to_vec()),
            (Table::Pending, false, b"s.example\xffP1".to_vec()),
        ]
    );
    let done = s.complete_success(&d);
    assert_eq!(done.send, None);
    assert_eq!(
        writes(&done),
        vec![
            (Table::InFlight, false, b"s.example\xffP1".to_vec()),
            (Table::InFlight, false, b"s.example\xff".to_vec()),
        ]
    );
    assert_eq!(counts(&s, &d), (0, 0, false, false, 0));
}

#[test]
fn second_pdu_waits_for_first() {
    let d = server("s.example");
    let mut s = Scheduler::new();
    assert_eq!(s.notify(&d, b"P1".to_vec(), 0).send, Some(ids(&["P1"])));
    let t = s.notify(&d, b"P2".to_vec(), 0);
    assert_eq!(t.send, None);
    assert!(t.writes.is_empty());
    let next = s.complete_success(&d);
    assert_eq!(next.send, Some(ids(&["P2"])));
    assert_eq!(s.complete_success(&d).send, None);
    assert_eq!(counts(&s, &d), (0, 0, false, false, 0));
}

#[test]
fn fifty_pdus_go_in_batches_of_thirty_and_twenty() {
    let d = server("s.example");
    let mut s = Scheduler::new();
    let all: Vec<Vec<u8>> = (0..50).map(|i| format!("P{:02}", i).into_bytes()).collect();
    for id in &all {
        assert!(s.enqueue(&d, id.clone()));
    }
    let first = s.on_enqueued(&d, 0).unwrap();
    assert_eq!(first, all[..30].to_vec());
    let second = s.complete_success(&d);
    assert_eq!(second.send, Some(all[30..].to_vec()));
    assert_eq!(second.writes.len(), 30 + 1 + 2 * 20);
    assert_eq!(s.complete_success(&d).send, None);
}

#[test]
fn failure_holds_off_until_window_passes() {
    let d = server("s.example");
    let mut s = Scheduler::new();
    assert_eq!(s.notify(&d, b"P1".to_vec(), 0).send, Some(ids(&["P1"])));
    s.complete_failure(&d, 0);
    assert_eq!(counts(&s, &d), (0, 1, true, false, 1));
    assert_eq!(s.notify(&d, b"P2".to_vec(), 10).send, None);
    let retry = s.notify(&d, b"P2".to_vec(), 120);
    assert_eq!(retry.send, Some(ids(&["P1"])));
    let next = s.complete_success(&d);
    assert_eq!(counts(&s, &d).4, 0);
    assert_eq!(next.send, Some(ids(&["P2"])));
}

#[test]
fn backoff_grows_with_failures() {
    let d = server("s.example");
    let mut s = Scheduler::new();
    s.notify(&d, b"P1".to_vec(), 0);
    s.complete_failure(&d, 0);
    assert_eq!(s.notify(&d, b"P2".to_vec(), 60).send, Some(ids(&["P1"])));
    s.complete_failure(&d, 100);
    assert_eq!(counts(&s, &d).4, 2);
    assert_eq!(s.notify(&d, b"P3".to_vec(), 339).send, None);
    assert_eq!(s.notify(&d, b"P4".to_vec(), 340).send, Some(ids(&["P1"])));
}

#[test]
fn restart_resends_reserved_batch() {
    let d = server("s.example");
    let mut s = Scheduler::new();
    let marker = s.recover_key(b"s.example\xff");
    assert_eq!(marker.len(), 1);
    assert!(s.recover_key(b"s.example\xffP1").is_empty());
    let out = s.resume();
    assert_eq!(out.len(), 1);
    assert!(out[0].dest.same(&d));
    assert_eq!(out[0].pdus, ids(&["P1"]));
    assert!(s.resume().is_empty());
}

#[test]
fn recovery_caps_each_destination() {
    let d = server("s.example");
    let mut s = Scheduler::new();
    let mut dropped = 0;
    for i in 0..35 {
        let key = encode_key(&d, format!("P{:02}", i).as_bytes());
        if !s.recover_key(&key).is_empty() {
            dropped += 1;
        }
    }
    assert_eq!(dropped, 5);
    assert!(!s.recover_key(b"no separator").is_empty());
    let out = s.resume();
    assert_eq!(out.len(), 1);
    assert_eq!(out[0].pdus.len(), 30);
}

#[test]
fn appservice_and_server_of_same_name_are_independent() {
    let bridge = appservice("bridge1");
    let host = server("bridge1");
    let mut s = Scheduler::new();
    let a = s.notify(&bridge, b"P1".to_vec(), 0);
    let b = s.notify(&host, b"P2".to_vec(), 0);
    assert_eq!(a.send, Some(ids(&["P1"])));
    assert_eq!(b.send, Some(ids(&["P2"])));
    assert_eq!(write(&a.writes[1]).2, b"+bridge1\xffP1".to_vec());
    assert_eq!(write(&b.writes[1]).2, b"bridge1\xffP2".to_vec());
    s.complete_failure(&bridge, 0);
    assert_eq!(s.complete_success(&host).send, None);
    assert_eq!(counts(&s, &host), (0, 0, false, false, 0));
    assert_eq!(counts(&s, &bridge), (0, 1, true, false, 1));
}

#[test]
fn invariants_hold_along_a_run() {
    let d = server("s.example");
    let mut s = Scheduler::new();
    s.notify(&d, b"P1".to_vec(), 0);
    s.notify(&d, b"P2".to_vec(), 0);
    // a key already reserved is not queued twice
    let again = s.notify(&d, b"P1".to_vec(), 0);
    assert_eq!(writes(&again), vec![(Table::Pending, false, b"s.example\xffP1".to_vec())]);
    assert_eq!(counts(&s, &d), (1, 1, true, true, 0));
    // only one transaction at a time
    assert_eq!(s.on_enqueued(&d, 0), None);
    assert!(!s.enqueue(&d, b"P2".to_vec()));
    assert!(!s.enqueue(&d, Vec::new()));
    assert!(!s.enqueue(&d, b"P\xff3".to_vec()));
}

#[test]
fn delivery_follows_enqueue_order() {
    let d = server("s.example");
    let mut s = Scheduler::new();
    assert_eq!(s.notify(&d, b"A".to_vec(), 0).send, Some(ids(&["A"])));
    s.notify(&d, b"B".to_vec(), 0);
    s.notify(&d, b"C".to_vec(), 0);
    assert_eq!(s.complete_success(&d).send, Some(ids(&["B", "C"])));
    s.notify(&d, b"D".to_vec(), 0);
    assert_eq!(s.complete_success(&d).send, Some(ids(&["D"])));
}
