use sending::backoff::{admits, backoff_window};
use sending::key::{decode_key, encode_key, Destination};
use sending::txn::{join_ids, resolved, transaction_id};

fn server(name: &str) -> Destination {
    Destination::server(name.as_bytes().to_vec())
}

fn appservice(id: &str) -> Destination {
    Destination::appservice(id.as_bytes().to_vec())
}

#[test]
fn server_key_layout() {
    assert_eq!(encode_key(&server("s.example"), b"P1"), b"s.example\xffP1".to_vec());
}

#[test]
fn appservice_key_layout() {
    assert_eq!(encode_key(&appservice("bridge1"), b"P1"), b"+bridge1\xffP1".to_vec());
    assert_eq!(appservice("bridge1").encode_prefix(), b"+bridge1\xff".to_vec());
}

#[test]
fn decode_round_trip() {
    let (d, id) = decode_key(b"+bridge1\xffP7").unwrap();
    assert!(d.appservice);
    assert_eq!(d.name, b"bridge1".to_vec());
    assert_eq!(id, b"P7".to_vec());
    let (d, id) = decode_key(b"s.example:8448\xffP1").unwrap();
    assert!(!d.appservice);
    assert_eq!(d.name, b"s.example:8448".to_vec());
    assert_eq!(id, b"P1".to_vec());
}

#[test]
fn decode_marker_has_empty_id() {
    let (d, id) = decode_key(b"s.example\xff").unwrap();
    assert!(d.same(&server("s.example")));
    assert!(id.is_empty());
}

#[test]
fn decode_refuses_bad_keys() {
    assert!(decode_key(b"s.example").is_none());
    assert!(decode_key(b"\xffP1").is_none());
    assert!(decode_key(b"bad name!\xffP1").is_none());
    assert!(decode_key(b"s.ex\xc3\x28ample\xffP1").is_none());
    assert!(decode_key(b"+\xffP1").is_none());
}

#[test]
fn backoff_windows() {
    assert_eq!(backoff_window(0), 0);
    assert_eq!(backoff_window(1), 60);
    assert_eq!(backoff_window(2), 240);
    assert_eq!(backoff_window(37), 82140);
    assert_eq!(backoff_window(38), 86400);
    assert_eq!(backoff_window(u32::MAX), 86400);
}

#[test]
fn backoff_admission() {
    assert!(admits(0, 0, 0));
    assert!(!admits(1, 100, 159));
    assert!(admits(1, 100, 160));
    assert!(!admits(2, 100, 339));
    assert!(admits(2, 100, 340));
    assert!(!admits(1, 100, 50));
}

#[test]
fn joined_ids_use_separator() {
    assert_eq!(join_ids(&vec![b"P1".to_vec(), b"P2".to_vec()]), b"P1\xffP2".to_vec());
    assert!(join_ids(&vec![]).is_empty());
}

#[test]
fn transaction_id_of_single_pdu() {
    assert_eq!(transaction_id(&vec![b"P1".to_vec()]), "--rnwYZntph1GPOuYe2LGQOOWWHo5zaFl0KO_3bkhCo");
}

#[test]
fn transaction_id_is_deterministic() {
    let ids = vec![b"P1".to_vec(), b"P2".to_vec()];
    let a = transaction_id(&ids);
    let b = transaction_id(&ids.clone());
    assert_eq!(a, b);
    assert_eq!(a, "aqHMEkWq73CLHcPc7WHdgTkd6jbNPtdfVGBnYiPlTdw");
    let reversed = vec![b"P2".to_vec(), b"P1".to_vec()];
    assert_ne!(transaction_id(&reversed), a);
}

#[test]
fn unresolved_events_are_skipped() {
    assert_eq!(resolved(vec![Some(1), None, Some(3), None]), vec![1, 3]);
    assert_eq!(resolved::<u8>(vec![None, None]), Vec::<u8>::new());
}
