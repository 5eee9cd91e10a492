use bitswap_engine::block::{new_block, Block, IntegrityError};
use bitswap_engine::cid::{bytes_equal, copy_bytes, ContentId, RAW, SHA2_256, SHA2_512};
use bitswap_engine::engine::{Action, Event, ExchangeEngine};
use bitswap_engine::ledger::{Direction, PeerLedger};
use bitswap_engine::wantlist::{WantList, WantType};
use bitswap_engine::wire::DecodeError;

fn hex(b: &[u8]) -> String {
    b.iter().map(|x| format!("{:02x}", x)).collect()
}

fn id_of(b: &[u8]) -> ContentId {
    ContentId::compute(b)
}

#[test]
fn sha256_digest_of_known_inputs() {
    let empty = ContentId::compute(b"");
    assert_eq!(
        hex(&empty.digest),
        "e3b0c44298fc1c149afbf4c8996fb92427ae41e4649b934ca495991b7852b855"
    );
    let abc = ContentId::compute(b"abc");
    assert_eq!(
        hex(&abc.digest),
        "ba7816bf8f01cfea414140de5dae2223b00361a396177a9cb410ff61f20015ad"
    );
    assert_eq!(abc.hash_code, SHA2_256);
    assert_eq!(abc.codec, RAW);
}

#[test]
fn computed_identifier_verifies_its_payload() {
    let b = new_block(b"Hey bro");
    assert!(Block::verify(b.data(), b.cid()));
    assert!(b.cid().equals(&id_of(b"Hey bro")));
    assert_eq!(b.data(), b"Hey bro");
}

#[test]
fn verification_rejects_other_payload_and_other_hash() {
    let id = id_of(b"Hey bro");
    assert!(!Block::verify(b"Hey bra", &id));
    let other_hash = ContentId::new(0x13, RAW, id.digest.clone());
    assert!(!Block::verify(b"Hey bro", &other_hash));
    let other_codec = ContentId::new(SHA2_256, 0x70, id.digest.clone());
    assert!(Block::verify(b"Hey bro", &other_codec));
}

#[test]
fn checked_block_reports_integrity_error() {
    let id = id_of(b"payload");
    let ok = Block::checked(id.duplicate(), b"payload".to_vec());
    assert!(ok.is_ok());
    let bad = Block::checked(id, b"tampered".to_vec());
    assert!(matches!(bad, Err(IntegrityError)));
}

#[test]
fn identifier_equality_covers_all_parts() {
    let a = ContentId::new(SHA2_256, RAW, vec![1, 2, 3]);
    assert!(a.equals(&ContentId::new(SHA2_256, RAW, vec![1, 2, 3])));
    assert!(!a.equals(&ContentId::new(SHA2_256, RAW, vec![1, 2, 4])));
    assert!(!a.equals(&ContentId::new(SHA2_256, 0x70, vec![1, 2, 3])));
    assert!(!a.equals(&ContentId::new(0x13, RAW, vec![1, 2, 3])));
    assert!(!a.equals(&ContentId::new(SHA2_256, RAW, vec![1, 2])));
    assert!(a.duplicate().equals(&a));
    assert!(bytes_equal(b"", b""));
    assert_eq!(copy_bytes(b"xyz"), b"xyz".to_vec());
}

#[test]
fn wantlist_rewant_replaces_priority() {
    let mut w = WantList::new();
    assert!(w.insert(id_of(b"a"), 5, WantType::FullBlock));
    assert!(!w.insert(id_of(b"a"), 9, WantType::FullBlock));
    assert_eq!(w.len(), 1);
    assert_eq!(w.get(&id_of(b"a")), Some((9, WantType::FullBlock)));
    assert!(w.insert(id_of(b"b"), 1, WantType::PresenceOnly));
    assert_eq!(w.len(), 2);
}

#[test]
fn wantlist_remove_is_idempotent() {
    let mut w = WantList::new();
    w.insert(id_of(b"a"), 5, WantType::FullBlock);
    w.insert(id_of(b"b"), 6, WantType::FullBlock);
    assert!(w.remove(&id_of(b"a")));
    assert!(!w.remove(&id_of(b"a")));
    assert!(!w.contains(&id_of(b"a")));
    assert!(w.contains(&id_of(b"b")));
    assert_eq!(w.len(), 1);
    assert_eq!(w.get(&id_of(b"a")), None);
}

#[test]
fn ledger_records_and_clears_per_peer() {
    let mut l = PeerLedger::new();
    let a = id_of(b"a");
    l.record_peer_want(1, &a);
    l.record_peer_want(1, &a);
    l.record_local_want(2, &a);
    assert!(l.contains(1, Direction::PeerWants, &a));
    assert!(!l.contains(1, Direction::LocalWant, &a));
    assert!(l.contains(2, Direction::LocalWant, &a));
    l.clear_peer_want(1, &a);
    assert!(!l.contains(1, Direction::PeerWants, &a));
    l.clear_local_want(7, &a);
    assert!(l.contains(2, Direction::LocalWant, &a));
    l.record_peer_want(2, &a);
    l.remove_peer(2);
    assert!(!l.contains(2, Direction::LocalWant, &a));
    assert!(!l.contains(2, Direction::PeerWants, &a));
}

#[test]
fn scenario_want_then_peer_delivers() {
    let mut e = ExchangeEngine::new();
    let bytes = b"Qm123 payload".to_vec();
    let qm = id_of(&bytes);
    let acts = e.want(qm.duplicate(), 10, WantType::FullBlock);
    assert!(acts.is_empty());
    assert_eq!(e.want_count(), 1);

    let st = e.on_want(1, qm.duplicate(), 1, None);
    assert!(st.actions.is_empty());
    assert_eq!(st.events.len(), 1);
    assert!(matches!(&st.events[0], Event::WantReceived { peer: 1, priority: 1, .. }));
    assert!(e.ledger_holds(1, Direction::PeerWants, &qm));

    let st = e.on_block(1, qm.duplicate(), bytes.clone()).unwrap();
    assert_eq!(st.events.len(), 1);
    match &st.events[0] {
        Event::BlockReceived { peer, id, payload } => {
            assert_eq!(*peer, 1);
            assert!(id.equals(&qm));
            assert_eq!(payload, &bytes);
        }
        _ => panic!("expected a received block"),
    }
    assert_eq!(st.actions.len(), 1);
    assert!(matches!(&st.actions[0], Action::StoreBlock { .. }));
    assert_eq!(e.want_count(), 0);
}

#[test]
fn want_is_sent_to_each_connected_peer_once() {
    let mut e = ExchangeEngine::new();
    e.peer_connected(1);
    e.peer_connected(2);
    e.peer_connected(1);
    let a = id_of(b"a");
    let acts = e.want(a.duplicate(), 3, WantType::FullBlock);
    assert_eq!(acts.len(), 2);
    assert!(matches!(&acts[0], Action::SendWant { peer: 1, priority: 3, .. }));
    assert!(matches!(&acts[1], Action::SendWant { peer: 2, priority: 3, .. }));
    assert!(e.ledger_holds(1, Direction::LocalWant, &a));
    assert!(e.ledger_holds(2, Direction::LocalWant, &a));
    assert!(e.want(a.duplicate(), 3, WantType::FullBlock).is_empty());
    assert_eq!(e.want(a.duplicate(), 4, WantType::FullBlock).len(), 2);
    assert_eq!(e.want_count(), 1);
}

#[test]
fn cancelled_want_does_not_surface_late_block() {
    let mut e = ExchangeEngine::new();
    e.peer_connected(1);
    let bytes = b"late".to_vec();
    let a = id_of(&bytes);
    e.want(a.duplicate(), 1, WantType::FullBlock);
    let acts = e.cancel(&a);
    assert_eq!(acts.len(), 1);
    assert!(matches!(&acts[0], Action::SendCancel { peer: 1, .. }));
    assert!(!e.ledger_holds(1, Direction::LocalWant, &a));
    let st = e.on_block(1, a.duplicate(), bytes).unwrap();
    assert!(st.events.is_empty());
    assert!(st.actions.is_empty());
}

#[test]
fn stored_block_answers_want_once() {
    let mut e = ExchangeEngine::new();
    let bytes = b"stored".to_vec();
    let a = id_of(&bytes);
    let st = e.on_want(5, a.duplicate(), 2, Some(bytes.clone()));
    assert_eq!(st.actions.len(), 1);
    match &st.actions[0] {
        Action::SendBlock { peer, id, payload } => {
            assert_eq!(*peer, 5);
            assert!(id.equals(&a));
            assert_eq!(payload, &bytes);
        }
        _ => panic!("expected a block to be sent"),
    }
    assert!(!e.ledger_holds(5, Direction::PeerWants, &a));
}

#[test]
fn two_deliveries_surface_once_and_cancel_the_other_peer() {
    let mut e = ExchangeEngine::new();
    e.peer_connected(1);
    e.peer_connected(2);
    let bytes = b"twice".to_vec();
    let a = id_of(&bytes);
    e.want(a.duplicate(), 7, WantType::FullBlock);
    let first = e.on_block(1, a.duplicate(), bytes.clone()).unwrap();
    assert_eq!(first.events.len(), 1);
    assert_eq!(first.actions.len(), 2);
    assert!(matches!(&first.actions[0], Action::StoreBlock { .. }));
    assert!(matches!(&first.actions[1], Action::SendCancel { peer: 2, .. }));
    assert!(!e.ledger_holds(1, Direction::LocalWant, &a));
    assert!(!e.ledger_holds(2, Direction::LocalWant, &a));
    let second = e.on_block(2, a.duplicate(), bytes).unwrap();
    assert!(second.events.is_empty());
    assert!(second.actions.is_empty());
}

#[test]
fn corrupt_block_is_rejected_without_state_change() {
    let mut e = ExchangeEngine::new();
    e.peer_connected(1);
    let a = id_of(b"good");
    e.want(a.duplicate(), 1, WantType::FullBlock);
    let r = e.on_block(1, a.duplicate(), b"evil".to_vec());
    assert!(matches!(r, Err(IntegrityError)));
    assert!(e.is_wanted(&a));
    assert!(e.ledger_holds(1, Direction::LocalWant, &a));
    let r = e.on_block_digest(1, a.duplicate(), b"good".to_vec(), &[0u8; 32]);
    assert!(r.is_err());
    assert!(e.is_wanted(&a));
}

#[test]
fn disconnect_forgets_peer_and_reconnect_starts_empty() {
    let mut e = ExchangeEngine::new();
    let a = id_of(b"a");
    e.on_want(3, a.duplicate(), 1, None);
    e.want(id_of(b"b"), 1, WantType::FullBlock);
    assert!(e.ledger_holds(3, Direction::PeerWants, &a));
    assert!(e.ledger_holds(3, Direction::LocalWant, &id_of(b"b")));
    e.peer_disconnected(3);
    assert!(!e.ledger_holds(3, Direction::PeerWants, &a));
    assert!(!e.ledger_holds(3, Direction::LocalWant, &id_of(b"b")));
    e.peer_connected(3);
    assert!(!e.ledger_holds(3, Direction::PeerWants, &a));
    assert!(e.want(id_of(b"c"), 1, WantType::FullBlock).len() == 1);
}

#[test]
fn peer_cancel_clears_its_want() {
    let mut e = ExchangeEngine::new();
    let a = id_of(b"a");
    e.on_want(4, a.duplicate(), 1, None);
    let st = e.on_cancel(4, a.duplicate());
    assert!(st.actions.is_empty());
    assert!(matches!(&st.events[0], Event::CancelReceived { peer: 4, .. }));
    assert!(!e.ledger_holds(4, Direction::PeerWants, &a));
}

#[test]
fn have_block_serves_waiting_peers() {
    let mut e = ExchangeEngine::new();
    let bytes = b"later".to_vec();
    let a = id_of(&bytes);
    e.on_want(1, a.duplicate(), 1, None);
    e.on_want(2, id_of(b"other"), 1, None);
    e.on_want(3, a.duplicate(), 1, None);
    let acts = e.have_block(&a, &bytes);
    assert_eq!(acts.len(), 2);
    assert!(matches!(&acts[0], Action::SendBlock { peer: 1, .. }));
    assert!(matches!(&acts[1], Action::SendBlock { peer: 3, .. }));
    assert!(!e.ledger_holds(1, Direction::PeerWants, &a));
    assert!(e.ledger_holds(2, Direction::PeerWants, &id_of(b"other")));
}

#[test]
fn identifier_wire_form_round_trips() {
    let id = ContentId::new(SHA2_256, RAW, vec![1, 2, 3]);
    let bytes = id.to_bytes();
    assert_eq!(bytes, vec![1, 0x55, 0x12, 3, 1, 2, 3]);
    assert!(ContentId::from_bytes(&bytes).unwrap().equals(&id));
    let big = ContentId::new(300, 0x70, vec![9; 200]);
    let enc = big.to_bytes();
    assert_eq!(&enc[..7], &[1, 0x70, 0xac, 0x02, 0xc8, 0x01, 9]);
    assert!(ContentId::from_bytes(&enc).unwrap().equals(&big));
    let computed = ContentId::compute(b"Hey bro");
    assert!(ContentId::from_bytes(&computed.to_bytes()).unwrap().equals(&computed));
    assert_eq!(ContentId::from_bytes(&[]).unwrap_err(), DecodeError { offset: 0 });
    assert_eq!(ContentId::from_bytes(&[0, 0x55, 0x12, 0]).unwrap_err(), DecodeError { offset: 0 });
    assert_eq!(ContentId::from_bytes(&[1, 0x55, 0x12, 3, 1, 2]).unwrap_err(), DecodeError { offset: 6 });
    assert_eq!(ContentId::from_bytes(&[1, 0x55, 0x12, 1, 1, 2]).unwrap_err(), DecodeError { offset: 5 });
    assert_eq!(ContentId::from_bytes(&[1, 0x55, 0x92]).unwrap_err(), DecodeError { offset: 3 });
    let long = [1u8, 0x80, 0x80, 0x80, 0x80, 0x80, 0x80, 0x80, 0x80, 0x80, 0x80, 0x01];
    assert_eq!(ContentId::from_bytes(&long).unwrap_err(), DecodeError { offset: 11 });
    let overflow = [1u8, 0xff, 0xff, 0xff, 0xff, 0xff, 0xff, 0xff, 0xff, 0xff, 0x7f];
    assert_eq!(ContentId::from_bytes(&overflow).unwrap_err(), DecodeError { offset: 1 });
}

#[test]
fn snapshot_orders_by_priority() {
    let mut w = WantList::new();
    w.insert(id_of(b"low"), 1, WantType::FullBlock);
    w.insert(id_of(b"high"), 9, WantType::PresenceOnly);
    w.insert(id_of(b"mid"), 5, WantType::FullBlock);
    w.insert(id_of(b"low"), 2, WantType::FullBlock);
    let snap = w.snapshot();
    let prios: Vec<i32> = snap.iter().map(|r| r.priority).collect();
    assert_eq!(prios, vec![9, 5, 2]);
    assert!(snap[0].id.equals(&id_of(b"high")));
    assert_eq!(snap[0].want_type, WantType::PresenceOnly);
    assert!(WantList::new().snapshot().is_empty());
}

#[test]
fn failed_want_send_is_no_longer_counted() {
    let mut e = ExchangeEngine::new();
    e.peer_connected(1);
    e.peer_connected(2);
    let a = id_of(b"a");
    let mut acts = e.want(a.duplicate(), 2, WantType::FullBlock);
    let failed = acts.remove(0);
    let st = e.on_send_failed(failed);
    assert!(st.actions.is_empty());
    assert_eq!(st.events.len(), 1);
    assert!(matches!(
        &st.events[0],
        Event::SendFailure { action: Action::SendWant { peer: 1, priority: 2, .. } }
    ));
    assert!(!e.ledger_holds(1, Direction::LocalWant, &a));
    assert!(e.ledger_holds(2, Direction::LocalWant, &a));
    assert!(e.is_wanted(&a));
    assert_eq!(e.want_snapshot().len(), 1);
}

#[test]
fn non_minimal_varints_are_rejected() {
    assert_eq!(
        ContentId::from_bytes(&[0x81, 0x00, 0x55, 0x12, 0x00]).unwrap_err(),
        DecodeError { offset: 1 }
    );
    assert_eq!(
        ContentId::from_bytes(&[1, 0xd5, 0x00, 0x12, 0x00]).unwrap_err(),
        DecodeError { offset: 2 }
    );
    let id = ContentId::new(SHA2_256, 128, vec![]);
    assert_eq!(id.to_bytes(), vec![1, 0x80, 0x01, 0x12, 0]);
    assert!(ContentId::from_bytes(&id.to_bytes()).unwrap().equals(&id));
}

#[test]
fn identifiers_and_blocks_compare_by_value() {
    let a = id_of(b"x");
    assert_eq!(a.clone(), a);
    assert_ne!(a, id_of(b"y"));
    let b = new_block(b"x");
    let c = b.clone();
    assert_eq!(b, c);
    assert_ne!(b, new_block(b"y"));
    assert_ne!(b, Block::new(b"z".to_vec(), id_of(b"x")));
}

#[test]
fn sha512_identifiers_verify_under_their_declared_hash() {
    let d = ContentId::hash_with(SHA2_512, b"abc").unwrap();
    assert_eq!(
        hex(&d),
        "ddaf35a193617abacc417349ae20413112e6fa4e89a97ea20a9eeee64b55d39a\
2192992a274fc1a836ba3c23a3feebbd454d4423643ce80e2a9ac94fa54ca49f"
    );
    let id = ContentId::new(SHA2_512, RAW, d);
    assert!(Block::verify(b"abc", &id));
    assert!(!Block::verify(b"abd", &id));
    assert!(ContentId::hash_with(0x1e, b"abc").is_none());
    assert!(!Block::verify(b"abc", &ContentId::new(0x1e, RAW, vec![])));
    let mut e = ExchangeEngine::new();
    e.want(id.duplicate(), 1, WantType::FullBlock);
    let st = e.on_block(1, id.duplicate(), b"abc".to_vec()).unwrap();
    assert_eq!(st.events.len(), 1);
    assert!(!e.is_wanted(&id));
}
