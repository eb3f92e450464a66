use zn_tracker::store::{Error, Peer, PeerDB};

fn peer(address: &str, date_added: u64, last_seen: u64) -> Peer {
    Peer { address: address.to_string(), date_added, last_seen }
}

fn hash(bytes: &[u8]) -> zn_tracker::store::Hash {
    zn_tracker::store::Hash(bytes.to_vec())
}

#[test]
fn announce_cleanup_and_remove_scenario() {
    let h1 = hash(&[0x11; 20]);
    let mut db = PeerDB::new().unwrap();
    db.update_peer(peer("10.0.0.1:6881", 100, 100), vec![h1.clone()]).unwrap();
    assert_eq!(db.get_peer_count().unwrap(), 1);
    assert_eq!(db.get_hashes().unwrap(), vec![(h1.clone(), 1)]);

    db.update_peer(peer("10.0.0.2:6881", 101, 101), vec![h1.clone()]).unwrap();
    assert_eq!(db.get_hashes().unwrap(), vec![(h1.clone(), 2)]);

    assert_eq!(db.cleanup_peers(101).unwrap(), 1);
    assert_eq!(db.get_peer_count().unwrap(), 1);
    assert_eq!(db.get_hashes().unwrap(), vec![(h1.clone(), 1)]);
    assert_eq!(db.get_peer(&"10.0.0.1:6881".to_string()).unwrap(), None);

    let removed = db.remove_peer(&"10.0.0.2:6881".to_string()).unwrap();
    assert_eq!(removed, Some(peer("10.0.0.2:6881", 101, 101)));
    assert_eq!(db.cleanup_hashes().unwrap(), 1);
    assert_eq!(db.get_hash_count().unwrap(), 0);
}

#[test]
fn new_directory_is_empty() {
    let db = PeerDB::new().unwrap();
    assert_eq!(db.get_peer_count().unwrap(), 0);
    assert_eq!(db.get_hash_count().unwrap(), 0);
    assert!(db.get_peers().unwrap().is_empty());
    assert!(db.get_hashes().unwrap().is_empty());
}

#[test]
fn reannounce_keeps_date_added() {
    let mut db = PeerDB::new().unwrap();
    let first = db.update_peer(peer("1.2.3.4:1", 10, 10), vec![]).unwrap();
    let second = db.update_peer(peer("1.2.3.4:1", 50, 50), vec![]).unwrap();
    assert!(!first);
    assert!(second);
    let stored = db.get_peer(&"1.2.3.4:1".to_string()).unwrap().unwrap();
    assert_eq!(stored.date_added, 10);
    assert_eq!(stored.last_seen, 50);
}

#[test]
fn upsert_reports_known_address() {
    let mut db = PeerDB::new().unwrap();
    assert_eq!(db.upsert_peer(&peer("a:1", 5, 5)), Ok(false));
    assert_eq!(db.upsert_peer(&peer("a:1", 5, 9)), Ok(true));
    assert_eq!(db.get_peers().unwrap(), vec![peer("a:1", 5, 9)]);
}

#[test]
fn one_row_per_address() {
    let mut db = PeerDB::new().unwrap();
    for t in 0..5u64 {
        db.update_peer(peer("5.5.5.5:80", t, t), vec![hash(&[t as u8])]).unwrap();
        assert_eq!(db.get_peer_count().unwrap(), 1);
    }
    assert_eq!(db.get_hash_count().unwrap(), 5);
}

#[test]
fn one_row_per_hash() {
    let h = hash(b"swarm");
    let mut db = PeerDB::new().unwrap();
    for i in 0..4u64 {
        let address = format!("10.0.0.{}:6881", i);
        db.update_peer(peer(&address, i, i), vec![h.clone()]).unwrap();
    }
    assert_eq!(db.get_hash_count().unwrap(), 1);
    assert_eq!(db.get_hashes().unwrap(), vec![(h.clone(), 4)]);
}

#[test]
fn duplicate_hash_in_one_announce() {
    let h = hash(b"dup");
    let mut db = PeerDB::new().unwrap();
    db.update_peer(peer("x:1", 1, 1), vec![h.clone(), h.clone()]).unwrap();
    assert_eq!(db.get_hash_count().unwrap(), 1);
    assert_eq!(db.get_hashes().unwrap(), vec![(h.clone(), 1)]);
}

#[test]
fn swarm_size_matches_count() {
    let a = hash(b"a");
    let b = hash(b"b");
    let mut db = PeerDB::new().unwrap();
    db.update_peer(peer("p:1", 1, 1), vec![a.clone(), b.clone()]).unwrap();
    db.update_peer(peer("p:2", 2, 2), vec![a.clone()]).unwrap();
    db.insert_hash(&hash(b"c")).unwrap();
    let counts = db.get_hashes().unwrap();
    assert_eq!(counts, vec![(a.clone(), 2), (b.clone(), 1)]);
    for (h, n) in counts {
        assert_eq!(db.get_peers_for_hash(&h).unwrap().len(), n);
    }
    assert!(db.get_peers_for_hash(&hash(b"c")).unwrap().is_empty());
    assert_eq!(
        db.get_peers_for_hash(&a).unwrap(),
        vec![peer("p:1", 1, 1), peer("p:2", 2, 2)]
    );
}

#[test]
fn cleanup_peers_removes_exactly_stale() {
    let h = hash(b"h");
    let mut db = PeerDB::new().unwrap();
    db.update_peer(peer("old:1", 1, 9), vec![h.clone()]).unwrap();
    db.update_peer(peer("edge:1", 1, 10), vec![h.clone()]).unwrap();
    db.update_peer(peer("new:1", 1, 20), vec![h.clone()]).unwrap();
    assert_eq!(db.cleanup_peers(10).unwrap(), 1);
    assert_eq!(db.get_peers().unwrap(), vec![peer("edge:1", 1, 10), peer("new:1", 1, 20)]);
    assert_eq!(db.get_hashes().unwrap(), vec![(h.clone(), 2)]);
    assert_eq!(db.cleanup_peers(0).unwrap(), 0);
    assert_eq!(db.get_peer_count().unwrap(), 2);
}

#[test]
fn cleanup_hashes_keeps_linked() {
    let kept = hash(b"kept");
    let orphan = hash(b"orphan");
    let mut db = PeerDB::new().unwrap();
    db.update_peer(peer("a:1", 1, 1), vec![orphan.clone()]).unwrap();
    db.update_peer(peer("b:1", 5, 5), vec![kept.clone()]).unwrap();
    assert_eq!(db.cleanup_peers(3).unwrap(), 1);
    assert_eq!(db.cleanup_hashes().unwrap(), 1);
    assert_eq!(db.get_hash_count().unwrap(), 1);
    assert_eq!(db.get_hashes().unwrap(), vec![(kept.clone(), 1)]);
    assert_eq!(db.cleanup_hashes().unwrap(), 0);
}

#[test]
fn remove_unknown_is_noop() {
    let mut db = PeerDB::new().unwrap();
    db.update_peer(peer("a:1", 1, 1), vec![hash(b"x")]).unwrap();
    assert_eq!(db.remove_peer(&"b:1".to_string()).unwrap(), None);
    assert_eq!(db.get_peer_count().unwrap(), 1);
    assert_eq!(db.get_hashes().unwrap(), vec![(hash(b"x"), 1)]);
}

#[test]
fn remove_known_returns_record() {
    let mut db = PeerDB::new().unwrap();
    db.update_peer(peer("a:1", 3, 4), vec![hash(b"x")]).unwrap();
    assert_eq!(db.remove_peer(&"a:1".to_string()).unwrap(), Some(peer("a:1", 3, 4)));
    assert_eq!(db.get_peer(&"a:1".to_string()).unwrap(), None);
    assert_eq!(db.get_hash_count().unwrap(), 1);
    assert!(db.get_hashes().unwrap().is_empty());
}

#[test]
fn link_needs_stored_peer_and_hash() {
    let mut db = PeerDB::new().unwrap();
    let h = hash(b"h");
    assert_eq!(db.link(&h, &"a:1".to_string()), Err(Error::UnknownPeer));
    db.upsert_peer(&peer("a:1", 1, 1)).unwrap();
    assert_eq!(db.link(&h, &"a:1".to_string()), Err(Error::UnknownHash));
    db.insert_hash(&h).unwrap();
    assert_eq!(db.link(&h, &"a:1".to_string()), Ok(()));
    assert_eq!(db.link(&h, &"a:1".to_string()), Ok(()));
    assert_eq!(db.get_hashes().unwrap(), vec![(h.clone(), 1)]);
}

#[test]
fn empty_hash_is_a_hash() {
    let mut db = PeerDB::new().unwrap();
    db.update_peer(peer("a:1", 1, 1), vec![hash(&[])]).unwrap();
    assert_eq!(db.get_hashes().unwrap(), vec![(hash(&[]), 1)]);
}
