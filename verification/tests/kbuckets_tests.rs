use kademlia::addr::Addr;
use kademlia::addr::AddrV4;
use kademlia::kbuckets::KBuckets;
use kademlia::node::Node;
use kademlia::node::NODEID_BYTELEN;

fn loopback(port: u16) -> Addr {
    Addr::V4(AddrV4 { o0: 127, o1: 0, o2: 0, o3: 1, port })
}

#[test]
fn test_get_bucket() {
    let this = [
        0x00, 0x00, 0x00, 0x00, 0x00, 0x00, 0x00, 0x00, 0x00, 0x00, 0x00, 0x00, 0x00, 0x00, 0x00,
        0x00, 0x00, 0x00, 0x00, 0x00,
    ];
    let nearest = [
        0x00, 0x00, 0x00, 0x00, 0x00, 0x00, 0x00, 0x00, 0x00, 0x00, 0x00, 0x00, 0x00, 0x00, 0x00,
        0x00, 0x00, 0x00, 0x00, 0x01,
    ];
    let farest = [
        0xff, 0xff, 0xff, 0xff, 0xff, 0xff, 0xff, 0xff, 0xff, 0xff, 0xff, 0xff, 0xff, 0xff, 0xff,
        0xff, 0xff, 0xff, 0xff, 0xff,
    ];

    let b = KBuckets::new(this.clone());
    assert_eq!(b.get_bucket_idx(&this), None);
    assert_eq!(b.get_bucket_idx(&nearest), Some(0));
    assert_eq!(b.get_bucket_idx(&farest), Some(NODEID_BYTELEN * 8 - 1));

    assert!(b.get_bucket(&this).is_none());
    assert!(b.get_bucket(&nearest).is_some());
    assert!(b.get_bucket(&farest).is_some());
}

#[test]
fn test_get_nearest() {
    let this = [0x00; NODEID_BYTELEN];
    let mut b = KBuckets::new(this.clone());

    let mut that = this.clone();
    that[NODEID_BYTELEN - 1] = 0x01;
    let n = Node::new_unfiltered(loopback(0), that, 0);
    kademlia::utils::ignore(b.add(n.clone()));

    let node_list = b.get_closest_nodes(&this, 10);
    assert_eq!(node_list, vec![n]);
}

#[test]
fn add_refreshes_and_rejects_own_id() {
    let own = [0x00; NODEID_BYTELEN];
    let mut b = KBuckets::new(own);

    // a peer claiming the local id is silently ignored
    assert!(b.add(Node::new_unfiltered(loopback(1), own, 0)).is_ok());
    assert_eq!(b.get_closest_nodes(&own, 10), vec![]);

    // an address update for a known id overwrites the entry
    let id = [0x01; NODEID_BYTELEN];
    let first = Node::new_unfiltered(loopback(1), id, 0);
    let second = Node::new_unfiltered(loopback(2), id, 5);
    assert!(b.add(first).is_ok());
    assert!(b.add(second.clone()).is_ok());
    let all = b.get_closest_nodes(&own, 10);
    assert_eq!(all, vec![second]);
}

#[test]
fn full_bucket_hands_back_the_newcomer() {
    // ids 1..=21 differ from [0;20] only in the low byte: bits 0..5, so they
    // spread over the low buckets; choose ids sharing one bucket instead:
    // ids with high bit of the last byte set all land in bucket 7.
    let own = [0x00; NODEID_BYTELEN];
    let mut b = KBuckets::new(own);
    let mut accepted = 0;
    let mut refused = None;
    for x in 0..=20u8 {
        let mut id = [0x00; NODEID_BYTELEN];
        id[NODEID_BYTELEN - 1] = 0x80 | x;
        let n = Node::new_unfiltered(loopback(1000 + x as u16), id, x as u64);
        match b.add(n.clone()) {
            Ok(()) => accepted += 1,
            Err(back) => refused = Some(back),
        }
    }
    assert_eq!(accepted, 20);
    let back = refused.expect("the twenty-first peer is refused");
    // the eviction path: drop a stale peer, then the newcomer fits
    let mut stale_id = [0x00; NODEID_BYTELEN];
    stale_id[NODEID_BYTELEN - 1] = 0x80;
    let stale = Node::new_unfiltered(loopback(1000), stale_id, 0);
    assert!(b.remove_node(&stale));
    assert!(b.add(back).is_ok());
}

#[test]
fn closest_nodes_come_sorted() {
    let own = [0x00; NODEID_BYTELEN];
    let mut b = KBuckets::new(own);
    for x in [0x80u8, 0x01, 0x40, 0x03].iter() {
        let mut id = [0x00; NODEID_BYTELEN];
        id[0] = *x;
        kademlia::utils::ignore(b.add(Node::new_unfiltered(loopback(*x as u16), id, 0)));
    }
    let key = [0x00; NODEID_BYTELEN];
    let close = b.get_closest_nodes(&key, 3);
    assert_eq!(close.len(), 3);
    assert_eq!(close[0].node_id[0], 0x01);
    assert_eq!(close[1].node_id[0], 0x03);
    assert_eq!(close[2].node_id[0], 0x40);
}

#[test]
fn closest_distance_never_worsens_as_peers_join() {
    let own = [0x00; NODEID_BYTELEN];
    let key = [0x00; NODEID_BYTELEN];
    let mut b = KBuckets::new(own);

    let mut far_id = [0x00; NODEID_BYTELEN];
    far_id[0] = 0x80;
    kademlia::utils::ignore(b.add(Node::new_unfiltered(loopback(1), far_id, 0)));
    let before = b.get_closest_nodes(&key, 1)[0].dist(&key);

    let mut near_id = [0x00; NODEID_BYTELEN];
    near_id[NODEID_BYTELEN - 1] = 0x01;
    kademlia::utils::ignore(b.add(Node::new_unfiltered(loopback(2), near_id, 0)));
    let after = b.get_closest_nodes(&key, 1)[0].dist(&key);

    assert!(after <= before);
    assert_eq!(after, b.get_closest_nodes(&key, 1)[0].dist(&key));
}
