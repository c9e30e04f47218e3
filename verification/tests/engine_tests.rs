use kademlia::addr::Addr;
use kademlia::addr::AddrV4;
use kademlia::kademlia::dedup_values;
use kademlia::kademlia::id_claimed;
use kademlia::kademlia::Kademlia;
use kademlia::kademlia::MAX_VALUE_LEN;
use kademlia::message::FindNode;
use kademlia::message::FindValue;
use kademlia::message::Message;
use kademlia::message::Ping;
use kademlia::message::Store;
use kademlia::message::Value;
use kademlia::node::Node;
use kademlia::node::NODEID_BYTELEN;
use kademlia::Error;

fn loopback(port: u16) -> Addr {
    Addr::V4(AddrV4 { o0: 127, o1: 0, o2: 0, o3: 1, port })
}

#[test]
fn ping_gets_pong_under_the_same_cookie() {
    let mut kad = Kademlia::new([0x00; NODEID_BYTELEN], false);
    let msg = Message::Ping(Ping { sender_id: [0x11; NODEID_BYTELEN], cookie: [0x77; 20] });
    let (frames, _evict) = kad.handle_message(loopback(9), &msg, 0).unwrap();
    assert_eq!(frames.len(), 1);
    assert_eq!(frames[0].0, loopback(9));
    match &frames[0].1 {
        Message::Pong(p) => {
            assert_eq!(p.cookie, [0x77; 20]);
            assert_eq!(p.sender_id, [0x00; NODEID_BYTELEN]);
        }
        _ => panic!("expected a pong"),
    }
}

#[test]
fn sender_claiming_local_id_is_refused() {
    let mut kad = Kademlia::new([0x00; NODEID_BYTELEN], false);
    let msg = Message::Ping(Ping { sender_id: [0x00; NODEID_BYTELEN], cookie: [0x77; 20] });
    assert_eq!(kad.handle_message(loopback(9), &msg, 0).err(), Some(Error::InvalidPeerId));
}

#[test]
fn find_node_lists_the_closest_peers() {
    let mut kad = Kademlia::new([0x00; NODEID_BYTELEN], false);
    // two peers make themselves known
    for x in [0x11u8, 0x22].iter() {
        let hello = Message::Ping(Ping { sender_id: [*x; NODEID_BYTELEN], cookie: [0; 20] });
        kad.handle_message(loopback(*x as u16), &hello, 0).unwrap();
    }
    let ask = Message::FindNode(FindNode {
        sender_id: [0x33; NODEID_BYTELEN],
        cookie: [0x01; 20],
        key: [0x11; NODEID_BYTELEN],
    });
    let (frames, _) = kad.handle_message(loopback(50), &ask, 1).unwrap();
    // the asker itself was folded in before dispatch, so three replies come
    assert_eq!(frames.len(), 3);
    match &frames[0].1 {
        Message::FoundNode(f) => {
            assert_eq!(f.cookie, [0x01; 20]);
            assert_eq!(f.node_count, 3);
            assert_eq!(f.node.node_id, [0x11; NODEID_BYTELEN]);
        }
        _ => panic!("expected found-node replies"),
    }
}

#[test]
fn find_value_prefers_stored_values() {
    let mut kad = Kademlia::new([0x00; NODEID_BYTELEN], false);
    let key = [0x42; NODEID_BYTELEN];
    let put = Message::Store(Store {
        sender_id: [0x11; NODEID_BYTELEN],
        cookie: [0; 20],
        key,
        value: Value::new(vec![9, 9, 9]),
    });
    kad.handle_message(loopback(7), &put, 0).unwrap();

    let ask = Message::FindValue(FindValue {
        sender_id: [0x22; NODEID_BYTELEN],
        cookie: [0x05; 20],
        key,
    });
    let (frames, _) = kad.handle_message(loopback(8), &ask, 1).unwrap();
    assert_eq!(frames.len(), 1);
    match &frames[0].1 {
        Message::FoundValue(f) => {
            assert_eq!(f.cookie, [0x05; 20]);
            assert_eq!(f.value_count, 1);
            assert_eq!(f.value.data(), &vec![9, 9, 9]);
        }
        _ => panic!("expected a found-value reply"),
    }

    // a key nobody stored degrades to a node search
    let ask = Message::FindValue(FindValue {
        sender_id: [0x22; NODEID_BYTELEN],
        cookie: [0x06; 20],
        key: [0x43; NODEID_BYTELEN],
    });
    let (frames, _) = kad.handle_message(loopback(8), &ask, 2).unwrap();
    assert!(frames.iter().all(|f| matches!(f.1, Message::FoundNode(_))));
}

#[test]
fn oversize_store_is_ignored_and_put_refused() {
    let mut kad = Kademlia::new([0x00; NODEID_BYTELEN], false);
    let key = [0x42; NODEID_BYTELEN];
    let long = vec![0u8; MAX_VALUE_LEN + 1];
    let put = Message::Store(Store {
        sender_id: [0x11; NODEID_BYTELEN],
        cookie: [0; 20],
        key,
        value: Value::new(long.clone()),
    });
    kad.handle_message(loopback(7), &put, 0).unwrap();
    let ask = Message::FindValue(FindValue {
        sender_id: [0x22; NODEID_BYTELEN],
        cookie: [0x05; 20],
        key,
    });
    let (frames, _) = kad.handle_message(loopback(8), &ask, 1).unwrap();
    assert!(frames.iter().all(|f| matches!(f.1, Message::FoundNode(_))));

    // and the caller-facing put refuses before emitting any frame
    let targets = vec![Node::new_unfiltered(loopback(9), [0x11; NODEID_BYTELEN], 0)];
    assert_eq!(kad.put(&key, &long, &targets).err(), Some(Error::ValueTooLong));
    let ok = kad.put(&key, &vec![1, 2, 3], &targets).unwrap();
    assert_eq!(ok.len(), 1);
    match &ok[0].1 {
        Message::Store(s) => assert_eq!(s.value.data(), &vec![1, 2, 3]),
        _ => panic!("expected a store frame"),
    }
}

#[test]
fn concurrent_puts_stay_apart() {
    // two writes under different keys never disturb each other
    let mut kad = Kademlia::new([0x00; NODEID_BYTELEN], false);
    let k1 = [0x00; NODEID_BYTELEN];
    let k2 = [0xff; NODEID_BYTELEN];
    for (key, value, port) in
        [(k1, vec![1u8, 2, 3], 7u16), (k2, vec![4u8, 5, 6], 8u16)].into_iter()
    {
        let put = Message::Store(Store {
            sender_id: [port as u8; NODEID_BYTELEN],
            cookie: [0; 20],
            key,
            value: Value::new(value),
        });
        kad.handle_message(loopback(port), &put, 0).unwrap();
    }
    let values = kad.storage.get(&k1, 1);
    assert_eq!(values.len(), 1);
    assert_eq!(values[0].1, vec![1, 2, 3]);
    let values = kad.storage.get(&k2, 1);
    assert_eq!(values.len(), 1);
    assert_eq!(values[0].1, vec![4, 5, 6]);
}

#[test]
fn bootstrap_collision_is_detected() {
    // the overlay already holds id X at another address: the candidate falls
    let x = [0x77; NODEID_BYTELEN];
    let holder = Node::new_unfiltered(loopback(1), x, 0);
    assert!(id_claimed(&x, &loopback(2), &vec![holder.clone()]));
    // a report of the candidate from this node's own address is no claim
    assert!(!id_claimed(&x, &loopback(1), &vec![holder]));
    // and an unrelated id is free
    assert!(!id_claimed(&[0x88; NODEID_BYTELEN], &loopback(2), &vec![]));
}

#[test]
fn republish_counts_down_and_drops() {
    let mut kad = Kademlia::new([0x00; NODEID_BYTELEN], false);
    let key = [0x42; NODEID_BYTELEN];
    assert!(kad.store(key, vec![1, 2, 3], 600).is_ok());
    assert_eq!(
        kad.store(key, vec![0u8; MAX_VALUE_LEN + 1], 600).err(),
        Some(Error::ValueTooLong)
    );

    let again = kad.republish_tick();
    assert_eq!(again.len(), 1);
    assert_eq!(again[0].1, vec![1, 2, 3]);

    let done = kad.republish_tick();
    assert_eq!(done.len(), 0);
}

#[test]
fn single_node_degenerate() {
    // a supernode with the all-zero id, one freshly joined node with the
    // all-one id; every frame travels through the real codec
    let mut sup = Kademlia::new([0x00; NODEID_BYTELEN], false);
    let mut node = Kademlia::new([0xff; NODEID_BYTELEN], false);
    let sup_addr = loopback(20000);
    let node_addr = loopback(20001);

    let deliver = |to: &mut Kademlia, from: Addr, msg: &Message, now: u64| {
        let frame = kademlia::proto_pinboard::Pinboard::encode(msg);
        let decoded = kademlia::proto_pinboard::Pinboard::decode(&frame).unwrap();
        to.handle_message(from, &decoded, now).unwrap().0
    };

    // the node pings the supernode; the pong comes back
    let hello = Message::Ping(Ping { sender_id: [0xff; NODEID_BYTELEN], cookie: [1; 20] });
    let replies = deliver(&mut sup, node_addr, &hello, 0);
    assert_eq!(replies.len(), 1);
    deliver(&mut node, sup_addr, &replies[0].1, 0);

    // put [1,2,3] under the all-zero key: one store per located peer
    let key = [0x00; NODEID_BYTELEN];
    let targets = node.buckets.get_closest_nodes(&key, 20);
    assert_eq!(targets.len(), 1);
    let stores = node.put(&key, &vec![1, 2, 3], &targets).unwrap();
    for (to, msg) in stores.iter() {
        assert_eq!(*to, sup_addr);
        deliver(&mut sup, node_addr, msg, 1);
    }

    // get: the value search returns exactly the stored value
    let ask = Message::FindValue(FindValue {
        sender_id: [0xff; NODEID_BYTELEN],
        cookie: [2; 20],
        key,
    });
    let answers = deliver(&mut sup, node_addr, &ask, 2);
    let mut found: Vec<Vec<u8>> = vec![];
    for (_, msg) in answers.iter() {
        match msg {
            Message::FoundValue(f) => found.push(f.value.data().clone()),
            _ => panic!("expected found-value replies"),
        }
    }
    assert_eq!(dedup_values(&found), vec![vec![1, 2, 3]]);
}

#[test]
fn values_are_deduplicated() {
    let values = vec![vec![1u8], vec![2], vec![1], vec![3], vec![2]];
    let distinct = dedup_values(&values);
    assert_eq!(distinct, vec![vec![1], vec![2], vec![3]]);
}
