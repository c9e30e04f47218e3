use kademlia::addr::Addr;
use kademlia::addr::AddrV4;
use kademlia::addr::AddrV6;
use kademlia::message::FindNode;
use kademlia::message::FindValue;
use kademlia::message::FoundNode;
use kademlia::message::FoundValue;
use kademlia::message::Message;
use kademlia::message::Ping;
use kademlia::message::Pong;
use kademlia::message::Store;
use kademlia::message::Value;
use kademlia::node::Node;
use kademlia::proto_pinboard::Pinboard;

fn sender() -> [u8; 20] {
    [0xaa; 20]
}

fn cookie() -> [u8; 20] {
    [0x55; 20]
}

#[test]
fn ping_pong_round_trip() {
    let frame = Pinboard::encode(&Message::Ping(Ping { sender_id: sender(), cookie: cookie() }));
    assert_eq!(frame.len(), 41);
    match Pinboard::decode(&frame) {
        Some(Message::Ping(p)) => {
            assert_eq!(p.sender_id, sender());
            assert_eq!(p.cookie, cookie());
        }
        other => panic!("wrong decode: {:?}", other.is_some()),
    }
    // the accepted frame re-encodes to exactly itself
    let again = Pinboard::decode(&frame).unwrap();
    assert_eq!(Pinboard::encode(&again), frame);

    let frame = Pinboard::encode(&Message::Pong(Pong { sender_id: sender(), cookie: cookie() }));
    match Pinboard::decode(&frame) {
        Some(Message::Pong(_)) => {}
        _ => panic!("wrong decode"),
    }
}

#[test]
fn find_round_trips() {
    let key = [0x17; 20];
    let frame = Pinboard::encode(
        &Message::FindNode(FindNode { sender_id: sender(), cookie: cookie(), key }),
    );
    assert_eq!(frame.len(), 61);
    match Pinboard::decode(&frame) {
        Some(Message::FindNode(p)) => assert_eq!(p.key, key),
        _ => panic!("wrong decode"),
    }

    let frame = Pinboard::encode(
        &Message::FindValue(FindValue { sender_id: sender(), cookie: cookie(), key }),
    );
    match Pinboard::decode(&frame) {
        Some(Message::FindValue(p)) => assert_eq!(p.key, key),
        _ => panic!("wrong decode"),
    }
}

#[test]
fn found_node_round_trip_v4_and_v6() {
    let node = Node {
        addr: Addr::V4(AddrV4 { o0: 1, o1: 2, o2: 3, o3: 4, port: 5000 }),
        node_id: [0x33; 20],
        last_seen: 0,
    };
    let msg = Message::FoundNode(
        FoundNode { sender_id: sender(), cookie: cookie(), node_count: 7, node },
    );
    let frame = Pinboard::encode(&msg);
    assert_eq!(frame.len(), 72);
    match Pinboard::decode(&frame) {
        Some(Message::FoundNode(p)) => {
            assert_eq!(p.node_count, 7);
            assert_eq!(p.node.node_id, [0x33; 20]);
            assert_eq!(p.node.addr, Addr::V4(AddrV4 { o0: 1, o1: 2, o2: 3, o3: 4, port: 5000 }));
        }
        _ => panic!("wrong decode"),
    }
    assert_eq!(Pinboard::encode(&Pinboard::decode(&frame).unwrap()), frame);

    let node6 = Node {
        addr: Addr::V6(AddrV6 {
            s0: 0x2001,
            s1: 0xdb8,
            s2: 3,
            s3: 4,
            s4: 5,
            s5: 6,
            s6: 7,
            s7: 8,
            port: 4242,
        }),
        node_id: [0x44; 20],
        last_seen: 0,
    };
    let msg = Message::FoundNode(
        FoundNode { sender_id: sender(), cookie: cookie(), node_count: 1, node: node6 },
    );
    let frame = Pinboard::encode(&msg);
    assert_eq!(frame.len(), 84);
    match Pinboard::decode(&frame) {
        Some(Message::FoundNode(p)) => match p.node.addr {
            Addr::V6(v) => {
                assert_eq!(v.s0, 0x2001);
                assert_eq!(v.port, 4242);
            }
            _ => panic!("wrong family"),
        },
        _ => panic!("wrong decode"),
    }
}

#[test]
fn found_value_and_store_round_trip() {
    let msg = Message::FoundValue(FoundValue {
        sender_id: sender(),
        cookie: cookie(),
        value_count: 2,
        value: Value::new(vec![1, 2, 3]),
    });
    let frame = Pinboard::encode(&msg);
    assert_eq!(frame.len(), 50);
    match Pinboard::decode(&frame) {
        Some(Message::FoundValue(p)) => {
            assert_eq!(p.value_count, 2);
            assert_eq!(p.value.data(), &vec![1, 2, 3]);
        }
        _ => panic!("wrong decode"),
    }
    assert_eq!(Pinboard::encode(&Pinboard::decode(&frame).unwrap()), frame);

    let msg = Message::Store(Store {
        sender_id: sender(),
        cookie: cookie(),
        key: [0x09; 20],
        value: Value::new(vec![7, 8]),
    });
    let frame = Pinboard::encode(&msg);
    assert_eq!(frame.len(), 65);
    match Pinboard::decode(&frame) {
        Some(Message::Store(p)) => {
            assert_eq!(p.key, [0x09; 20]);
            assert_eq!(p.value.data(), &vec![7, 8]);
        }
        _ => panic!("wrong decode"),
    }
}

#[test]
fn undecodable_frames_are_refused() {
    assert!(Pinboard::decode(&[]).is_none());
    assert!(Pinboard::decode(&[0x99; 41]).is_none());
    // a ping frame cut short
    let frame = Pinboard::encode(&Message::Ping(Ping { sender_id: sender(), cookie: cookie() }));
    assert!(Pinboard::decode(&frame[..40]).is_none());
    // a store whose length prefix overruns the frame
    let msg = Message::Store(Store {
        sender_id: sender(),
        cookie: cookie(),
        key: [0x09; 20],
        value: Value::new(vec![7, 8]),
    });
    let mut frame = Pinboard::encode(&msg);
    frame.truncate(64);
    assert!(Pinboard::decode(&frame).is_none());
}

#[test]
fn hex_summaries() {
    let id = [0x01, 0x02, 0xff, 9, 0, 0, 0, 0, 0, 0, 0, 0, 0, 0, 0, 0, 0, 0, 0, 0];
    assert_eq!(kademlia::message::enc_id(&id), "0102ff...");
    assert_eq!(kademlia::message::enc_vec(&vec![0xde, 0xad, 0xbe, 0xef]), "deadbe...");
}
