use kademlia::addr::Addr;
use kademlia::addr::AddrV4;
use kademlia::node::NODEID_BYTELEN;
use kademlia::storage::ExternalStorage;

fn peer(port: u16) -> (Addr, [u8; NODEID_BYTELEN]) {
    (Addr::V4(AddrV4 { o0: 127, o1: 0, o2: 0, o3: 1, port }), [port as u8; NODEID_BYTELEN])
}

#[test]
fn entries_age_out() {
    let key = [0x00; NODEID_BYTELEN];
    let mut store = ExternalStorage::new(900);
    store.put(key, peer(1), vec![1, 2, 3], 0);

    let fresh = store.get(&key, 100);
    assert_eq!(fresh.len(), 1);
    assert_eq!(fresh[0].1, vec![1, 2, 3]);

    let stale = store.get(&key, 1000);
    assert_eq!(stale.len(), 0);
}

#[test]
fn three_records() {
    // two writers under one key; the first writer's older value is replaced
    let key = [0x00; NODEID_BYTELEN];
    let a = peer(1);
    let b = peer(2);
    let mut store = ExternalStorage::new(900);
    store.put(key, a, vec![1, 2, 3], 0);
    store.put(key, b, vec![4, 5, 6], 1);
    store.put(key, a, vec![7, 8, 9], 2);

    let mut values: Vec<Vec<u8>> = store.get(&key, 3).into_iter().map(|e| e.1).collect();
    values.sort();
    assert_eq!(values, vec![vec![4, 5, 6], vec![7, 8, 9]]);
}

#[test]
fn matching_value_replaces() {
    let key = [0x00; NODEID_BYTELEN];
    let mut store = ExternalStorage::new(900);
    store.put(key, peer(1), vec![1, 2, 3], 0);
    store.put(key, peer(2), vec![1, 2, 3], 5);
    let values = store.get(&key, 6);
    assert_eq!(values.len(), 1);
    assert_eq!(values[0].0, peer(2));
}

#[test]
fn keys_stay_apart() {
    let k1 = [0x00; NODEID_BYTELEN];
    let k2 = [0xff; NODEID_BYTELEN];
    let mut store = ExternalStorage::new(900);
    store.put(k1, peer(1), vec![1], 0);
    store.put(k2, peer(1), vec![2], 0);
    assert_eq!(store.get(&k1, 1)[0].1, vec![1]);
    assert_eq!(store.get(&k2, 1)[0].1, vec![2]);
}
