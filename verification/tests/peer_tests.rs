use kademlia::addr::Addr;
use kademlia::addr::AddrV4;
use kademlia::dbus_service::hash;
use kademlia::kbucket::KBuckets;
use kademlia::peer::Id;
use kademlia::peer::Peer;
use kademlia::peer::ID_LEN;
use kademlia::server::PendingRequests;
use kademlia::server::Protocol;

fn loopback(port: u16) -> Addr {
    Addr::V4(AddrV4 { o0: 127, o1: 0, o2: 0, o3: 1, port })
}

#[test]
fn log_distance() {
    let zero = Id::new([0x00; 20]);
    let one = {
        let mut v = [0x00; 20];
        v[19] = 0x01;
        Id::new(v)
    };
    let top = Id::new([0xff; 20]);
    assert_eq!(zero.distance_to(&zero), 0);
    assert_eq!(zero.distance_to(&one), 1);
    assert_eq!(zero.distance_to(&top), ID_LEN);
    assert_eq!(one.distance_to(&zero), 1);
}

#[test]
fn id_bit_operations() {
    let a = Id::new([0b1100_0000; 20]);
    let b = Id::new([0b1010_0000; 20]);
    let and = a.bitand(&b);
    let xor = a.bitxor(&b);
    assert_eq!(and.val[0], 0b1000_0000);
    assert_eq!(xor.val[0], 0b0110_0000);
    assert_eq!(a, Id::new([0b1100_0000; 20]));
    assert_ne!(a, b);
}

#[test]
fn peer_table_update_and_lookup() {
    let own = Id::new([0x00; 20]);
    let mut table = KBuckets::new(own);
    let p = Peer::new(Id::new([0x80; 20]), loopback(1), Protocol::Pinboard);
    assert!(!table.contain(&p));
    table.update(&p, None);
    assert!(table.contain(&p));

    // a second contact only refreshes recency
    table.update(&p, None);
    assert!(table.contain(&p));

    let near = table.get_nearest_peers(5, p.id());
    assert_eq!(near.len(), 1);
    assert!(near[0].strictly_same_as(&p));
}

#[test]
fn peer_table_eviction() {
    let own = Id::new([0x00; 20]);
    let mut table = KBuckets::new(own);
    // fill one bucket: ids 0x80 | x share the top bit of the last byte
    let mut peers = vec![];
    for x in 0..20u8 {
        let mut v = [0x00; 20];
        v[19] = 0x80 | x;
        let p = Peer::new(Id::new(v), loopback(1000 + x as u16), Protocol::Pinboard);
        table.update(&p, None);
        peers.push(p);
    }
    let mut v = [0x00; 20];
    v[19] = 0x80 | 20;
    let newcomer = Peer::new(Id::new(v), loopback(2000), Protocol::Pinboard);

    // every old peer answered its ping: the newcomer is dropped
    table.update(&newcomer, None);
    assert!(!table.contain(&newcomer));

    // one old peer timed out: it leaves and the newcomer joins
    table.update(&newcomer, Some(&peers[0]));
    assert!(table.contain(&newcomer));
    assert!(!table.contain(&peers[0]));
}

#[test]
fn pending_requests_match_one_waiter() {
    let mut pending = PendingRequests::new();
    let addr = loopback(9);
    let cookie = [0x07; 20];
    pending.insert(addr, cookie, 41);
    pending.insert(addr, cookie, 42);
    assert_eq!(pending.take_waiter(addr, &cookie), Some(42));
    assert_eq!(pending.take_waiter(addr, &cookie), None);
    assert_eq!(pending.take_waiter(loopback(10), &cookie), None);
}

#[test]
fn key_derivation_uses_sha1() {
    let digest = hash(&b"test".to_vec(), &b"foo".to_vec());
    assert_eq!(
        digest,
        vec![
            42, 156, 104, 249, 148, 72, 195, 104, 3, 162, 34, 228, 227, 16, 68, 89, 177, 213,
            225, 19
        ]
    );
}

#[test]
fn permit_counting() {
    let mut sem = kademlia::semaphore::Semaphore::new(2);
    assert!(sem.try_acquire());
    assert!(sem.try_acquire());
    assert!(!sem.try_acquire());
    sem.release();
    assert!(sem.try_acquire());
    assert_eq!(sem.count, 0);
}
