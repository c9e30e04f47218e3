use kademlia::addr::Addr;
use kademlia::addr::AddrV4;
use kademlia::addr::AddrV6;
use kademlia::node::Node;
use kademlia::node::NODEID_BYTELEN;
use kademlia::node::xor;
use kademlia::utils::ip4or6;
use kademlia::Error;

fn loopback(port: u16) -> Addr {
    Addr::V4(AddrV4 { o0: 127, o1: 0, o2: 0, o3: 1, port })
}

#[test]
fn dist() {
    let node = Node::new_unfiltered(
        loopback(2134),
        [
            0x00, 0x00, 0x00, 0x00, 0x00, 0x00, 0x00, 0x00, 0x00, 0x00, 0x00, 0x00, 0x00, 0x00,
            0x00, 0x00, 0x00, 0x00, 0x00, 0x00,
        ],
        0,
    );

    let zeros = [
        0x00, 0x00, 0x00, 0x00, 0x00, 0x00, 0x00, 0x00, 0x00, 0x00, 0x00, 0x00, 0x00, 0x00, 0x00,
        0x00, 0x00, 0x00, 0x00, 0x00,
    ];
    let ones = [
        0xff, 0xff, 0xff, 0xff, 0xff, 0xff, 0xff, 0xff, 0xff, 0xff, 0xff, 0xff, 0xff, 0xff, 0xff,
        0xff, 0xff, 0xff, 0xff, 0xff,
    ];
    let zero_ones = [
        0x00, 0x00, 0x00, 0x00, 0x00, 0x00, 0x00, 0x00, 0x00, 0x00, 0xff, 0xff, 0xff, 0xff, 0xff,
        0xff, 0xff, 0xff, 0xff, 0xff,
    ];
    let one_zeros = [
        0xff, 0xff, 0xff, 0xff, 0xff, 0xff, 0xff, 0xff, 0xff, 0xff, 0x00, 0x00, 0x00, 0x00, 0x00,
        0x00, 0x00, 0x00, 0x00, 0x00,
    ];
    assert_eq!(node.dist(&node.node_id.clone()), zeros);
    assert_eq!(node.dist(&zeros), zeros);

    assert!(node.dist(&zeros) < node.dist(&ones));
    assert!(node.dist(&zeros) < node.dist(&zero_ones));
    assert!(node.dist(&zero_ones) < node.dist(&one_zeros));
    assert!(node.dist(&one_zeros) < node.dist(&ones));

    assert!(
        [
            0x7f, 0x00, 0x00, 0x00, 0x00, 0x00, 0x00, 0x00, 0x00, 0x00, 0x00, 0x00, 0x00, 0x00,
            0x00, 0x00, 0x00, 0x00, 0x00, 0x00
        ] > [
            0x00, 0x00, 0x00, 0x00, 0x00, 0x00, 0x00, 0x00, 0x00, 0x00, 0x00, 0x00, 0x00, 0x00,
            0x00, 0x00, 0x00, 0x00, 0x00, 0x01
        ]
    )
}

#[test]
fn asc_order() {
    let id0xff = [0xff; NODEID_BYTELEN];
    let id0x00 = [0x00; NODEID_BYTELEN];

    let node0x00 = Node::new_unfiltered(loopback(2134), id0x00.clone(), 0);
    let node0xff = Node::new_unfiltered(loopback(2134), id0xff.clone(), 0);

    let mut nodes = vec![node0xff.clone(), node0x00.clone()];

    nodes.sort_by(|n1, n2| n1.dist(&id0x00).cmp(&n2.dist(&id0x00)));
    assert_eq!(nodes, vec![node0x00.clone(), node0xff.clone()]);

    nodes.sort_by(|n1, n2| n1.dist(&id0x00).cmp(&n2.dist(&id0x00)).reverse());
    assert_eq!(nodes, vec![node0xff, node0x00]);
}

#[test]
fn xor_is_symmetric_and_zero_on_self() {
    let a = [0x12; NODEID_BYTELEN];
    let b = [0x34; NODEID_BYTELEN];
    assert_eq!(xor(&a, &b), xor(&b, &a));
    assert_eq!(xor(&a, &a), [0u8; NODEID_BYTELEN]);
}

#[test]
fn address_filter() {
    let private = Addr::V4(AddrV4 { o0: 10, o1: 0, o2: 0, o3: 1, port: 1 });
    let lo = loopback(1);
    let global = Addr::V4(AddrV4 { o0: 8, o1: 8, o2: 8, o3: 8, port: 53 });
    assert!(!Node::is_address_valid(&private));
    assert!(!Node::is_address_valid(&lo));
    assert!(Node::is_address_valid(&global));

    let id = [0x01; NODEID_BYTELEN];
    assert_eq!(Node::new(lo, id, 0).err(), Some(Error::AddressUnusable));
    assert!(Node::new(global, id, 0).is_ok());
}

#[test]
fn v4_mapped_addresses_fold() {
    let mapped = Addr::V6(AddrV6 {
        s0: 0,
        s1: 0,
        s2: 0,
        s3: 0,
        s4: 0,
        s5: 0xffff,
        s6: 0x0102,
        s7: 0x0304,
        port: 99,
    });
    let folded = ip4or6(mapped);
    assert_eq!(folded, Addr::V4(AddrV4 { o0: 1, o1: 2, o2: 3, o3: 4, port: 99 }));

    let plain = Addr::V6(AddrV6 {
        s0: 0x2001,
        s1: 0xdb8,
        s2: 0,
        s3: 0,
        s4: 0,
        s5: 0,
        s6: 0,
        s7: 1,
        port: 99,
    });
    assert_eq!(ip4or6(plain), plain);
}
