use kademlia::addr::Addr;
use kademlia::addr::AddrV4;
use kademlia::closest_nodes_iter::ClosestNodesIter;
use kademlia::node::Node;
use kademlia::node::NODEID_BYTELEN;

fn loopback(port: u16) -> Addr {
    Addr::V4(AddrV4 { o0: 127, o1: 0, o2: 0, o3: 1, port })
}

#[test]
fn empty() {
    let key = [0; NODEID_BYTELEN];
    let mut iter = ClosestNodesIter::new(key, 10, vec![]);

    assert_eq!(iter.next(), None);
}

#[test]
fn order() {
    for count in 2..4 {
        let key = [0; NODEID_BYTELEN];

        let node0xff = Node::new_unfiltered(loopback(2134), [0xff; NODEID_BYTELEN], 0);

        let mut iter = ClosestNodesIter::new(key, count, vec![node0xff.clone()]);

        let node0x77 = Node::new_unfiltered(loopback(2134), [0x77; NODEID_BYTELEN], 0);
        iter.add_nodes(vec![node0x77.clone()]);
        assert_eq!(iter.next(), Some(node0x77));

        let node0x00 = Node::new_unfiltered(loopback(2134), [0x00; NODEID_BYTELEN], 0);
        iter.add_nodes(vec![node0x00.clone()]);
        assert_eq!(iter.next(), Some(node0x00));

        if count == 3 {
            assert_eq!(iter.next(), Some(node0xff));
        }

        assert_eq!(iter.next(), None);
    }
}

#[test]
fn never_yields_a_peer_twice() {
    let key = [0; NODEID_BYTELEN];
    let near = Node::new_unfiltered(loopback(1), [0x01; NODEID_BYTELEN], 0);
    let mut iter = ClosestNodesIter::new(key, 5, vec![near.clone()]);
    assert_eq!(iter.next(), Some(near.clone()));
    // offering the same peer again leaves it processed
    iter.add_nodes(vec![near.clone()]);
    assert_eq!(iter.next(), None);
}

#[test]
fn pending_receivers_count() {
    let key = [0; NODEID_BYTELEN];
    let mut iter = ClosestNodesIter::new(key, 5, vec![]);
    assert_eq!(iter.pending_receivers, 0);
    iter.register_receiver();
    iter.register_receiver();
    assert_eq!(iter.pending_receivers, 2);
    iter.unregister_receiver();
    assert_eq!(iter.pending_receivers, 1);
}
