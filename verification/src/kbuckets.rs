use vstd::prelude::*;

use crate::Error;
use crate::distance::high_bit_pos;
use crate::distance::high_bit_index;
use crate::kademlia::K_PARAM;
use crate::node::Node;
use crate::node::NodeId;
use crate::node::NODEID_BYTELEN;
use crate::node::spec_xor;
use crate::node::xor;
use crate::node::id_eq;
use crate::node::lemma_xor_zero_iff_eq;
use crate::node::node_same;
use crate::node::same_node;
use crate::node::node_in;
use crate::node::dist_le;
use crate::node::sorted_by_dist;
use crate::node::sort_nodes_by_dist;
use crate::addr::Addr;
use crate::utils::spec_ip4or6;

verus! {

/// The bucket a peer falls into, seen from `own`: the position of the highest
/// set bit of the XOR distance between the two identifiers.
pub open spec fn bucket_of(own: Seq<u8>, id: Seq<u8>) -> int {
    high_bit_pos(spec_xor(own, id))
}

/// Some entry of the bucket carries this identifier.
pub open spec fn has_id(bk: Seq<Node>, id: Seq<u8>) -> bool {
    exists|i: int| 0 <= i < bk.len() && bk[i].node_id@ == id
}

/// The peers of one routing table, flattened bucket by bucket.
pub open spec fn nodes_of(bs: Seq<Seq<Node>>) -> Seq<Node>
    decreases bs.len(),
{
    if bs.len() == 0 {
        Seq::empty()
    } else {
        nodes_of(bs.drop_last()) + bs.last()
    }
}

/// The routing table: one bucket per bit of the identifier space, each a
/// bounded, recency-ordered list of peers.
pub struct KBuckets {
    pub own_id: NodeId,
    pub buckets: Vec<Vec<Node>>,
}

impl KBuckets {
    /// The buckets as plain sequences.
    pub open spec fn view_of(self) -> Seq<Seq<Node>> {
        Seq::new(self.buckets@.len(), |i: int| self.buckets@[i]@)
    }

    /// Every peer known to the routing table.
    pub open spec fn all_nodes(self) -> Seq<Node> {
        nodes_of(self.view_of())
    }

    /// What always holds of one bucket: it is bounded, it never holds two
    /// entries with one identifier, it never holds the local identifier, and
    /// every entry belongs in this very bucket.
    pub open spec fn bucket_wf(self, b: int) -> bool {
        let bk = self.view_of()[b];
        &&& bk.len() <= K_PARAM
        &&& (forall|i: int, j: int|
            0 <= i < j < bk.len() ==> bk[i].node_id@ != bk[j].node_id@)
        &&& (forall|i: int| 0 <= i < bk.len() ==> bk[i].node_id@ != self.own_id@)
        &&& (forall|i: int| 0 <= i < bk.len() ==> bucket_of(self.own_id@, bk[i].node_id@) == b)
    }

    /// What always holds of the whole table.
    pub open spec fn wf(self) -> bool {
        &&& self.view_of().len() == NODEID_BYTELEN * 8
        &&& (forall|b: int| 0 <= b < self.view_of().len() ==> self.bucket_wf(b))
    }

    /// An empty routing table around the local identifier.
    pub fn new(own_id: NodeId) -> (r: KBuckets)
        ensures
            r.wf(),
            r.own_id@ == own_id@,
            r.all_nodes().len() == 0,
    {
        let mut buckets: Vec<Vec<Node>> = Vec::new();
        let mut i: usize = 0;
        while i < NODEID_BYTELEN * 8
            invariant
                0 <= i <= NODEID_BYTELEN * 8,
                buckets@.len() == i,
                forall|b: int| 0 <= b < i ==> buckets@[b]@.len() == 0,
            decreases NODEID_BYTELEN * 8 - i,
        {
            buckets.push(Vec::new());
            i += 1;
        }
        let r = KBuckets { own_id, buckets };
        proof {
            lemma_nodes_of_all_empty(r.view_of());
        }
        r
    }

    /// The index of the bucket a peer with this identifier belongs to, or
    /// `None` when the identifier is the local one. The index returned is
    /// exactly the position of the highest set bit of the XOR distance.
    pub fn get_bucket_idx(&self, node_id: &NodeId) -> (r: Option<usize>)
        ensures
            match r {
                Option::None => node_id@ == self.own_id@,
                Option::Some(i) => node_id@ != self.own_id@ && i == bucket_of(
                    self.own_id@,
                    node_id@,
                ) && i < NODEID_BYTELEN * 8,
            },
    {
        let d = xor(&self.own_id, node_id);
        let r = high_bit_index(d.as_slice());
        proof {
            lemma_xor_zero_iff_eq(self.own_id@, node_id@);
        }
        r
    }

    /// The bucket a peer with this identifier belongs to, or `None` when the
    /// identifier is the local one.
    pub fn get_bucket(&self, node_id: &NodeId) -> (r: Option<&Vec<Node>>)
        requires
            self.wf(),
        ensures
            match r {
                Option::None => node_id@ == self.own_id@,
                Option::Some(bk) => node_id@ != self.own_id@ && bk@ == self.view_of()[bucket_of(
                    self.own_id@,
                    node_id@,
                )],
            },
    {
        match self.get_bucket_idx(node_id) {
            Option::None => Option::None,
            Option::Some(i) => Option::Some(&self.buckets[i]),
        }
    }

    /// Records a peer. The peer is ignored when it claims the local id; an
    /// entry with the same identifier is overwritten (address updates win);
    /// a bucket with room takes the peer at the most-recent end; a full
    /// bucket refuses it and hands it back for the eviction path.
    pub fn add(&mut self, node: Node) -> (r: Result<(), Node>)
        requires
            old(self).wf(),
        ensures
            final(self).wf(),
            final(self).own_id@ == old(self).own_id@,
            final(self).view_of().len() == old(self).view_of().len(),
            (node.node_id@ == old(self).own_id@ ==> r is Ok && final(self).view_of() == old(
                self,
            ).view_of()),
            (node.node_id@ != old(self).own_id@ ==> {
                let b = bucket_of(old(self).own_id@, node.node_id@);
                let obk = old(self).view_of()[b];
                let nbk = final(self).view_of()[b];
                &&& (forall|c: int|
                    0 <= c < old(self).view_of().len() && c != b ==> final(self).view_of()[c]
                        == old(self).view_of()[c])
                &&& (if has_id(obk, node.node_id@) {
                    r is Ok && (exists|i: int|
                        0 <= i < obk.len() && obk[i].node_id@ == node.node_id@ && nbk
                            == obk.update(i, node))
                } else if obk.len() < K_PARAM {
                    r is Ok && nbk == obk.push(node)
                } else {
                    r == Result::<(), Node>::Err(node) && nbk == obk
                })
            }),
    {
        let idx = match self.get_bucket_idx(&node.node_id) {
            Option::None => {
                proof {
                    assert(final(self).view_of() =~~= old(self).view_of());
                }
                return Result::Ok(());
            },
            Option::Some(i) => i,
        };
        let ghost old_views = self.view_of();
        let mut bk = self.buckets.remove(idx);
        let ghost obk = bk@;
        let pos = find_id(&bk, &node.node_id);
        let r: Result<(), Node> = match pos {
            Option::Some(i) => {
                bk.remove(i);
                bk.insert(i, node);
                proof {
                    assert(bk@ =~= obk.update(i as int, node));
                }
                Result::Ok(())
            },
            Option::None => {
                if bk.len() < K_PARAM {
                    bk.push(node);
                    Result::Ok(())
                } else {
                    Result::Err(node)
                }
            },
        };
        self.buckets.insert(idx, bk);
        proof {
            assert(self.view_of() =~~= old_views.update(idx as int, bk@));
            assert forall|b: int| 0 <= b < self.view_of().len() implies self.bucket_wf(b) by {
                assert(old(self).bucket_wf(b));
                if b == idx {
                    assert(self.view_of()[b] == bk@);
                }
            }
        }
        r
    }
}

impl KBuckets {
    /// Builds the descriptor for a peer seen at `addr` under `node_id`: a
    /// matching entry of the routing table is returned as it is (its last-seen
    /// state kept), otherwise a fresh descriptor stamped `now`. A peer that
    /// claims the local identifier is refused, as is a non-global address
    /// while `filter` is on.
    pub fn construct_node(&self, addr: Addr, node_id: NodeId, now: u64, filter: bool) -> (r:
        Result<Node, Error>)
        requires
            self.wf(),
        ensures
            ({
                let ok_addr = !filter || Node::spec_is_global(spec_ip4or6(addr));
                &&& (r is Err <==> (!ok_addr || node_id@ == self.own_id@))
                &&& match r {
                    Result::Err(e) => if !ok_addr {
                        e == Error::AddressUnusable
                    } else {
                        e == Error::InvalidPeerId
                    },
                    Result::Ok(n) => {
                        let bk = self.view_of()[bucket_of(self.own_id@, node_id@)];
                        &&& n.node_id@ == node_id@
                        &&& (if (exists|i: int|
                            0 <= i < bk.len() && bk[i].node_id@ == node_id@ && bk[i].addr
                                == spec_ip4or6(addr)) {
                            exists|i: int|
                                0 <= i < bk.len() && bk[i].node_id@ == node_id@ && bk[i].addr
                                    == spec_ip4or6(addr) && n == bk[i]
                        } else {
                            n.addr == spec_ip4or6(addr) && n.last_seen == now
                        })
                    },
                }
            }),
    {
        let default = if filter {
            match Node::new(addr, node_id, now) {
                Result::Ok(n) => n,
                Result::Err(e) => {
                    return Result::Err(e);
                },
            }
        } else {
            Node::new_unfiltered(addr, node_id, now)
        };
        match self.get_bucket(&node_id) {
            Option::None => Result::Err(Error::InvalidPeerId),
            Option::Some(bk) => {
                let n = bk.len();
                let mut i: usize = 0;
                while i < n
                    invariant
                        n == bk@.len(),
                        0 <= i <= n,
                        self.wf(),
                        node_id@ != self.own_id@,
                        bk@ == self.view_of()[bucket_of(self.own_id@, node_id@)],
                        filter ==> Node::spec_is_global(spec_ip4or6(addr)),
                        default.node_id@ == node_id@,
                        default.addr == spec_ip4or6(addr),
                        default.last_seen == now,
                        forall|j: int|
                            0 <= j < i ==> !(bk@[j].node_id@ == node_id@ && bk@[j].addr
                                == spec_ip4or6(addr)),
                    decreases n - i,
                {
                    if node_same(&bk[i], &default) {
                        proof {
                            let wi = i as int;
                            let bks = self.view_of()[bucket_of(self.own_id@, node_id@)];
                            assert(bks == bk@);
                            assert(node_id@ != self.own_id@);
                            assert(0 <= wi < bks.len() && bks[wi].node_id@ == node_id@
                                && bks[wi].addr == spec_ip4or6(addr));
                        }
                        return Result::Ok(bk[i]);
                    }
                    i += 1;
                }
                Result::Ok(default)
            },
        }
    }

    /// The `n` peers of the whole table that stand closest to `key`, in
    /// ascending XOR-distance order.
    pub fn get_closest_nodes(&self, key: &NodeId, n: usize) -> (r: Vec<Node>)
        requires
            self.wf(),
        ensures
            sorted_by_dist(r@, key@),
            r@.len() == if n <= self.all_nodes().len() {
                n as int
            } else {
                self.all_nodes().len() as int
            },
            forall|i: int| 0 <= i < r@.len() ==> self.all_nodes().contains(#[trigger] r@[i]),
            forall|y: Node|
                self.all_nodes().contains(y) && !r@.contains(y) ==> (forall|i: int|
                    0 <= i < r@.len() ==> dist_le(#[trigger] r@[i], y, key@)),
            (self.all_nodes().len() > 0 && n > 0) ==> (r@.len() > 0 && (forall|y: Node|
                self.all_nodes().contains(y) ==> dist_le(r@[0], y, key@))),
    {
        broadcast use vstd::seq_lib::group_to_multiset_ensures;

        let nb = self.buckets.len();
        let mut nodes: Vec<Node> = Vec::new();
        let mut i: usize = 0;
        while i < nb
            invariant
                nb == self.view_of().len(),
                0 <= i <= nb,
                nodes@ == nodes_of(self.view_of().take(i as int)),
            decreases nb - i,
        {
            let bn = self.buckets[i].len();
            let mut j: usize = 0;
            while j < bn
                invariant
                    nb == self.view_of().len(),
                    0 <= i < nb,
                    bn == self.view_of()[i as int].len(),
                    0 <= j <= bn,
                    nodes@ == nodes_of(self.view_of().take(i as int)) + self.view_of()[i as int].take(
                        j as int,
                    ),
                decreases bn - j,
            {
                nodes.push(self.buckets[i][j]);
                proof {
                    assert(self.view_of()[i as int].take(j + 1) =~= self.view_of()[i as int].take(
                        j as int,
                    ).push(self.view_of()[i as int][j as int]));
                    assert(nodes@ =~= nodes_of(self.view_of().take(i as int)) + self.view_of()[i as int].take(
                        j + 1,
                    ));
                }
                j += 1;
            }
            proof {
                assert(self.view_of().take(i + 1).drop_last() =~= self.view_of().take(i as int));
                assert(self.view_of()[i as int].take(bn as int) =~= self.view_of()[i as int]);
                assert(nodes@ =~= nodes_of(self.view_of().take(i + 1)));
            }
            i += 1;
        }
        proof {
            assert(self.view_of().take(nb as int) =~= self.view_of());
            assert(nodes@ == self.all_nodes());
        }
        let mut sorted = sort_nodes_by_dist(&nodes, key);
        let ghost full = sorted@;
        sorted.truncate(n);
        proof {
            assert forall|i2: int| 0 <= i2 < sorted@.len() implies self.all_nodes().contains(
                #[trigger] sorted@[i2],
            ) by {
                assert(full[i2] == sorted@[i2]);
                assert(full.contains(full[i2]));
                assert(full.to_multiset().count(full[i2]) > 0);
                assert(self.all_nodes().to_multiset().count(full[i2]) > 0);
            }
            assert forall|y: Node|
                self.all_nodes().contains(y) && !sorted@.contains(y) implies (forall|i2: int|
                0 <= i2 < sorted@.len() ==> dist_le(#[trigger] sorted@[i2], y, key@)) by {
                assert(self.all_nodes().to_multiset().count(y) > 0);
                assert(full.to_multiset().count(y) > 0);
                assert(full.contains(y));
                let j = choose|j: int| 0 <= j < full.len() && full[j] == y;
                assert(j >= sorted@.len()) by {
                    if j < sorted@.len() {
                        assert(sorted@[j] == y);
                        assert(sorted@.contains(y));
                    }
                }
                assert forall|i2: int|
                    0 <= i2 < sorted@.len() implies dist_le(#[trigger] sorted@[i2], y, key@) by {
                    assert(sorted@[i2] == full[i2]);
                    assert(dist_le(full[i2], full[j], key@));
                }
            }
            if self.all_nodes().len() > 0 && n > 0 {
                assert(full.len() > 0);
                assert(sorted@.len() > 0);
                assert(sorted@[0] == full[0]);
                assert forall|y: Node| self.all_nodes().contains(y) implies dist_le(
                    sorted@[0],
                    y,
                    key@,
                ) by {
                    assert(self.all_nodes().to_multiset().count(y) > 0);
                    assert(full.to_multiset().count(y) > 0);
                    assert(full.contains(y));
                    let j = choose|j: int| 0 <= j < full.len() && full[j] == y;
                    if j == 0 {
                        crate::node::lemma_dist_le_refl(y, key@);
                    } else {
                        assert(dist_le(full[0], full[j], key@));
                    }
                }
            }
        }
        sorted
    }
}

/// What eviction does to one bucket, seen from the table's views: at most
/// the first entry standing for the evicted peer leaves its bucket, every
/// other bucket stays as it was.
pub open spec fn eviction_effect(
    pre: Seq<Seq<Node>>,
    post: Seq<Seq<Node>>,
    b: int,
    node: Node,
    r: bool,
) -> bool {
    let obk = pre[b];
    let nbk = post[b];
    &&& (forall|c: int| 0 <= c < pre.len() && c != b ==> post[c] == pre[c])
    &&& (if node_in(obk, node) {
        r && (exists|i: int|
            0 <= i < obk.len() && same_node(obk[i], node) && nbk == obk.remove(i))
    } else {
        !r && nbk == obk
    })
}

impl KBuckets {
    /// The bucket a peer belongs to, ordered stalest-first: the order in
    /// which the eviction path pings the bucket's peers.
    pub fn stale_snapshot(&self, node_id: &NodeId) -> (r: Vec<Node>)
        requires
            self.wf(),
        ensures
            node_id@ == self.own_id@ ==> r@.len() == 0,
            node_id@ != self.own_id@ ==> crate::node::sorted_by_last_seen(r@)
                && r@.to_multiset() == self.view_of()[bucket_of(
                self.own_id@,
                node_id@,
            )].to_multiset(),
    {
        match self.get_bucket(node_id) {
            Option::None => Vec::new(),
            Option::Some(bk) => crate::node::sort_nodes_by_last_seen(bk),
        }
    }

    /// Evicts the first entry that stands for the same peer as `node`, if
    /// any; the bucket keeps its order otherwise. Returns whether an entry
    /// left the table.
    pub fn remove_node(&mut self, node: &Node) -> (r: bool)
        requires
            old(self).wf(),
        ensures
            final(self).wf(),
            final(self).own_id@ == old(self).own_id@,
            final(self).view_of().len() == old(self).view_of().len(),
            node.node_id@ == old(self).own_id@ ==> !r && final(self).view_of() == old(
                self,
            ).view_of(),
            node.node_id@ != old(self).own_id@ ==> eviction_effect(
                old(self).view_of(),
                final(self).view_of(),
                bucket_of(old(self).own_id@, node.node_id@),
                *node,
                r,
            ),
    {
        let idx = match self.get_bucket_idx(&node.node_id) {
            Option::None => {
                proof {
                    assert(final(self).view_of() =~~= old(self).view_of());
                }
                return false;
            },
            Option::Some(i) => i,
        };
        let ghost old_views = self.view_of();
        proof {
            assert(old_views == old(self).view_of());
        }
        let mut bk = self.buckets.remove(idx);
        let ghost obk = bk@;
        proof {
            assert(obk == old_views[idx as int]);
        }
        let pos = {
            let n = bk.len();
            let mut i: usize = 0;
            let mut found: Option<usize> = Option::None;
            while i < n
                invariant
                    n == bk@.len(),
                    0 <= i <= n,
                    match found {
                        Option::Some(p) => p < n && same_node(bk@[p as int], *node) && (forall|
                            j: int,
                        |
                            0 <= j < p ==> !same_node(bk@[j], *node)),
                        Option::None => forall|j: int| 0 <= j < i ==> !same_node(bk@[j], *node),
                    },
                decreases n - i,
            {
                if matches!(found, Option::None) && node_same(&bk[i], node) {
                    found = Option::Some(i);
                }
                i += 1;
            }
            found
        };
        let r = match pos {
            Option::Some(i) => {
                bk.remove(i);
                proof {
                    assert(0 <= i < obk.len() && same_node(obk[i as int], *node));
                    assert(node_in(obk, *node));
                    assert(bk@ == obk.remove(i as int));
                }
                true
            },
            Option::None => false,
        };
        self.buckets.insert(idx, bk);
        proof {
            assert(self.view_of() =~~= old_views.update(idx as int, bk@));
            assert(self.view_of()[idx as int] == bk@);
            assert(eviction_effect(old(self).view_of(), self.view_of(), idx as int, *node, r));
            assert forall|b: int| 0 <= b < self.view_of().len() implies self.bucket_wf(b) by {
                assert(old(self).bucket_wf(b));
                if b == idx {
                    assert(self.view_of()[b] == bk@);
                    if r {
                        let i = choose|i: int|
                            0 <= i < obk.len() && same_node(obk[i], *node) && bk@ == obk.remove(i);
                        assert forall|p: int, q: int|
                            0 <= p < q < bk@.len() implies bk@[p].node_id@ != bk@[q].node_id@ by {
                            let p0: int = if p < i {
                                p
                            } else {
                                p + 1
                            };
                            let q0: int = if q < i {
                                q
                            } else {
                                q + 1
                            };
                            assert(bk@[p] == obk[p0] && bk@[q] == obk[q0]);
                        }
                        assert forall|p: int| 0 <= p < bk@.len() implies bk@[p].node_id@ != self.own_id@
                            && bucket_of(self.own_id@, bk@[p].node_id@) == b by {
                            let p0: int = if p < i {
                                p
                            } else {
                                p + 1
                            };
                            assert(bk@[p] == obk[p0]);
                        }
                    }
                }
            }
        }
        r
    }
}

/// Finds an entry carrying this identifier.
fn find_id(bk: &Vec<Node>, id: &NodeId) -> (r: Option<usize>)
    ensures
        match r {
            Option::Some(i) => i < bk@.len() && bk@[i as int].node_id@ == id@,
            Option::None => !has_id(bk@, id@),
        },
{
    let n = bk.len();
    let mut i: usize = 0;
    while i < n
        invariant
            n == bk@.len(),
            0 <= i <= n,
            forall|j: int| 0 <= j < i ==> bk@[j].node_id@ != id@,
        decreases n - i,
    {
        if id_eq(&bk[i].node_id, id) {
            return Option::Some(i);
        }
        i += 1;
    }
    Option::None
}

/// With no churn a lookup only adds peers, and growing knowledge only helps:
/// whenever every peer known before is still known after, the closest known
/// peer afterwards stands at most as far from the key as every peer known
/// before — the closest known distance never worsens.
pub proof fn lemma_closest_distance_monotone(
    before: Seq<Node>,
    after: Seq<Node>,
    best: Node,
    key: Seq<u8>,
)
    requires
        forall|x: Node| before.contains(x) ==> after.contains(x),
        after.contains(best),
        forall|y: Node| after.contains(y) ==> dist_le(best, y, key),
    ensures
        forall|y: Node| before.contains(y) ==> dist_le(best, y, key),
{
}

proof fn lemma_nodes_of_all_empty(bs: Seq<Seq<Node>>)
    requires
        forall|i: int| 0 <= i < bs.len() ==> bs[i].len() == 0,
    ensures
        nodes_of(bs).len() == 0,
    decreases bs.len(),
{
    if bs.len() > 0 {
        lemma_nodes_of_all_empty(bs.drop_last());
    }
}

} // verus!
