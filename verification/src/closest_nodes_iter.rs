use vstd::prelude::*;

use crate::node::Node;
use crate::node::NodeId;
use crate::node::same_node;
use crate::node::node_in;
use crate::node::contains_same;
use crate::node::dist_le;
use crate::node::dist_le_exec;
use crate::node::sorted_by_dist;
use crate::node::sort_nodes_by_dist;
use crate::node::peers_distinct;
use crate::node::lemma_distinct_permutation;
use crate::node::insert_pos;
use crate::node::lemma_dist_le_refl;
use crate::node::lemma_dist_le_trans;

verus! {

/// The shared work list of a lookup: candidates to ask next, ordered by XOR
/// distance to the target key, and the peers already asked. Producers feed
/// candidates in through `add_nodes`; the query driver draws them out through
/// `next`. The pending-receiver count says how many producers may still
/// contribute; the driver waits while it is positive and the queue is empty.
pub struct ClosestNodesIter {
    pub key: NodeId,
    pub count: usize,
    pub processed_nodes: Vec<Node>,
    pub unprocessed_nodes: Vec<Node>,
    pub pending_receivers: usize,
}

/// Ascending order seen from the tail: taking from the back of a list sorted
/// this way yields the closest candidate first.
pub open spec fn sorted_by_dist_desc(s: Seq<Node>, key: Seq<u8>) -> bool {
    forall|i: int, j: int| 0 <= i < j < s.len() ==> dist_le(s[j], s[i], key)
}

/// No queued candidate stands for an already-processed peer.
pub open spec fn queue_apart(u: Seq<Node>, p: Seq<Node>) -> bool {
    forall|i: int| 0 <= i < u.len() ==> !node_in(p, #[trigger] u[i])
}

/// The candidate is outranked: the processed list already holds at least
/// `count` peers, and its `count`-th closest stands at most as far from the
/// key as the candidate does.
pub open spec fn outranked(p: Seq<Node>, count: int, key: Seq<u8>, c: Node) -> bool {
    p.len() >= count && dist_le(p[count - 1], c, key)
}

/// A yield of the iterator: the peer was not yet processed before the call
/// and stands processed after it, and the processed set only ever grows.
pub open spec fn yield_step(pre: ClosestNodesIter, post: ClosestNodesIter, n: Node) -> bool {
    &&& !node_in(pre.processed_nodes@, n)
    &&& node_in(post.processed_nodes@, n)
    &&& processed_monotone(pre, post)
}

/// Every peer processed in `a` is still processed in `b`.
pub open spec fn processed_monotone(a: ClosestNodesIter, b: ClosestNodesIter) -> bool {
    forall|x: Node| node_in(a.processed_nodes@, x) ==> node_in(b.processed_nodes@, x)
}

/// `y` is a candidate the merge must account for: it stood in the queue
/// before, or it is offered now and not yet processed.
pub open spec fn admitted(
    pre_unproc: Seq<Node>,
    pre_proc: Seq<Node>,
    offered: Seq<Node>,
    y: Node,
) -> bool {
    pre_unproc.contains(y) || (offered.contains(y) && !node_in(pre_proc, y))
}

/// `y` is accounted for afterwards: some entry stands for it, or the queue is
/// full of entries all at most as far from the key.
pub open spec fn kept_or_crowded(post_unproc: Seq<Node>, count: int, key: Seq<u8>, y: Node) -> bool {
    node_in(post_unproc, y) || (post_unproc.len() == count && (forall|i: int|
        0 <= i < post_unproc.len() ==> dist_le(#[trigger] post_unproc[i], y, key)))
}

pub open spec fn admits_all(
    pre_unproc: Seq<Node>,
    pre_proc: Seq<Node>,
    count: int,
    key: Seq<u8>,
    offered: Seq<Node>,
    post_unproc: Seq<Node>,
) -> bool {
    forall|y: Node|
        admitted(pre_unproc, pre_proc, offered, y) ==> kept_or_crowded(post_unproc, count, key, y)
}

/// A list sorted descending by distance hands out the closest entry last: the
/// tail element stands at most as far from the key as every other entry, so
/// popping from the back walks the candidates in ascending-closest order.
pub proof fn lemma_desc_pop_yields_closest(s: Seq<Node>, key: Seq<u8>)
    requires
        sorted_by_dist_desc(s, key),
        s.len() > 0,
    ensures
        forall|i: int| 0 <= i < s.len() ==> dist_le(s.last(), s[i], key),
        sorted_by_dist(s.reverse(), key),
{
    assert forall|i: int| 0 <= i < s.len() implies dist_le(s.last(), s[i], key) by {
        if i == s.len() - 1 {
            lemma_dist_le_refl(s.last(), key);
        }
    }
    assert forall|i: int, j: int|
        0 <= i < j < s.reverse().len() implies dist_le(s.reverse()[i], s.reverse()[j], key) by {
        assert(s.reverse()[i] == s[s.len() - 1 - i]);
        assert(s.reverse()[j] == s[s.len() - 1 - j]);
    }
}

/// A peer is yielded at most once: after one `next` has yielded a peer, no
/// later `next` on the shared state can yield the same peer again, no matter
/// what runs in between, as long as every step keeps the processed set
/// growing (every operation of the iterator does).
pub proof fn lemma_yields_at_most_once(
    s0: ClosestNodesIter,
    s1: ClosestNodesIter,
    s2: ClosestNodesIter,
    s3: ClosestNodesIter,
    n1: Node,
    n2: Node,
)
    requires
        yield_step(s0, s1, n1),
        processed_monotone(s1, s2),
        yield_step(s2, s3, n2),
    ensures
        !same_node(n1, n2),
{
    if same_node(n1, n2) {
        assert(node_in(s2.processed_nodes@, n1));
        let i = choose|i: int|
            0 <= i < s2.processed_nodes@.len() && same_node(s2.processed_nodes@[i], n1);
        assert(same_node(s2.processed_nodes@[i], n2));
        assert(node_in(s2.processed_nodes@, n2));
    }
}

/// Turns a list around.
fn reverse_nodes(v: &Vec<Node>) -> (r: Vec<Node>)
    ensures
        r@ == v@.reverse(),
{
    let n = v.len();
    let mut out: Vec<Node> = Vec::new();
    let mut i: usize = n;
    while i > 0
        invariant
            n == v@.len(),
            0 <= i <= n,
            out@.len() == n - i,
            forall|j: int| 0 <= j < out@.len() ==> out@[j] == v@[n - 1 - j],
        decreases i,
    {
        i -= 1;
        out.push(v[i]);
    }
    proof {
        assert(out@ =~= v@.reverse());
    }
    out
}

impl ClosestNodesIter {
    /// The state is consistent: the count is a usable bound, the queue holds
    /// at most one entry per peer and no peer that was already processed, and
    /// the processed list is in ascending query order without repeats.
    pub open spec fn iter_wf(self) -> bool {
        &&& self.count >= 1
        &&& peers_distinct(self.unprocessed_nodes@)
        &&& peers_distinct(self.processed_nodes@)
        &&& sorted_by_dist(self.processed_nodes@, self.key@)
        &&& queue_apart(self.unprocessed_nodes@, self.processed_nodes@)
    }

    /// A fresh work list over `key`, seeded with `node_list`; `count` is how
    /// many peers the lookup wants to settle on.
    pub fn new(key: NodeId, count: usize, node_list: Vec<Node>) -> (r: ClosestNodesIter)
        requires
            count >= 1,
        ensures
            r.iter_wf(),
            r.key@ == key@,
            r.count == count,
            r.pending_receivers == 0,
            r.processed_nodes@.len() == 0,
            sorted_by_dist(r.unprocessed_nodes@, key@),
            r.unprocessed_nodes@.len() <= count,
            forall|i: int|
                0 <= i < r.unprocessed_nodes@.len() ==> node_list@.contains(
                    #[trigger] r.unprocessed_nodes@[i],
                ),
            admits_all(Seq::empty(), Seq::empty(), count as int, key@, node_list@, r.unprocessed_nodes@),
    {
        let mut this = ClosestNodesIter {
            key,
            count,
            processed_nodes: Vec::new(),
            unprocessed_nodes: Vec::new(),
            pending_receivers: 0,
        };
        proof {
            assert(this.processed_nodes@ =~= Seq::<Node>::empty());
            assert(this.unprocessed_nodes@ =~= Seq::<Node>::empty());
        }
        this.add_nodes(node_list);
        this
    }

    /// Merges candidates into the queue: peers already asked or already
    /// queued are left out, the queue is re-sorted by distance, and only the
    /// `count` closest stay. A candidate is either represented in the queue
    /// or the queue is full of entries at most as far from the key.
    pub fn add_nodes(&mut self, node_list: Vec<Node>)
        requires
            old(self).iter_wf(),
        ensures
            final(self).iter_wf(),
            final(self).key == old(self).key,
            final(self).count == old(self).count,
            final(self).pending_receivers == old(self).pending_receivers,
            final(self).processed_nodes == old(self).processed_nodes,
            sorted_by_dist(final(self).unprocessed_nodes@, old(self).key@),
            final(self).unprocessed_nodes@.len() <= old(self).count,
            forall|i: int|
                0 <= i < final(self).unprocessed_nodes@.len() ==> old(
                    self,
                ).unprocessed_nodes@.contains(#[trigger] final(self).unprocessed_nodes@[i]) || (
                node_list@.contains(final(self).unprocessed_nodes@[i]) && !node_in(
                    old(self).processed_nodes@,
                    final(self).unprocessed_nodes@[i],
                )),
            admits_all(
                old(self).unprocessed_nodes@,
                old(self).processed_nodes@,
                old(self).count as int,
                old(self).key@,
                node_list@,
                final(self).unprocessed_nodes@,
            ),
    {
        let un = self.unprocessed_nodes.len();
        let mut merged: Vec<Node> = Vec::new();
        let mut i: usize = 0;
        while i < un
            invariant
                un == self.unprocessed_nodes@.len(),
                0 <= i <= un,
                merged@ == self.unprocessed_nodes@.take(i as int),
            decreases un - i,
        {
            merged.push(self.unprocessed_nodes[i]);
            proof {
                assert(merged@ =~= self.unprocessed_nodes@.take(i + 1));
            }
            i += 1;
        }
        proof {
            assert(self.unprocessed_nodes@.take(un as int) =~= self.unprocessed_nodes@);
            assert forall|a: int, b: int| #![trigger merged@[a], merged@[b]]
                0 <= a < b < merged@.len() implies !same_node(merged@[a], merged@[b]) by {
                assert(merged@[a] == old(self).unprocessed_nodes@[a]);
                assert(merged@[b] == old(self).unprocessed_nodes@[b]);
            }
        }
        let ln = node_list.len();
        let mut j: usize = 0;
        while j < ln
            invariant
                ln == node_list@.len(),
                0 <= j <= ln,
                *self == *old(self),
                old(self).iter_wf(),
                peers_distinct(merged@),
                forall|k: int|
                    0 <= k < merged@.len() ==> old(self).unprocessed_nodes@.contains(
                        #[trigger] merged@[k],
                    ) || (node_list@.contains(merged@[k]) && !node_in(
                        self.processed_nodes@,
                        merged@[k],
                    )),
                forall|k: int|
                    0 <= k < merged@.len() ==> !node_in(
                        old(self).processed_nodes@,
                        #[trigger] merged@[k],
                    ),
                forall|y: Node|
                    old(self).unprocessed_nodes@.contains(y) || (node_list@.take(j as int).contains(
                        y,
                    ) && !node_in(self.processed_nodes@, y)) ==> node_in(merged@, y),
            decreases ln - j,
        {
            let x = node_list[j];
            let ghost pre_m = merged@;
            let fresh_peer = !contains_same(&self.processed_nodes, &x) && !contains_same(
                &merged,
                &x,
            );
            if fresh_peer {
                merged.push(x);
                proof {
                    assert(node_list@.contains(node_list@[j as int]));
                    assert forall|a: int, b: int| #![trigger merged@[a], merged@[b]]
                        0 <= a < b < merged@.len() implies !same_node(merged@[a], merged@[b]) by {
                        if b < merged@.len() - 1 {
                            assert(merged@[a] == pre_m[a] && merged@[b] == pre_m[b]);
                        } else {
                            assert(merged@[a] == pre_m[a]);
                            assert(!same_node(pre_m[a], x));
                        }
                    }
                }
            }
            proof {
                assert(node_list@.take(j + 1) =~= node_list@.take(j as int).push(
                    node_list@[j as int],
                ));
                assert forall|y: Node|
                    old(self).unprocessed_nodes@.contains(y) || (node_list@.take(j + 1).contains(y)
                        && !node_in(self.processed_nodes@, y)) implies node_in(merged@, y) by {
                    let was = old(self).unprocessed_nodes@.contains(y) || (node_list@.take(
                        j as int,
                    ).contains(y) && !node_in(self.processed_nodes@, y));
                    if was {
                        assert(node_in(pre_m, y));
                        let k = choose|k: int| 0 <= k < pre_m.len() && same_node(pre_m[k], y);
                        assert(merged@[k] == pre_m[k]);
                        assert(node_in(merged@, y));
                    } else {
                        assert(y == node_list@[j as int]);
                        if fresh_peer {
                            assert(same_node(merged@.last(), y));
                            assert(node_in(merged@, y));
                        } else {
                            assert(node_in(merged@, y));
                        }
                    }
                }
            }
            j += 1;
        }
        proof {
            assert(node_list@.take(ln as int) =~= node_list@);
        }
        let sorted = sort_nodes_by_dist(&merged, &self.key);
        let ghost sd = sorted@;
        self.unprocessed_nodes = sorted;
        self.unprocessed_nodes.truncate(self.count);
        proof {
            broadcast use vstd::seq_lib::group_to_multiset_ensures;

            lemma_distinct_permutation(merged@, sd);
            if self.count <= sd.len() {
                assert(self.unprocessed_nodes@ == sd.subrange(0, self.count as int));
            } else {
                assert(self.unprocessed_nodes@ == sd);
            }
            assert forall|a: int, b: int|
                #![trigger self.unprocessed_nodes@[a], self.unprocessed_nodes@[b]]
                0 <= a < b < self.unprocessed_nodes@.len() implies !same_node(
                self.unprocessed_nodes@[a],
                self.unprocessed_nodes@[b],
            ) by {
                assert(self.unprocessed_nodes@[a] == sd[a]);
                assert(self.unprocessed_nodes@[b] == sd[b]);
            }
            assert forall|x: Node| sd.contains(x) implies merged@.contains(x) by {
                assert(sd.to_multiset().count(x) > 0);
                assert(merged@.to_multiset().count(x) > 0);
            }
            assert forall|x: Node| merged@.contains(x) implies sd.contains(x) by {
                assert(merged@.to_multiset().count(x) > 0);
                assert(sd.to_multiset().count(x) > 0);
            }
            assert forall|i2: int|
                0 <= i2 < self.unprocessed_nodes@.len() implies (old(
                self,
            ).unprocessed_nodes@.contains(#[trigger] self.unprocessed_nodes@[i2]) || (
            node_list@.contains(self.unprocessed_nodes@[i2]) && !node_in(
                old(self).processed_nodes@,
                self.unprocessed_nodes@[i2],
            ))) by {
                assert(self.unprocessed_nodes@[i2] == sd[i2]);
                assert(sd.contains(sd[i2]));
                assert(merged@.contains(sd[i2]));
                let k = choose|k: int| 0 <= k < merged@.len() && merged@[k] == sd[i2];
            }
            assert forall|i2: int|
                0 <= i2 < self.unprocessed_nodes@.len() implies !node_in(
                self.processed_nodes@,
                #[trigger] self.unprocessed_nodes@[i2],
            ) by {
                assert(self.unprocessed_nodes@[i2] == sd[i2]);
                assert(sd.contains(sd[i2]));
                assert(sd.to_multiset().count(sd[i2]) > 0);
                assert(merged@.to_multiset().count(sd[i2]) > 0);
                assert(merged@.contains(sd[i2]));
                let k = choose|k: int| 0 <= k < merged@.len() && merged@[k] == sd[i2];
            }
            assert(admits_all(
                old(self).unprocessed_nodes@,
                old(self).processed_nodes@,
                old(self).count as int,
                old(self).key@,
                node_list@,
                self.unprocessed_nodes@,
            )) by {
                assert forall|y: Node|
                    admitted(
                        old(self).unprocessed_nodes@,
                        old(self).processed_nodes@,
                        node_list@,
                        y,
                    ) implies kept_or_crowded(
                    self.unprocessed_nodes@,
                    old(self).count as int,
                    old(self).key@,
                    y,
                ) by {
                    assert(node_in(merged@, y));
                    let k = choose|k: int| 0 <= k < merged@.len() && same_node(merged@[k], y);
                    assert(sd.contains(merged@[k]));
                    let m = choose|m: int| 0 <= m < sd.len() && sd[m] == merged@[k];
                    assert(same_node(sd[m], y));
                    if m < self.count {
                        assert(self.unprocessed_nodes@[m] == sd[m]);
                        assert(node_in(self.unprocessed_nodes@, y));
                    } else {
                        assert(self.unprocessed_nodes@.len() == old(self).count);
                        assert forall|i2: int|
                            0 <= i2 < self.unprocessed_nodes@.len() implies dist_le(
                            #[trigger] self.unprocessed_nodes@[i2],
                            y,
                            old(self).key@,
                        ) by {
                            assert(self.unprocessed_nodes@[i2] == sd[i2]);
                            assert(dist_le(sd[i2], sd[m], old(self).key@));
                            assert(sd[m].node_id@ == y.node_id@);
                        }
                    }
                }
            }
        }
    }

    /// Merges one candidate, with the same rules as `add_nodes`.
    pub fn add_node(&mut self, node: Node)
        requires
            old(self).iter_wf(),
        ensures
            final(self).iter_wf(),
            final(self).key == old(self).key,
            final(self).count == old(self).count,
            final(self).pending_receivers == old(self).pending_receivers,
            final(self).processed_nodes == old(self).processed_nodes,
            sorted_by_dist(final(self).unprocessed_nodes@, old(self).key@),
            final(self).unprocessed_nodes@.len() <= old(self).count,
            forall|i: int|
                0 <= i < final(self).unprocessed_nodes@.len() ==> old(
                    self,
                ).unprocessed_nodes@.contains(#[trigger] final(self).unprocessed_nodes@[i]) || (
                final(self).unprocessed_nodes@[i] == node && !node_in(
                    old(self).processed_nodes@,
                    node,
                )),
            admits_all(
                old(self).unprocessed_nodes@,
                old(self).processed_nodes@,
                old(self).count as int,
                old(self).key@,
                seq![node],
                final(self).unprocessed_nodes@,
            ),
    {
        let single = vec![node];
        let ghost sl = single@;
        proof {
            assert(sl.len() == 1 && sl[0] == node);
            assert(sl.contains(node));
            assert(sl =~= seq![node]);
        }
        self.add_nodes(single);
        proof {
            assert forall|i: int|
                0 <= i < self.unprocessed_nodes@.len() && !old(self).unprocessed_nodes@.contains(
                    #[trigger] self.unprocessed_nodes@[i],
                ) implies (self.unprocessed_nodes@[i] == node && !node_in(
                old(self).processed_nodes@,
                node,
            )) by {
                assert(sl.contains(self.unprocessed_nodes@[i]));
                let k = choose|k: int| 0 <= k < sl.len() && sl[k] == self.unprocessed_nodes@[i];
                assert(k == 0);
            }
        }
    }

    /// One producer more may still contribute candidates.
    pub fn register_receiver(&mut self)
        requires
            old(self).pending_receivers < usize::MAX,
        ensures
            *final(self) == (ClosestNodesIter {
                pending_receivers: (old(self).pending_receivers + 1) as usize,
                ..*old(self)
            }),
    {
        self.pending_receivers = self.pending_receivers + 1;
    }

    /// One producer is done contributing.
    pub fn unregister_receiver(&mut self)
        requires
            old(self).pending_receivers > 0,
        ensures
            *final(self) == (ClosestNodesIter {
                pending_receivers: (old(self).pending_receivers - 1) as usize,
                ..*old(self)
            }),
    {
        self.pending_receivers = self.pending_receivers - 1;
    }

    /// Draws the next peer to ask: exactly the closest queued candidate, and
    /// only while fewer than `count` processed peers already stand at most as
    /// far from the key. A yield is owed whenever such a candidate exists;
    /// `None` comes exactly when every queued candidate is outranked (in
    /// particular when the queue is empty — the caller may wait for pending
    /// producers and try again). A drawn or outranked candidate moves into
    /// the processed set, so the same peer is never yielded twice.
    pub fn next(&mut self) -> (r: Option<Node>)
        requires
            old(self).iter_wf(),
        ensures
            final(self).iter_wf(),
            final(self).key == old(self).key,
            final(self).count == old(self).count,
            final(self).pending_receivers == old(self).pending_receivers,
            processed_monotone(*old(self), *final(self)),
            (r is None <==> (forall|i: int|
                0 <= i < old(self).unprocessed_nodes@.len() ==> outranked(
                    old(self).processed_nodes@,
                    old(self).count as int,
                    old(self).key@,
                    #[trigger] old(self).unprocessed_nodes@[i],
                ))),
            match r {
                Option::Some(c) => {
                    &&& old(self).unprocessed_nodes@.contains(c)
                    &&& !node_in(old(self).processed_nodes@, c)
                    &&& (forall|i: int|
                        0 <= i < old(self).unprocessed_nodes@.len() ==> dist_le(
                            c,
                            #[trigger] old(self).unprocessed_nodes@[i],
                            old(self).key@,
                        ))
                    &&& !outranked(
                        old(self).processed_nodes@,
                        old(self).count as int,
                        old(self).key@,
                        c,
                    )
                    &&& final(self).unprocessed_nodes@.to_multiset() == old(
                        self,
                    ).unprocessed_nodes@.to_multiset().remove(c)
                    &&& final(self).processed_nodes@.to_multiset() == old(
                        self,
                    ).processed_nodes@.to_multiset().insert(c)
                    &&& yield_step(*old(self), *final(self), c)
                },
                Option::None => {
                    &&& final(self).unprocessed_nodes@.len() == 0
                    &&& final(self).processed_nodes@.to_multiset() == old(
                        self,
                    ).processed_nodes@.to_multiset().add(
                        old(self).unprocessed_nodes@.to_multiset(),
                    )
                },
            },
    {
        broadcast use vstd::seq_lib::group_to_multiset_ensures;

        let sorted_u = sort_nodes_by_dist(&self.unprocessed_nodes, &self.key);
        let desc_u = reverse_nodes(&sorted_u);
        let ghost old_u = self.unprocessed_nodes@;
        self.unprocessed_nodes = desc_u;
        proof {
            sorted_u@.lemma_reverse_to_multiset();
            assert(self.unprocessed_nodes@.to_multiset() == old_u.to_multiset());
            lemma_distinct_permutation(old_u, sorted_u@);
            lemma_distinct_permutation(sorted_u@, self.unprocessed_nodes@);
            assert forall|i: int|
                0 <= i < self.unprocessed_nodes@.len() implies !node_in(
                self.processed_nodes@,
                #[trigger] self.unprocessed_nodes@[i],
            ) && old_u.contains(self.unprocessed_nodes@[i]) by {
                assert(self.unprocessed_nodes@.contains(self.unprocessed_nodes@[i]));
                assert(self.unprocessed_nodes@.to_multiset().count(
                    self.unprocessed_nodes@[i],
                ) > 0);
                assert(old_u.to_multiset().count(self.unprocessed_nodes@[i]) > 0);
                assert(old_u.contains(self.unprocessed_nodes@[i]));
                let k = choose|k: int|
                    0 <= k < old_u.len() && old_u[k] == self.unprocessed_nodes@[i];
            }
            assert(sorted_by_dist_desc(self.unprocessed_nodes@, self.key@)) by {
                assert forall|i: int, j: int|
                    0 <= i < j < self.unprocessed_nodes@.len() implies dist_le(
                    self.unprocessed_nodes@[j],
                    self.unprocessed_nodes@[i],
                    self.key@,
                ) by {
                    let n = sorted_u@.len();
                    assert(self.unprocessed_nodes@[i] == sorted_u@[n - 1 - i]);
                    assert(self.unprocessed_nodes@[j] == sorted_u@[n - 1 - j]);
                }
            }
        }
        let ghost pre_u = self.unprocessed_nodes@;
        let popped = self.unprocessed_nodes.pop();
        let c = match popped {
            Option::None => {
                proof {
                    assert(old_u.to_multiset().len() == 0);
                    assert(old_u.len() == 0);
                    assert(self.processed_nodes@.to_multiset() =~= old(
                        self,
                    ).processed_nodes@.to_multiset().add(old_u.to_multiset()));
                }
                return Option::None;
            },
            Option::Some(c) => c,
        };
        proof {
            assert(c == pre_u.last());
            lemma_desc_pop_yields_closest(pre_u, self.key@);
            assert forall|i: int|
                0 <= i < old_u.len() implies dist_le(c, #[trigger] old_u[i], self.key@) by {
                assert(old_u.contains(old_u[i]));
                assert(old_u.to_multiset().count(old_u[i]) > 0);
                assert(pre_u.to_multiset().count(old_u[i]) > 0);
                assert(pre_u.contains(old_u[i]));
                let k = choose|k: int| 0 <= k < pre_u.len() && pre_u[k] == old_u[i];
                assert(dist_le(pre_u.last(), pre_u[k], self.key@));
            }
            assert(old_u.to_multiset().count(c) > 0);
            assert(old_u.contains(c));
            assert(self.unprocessed_nodes@ == pre_u.drop_last());
            assert(pre_u.drop_last() =~= pre_u.remove(pre_u.len() - 1));
            assert(self.unprocessed_nodes@.to_multiset() == pre_u.to_multiset().remove(c));
        }
        let discard = self.processed_nodes.len() >= self.count && dist_le_exec(
            &self.processed_nodes[self.count - 1],
            &c,
            &self.key,
        );
        proof {
            assert forall|i: int|
                0 <= i < self.unprocessed_nodes@.len() implies !same_node(
                #[trigger] self.unprocessed_nodes@[i],
                c,
            ) by {
                assert(self.unprocessed_nodes@[i] == pre_u[i]);
                assert(!same_node(pre_u[i], pre_u[pre_u.len() - 1]));
            }
            assert(!node_in(self.processed_nodes@, c)) by {
                assert(pre_u[pre_u.len() - 1] == c);
            }
        }
        if !discard {
            let ghost k = choose|k: int| 0 <= k < old_u.len() && old_u[k] == c;
            self.absorb(c);
            proof {
                assert(node_in(self.processed_nodes@, c));
                assert(self.processed_nodes@.to_multiset() =~= old(
                    self,
                ).processed_nodes@.to_multiset().insert(c));
            }
            return Option::Some(c);
        }
        // the closest candidate is already outranked, so every farther one
        // is too: absorb them all and report the queue as drained
        proof {
            assert forall|i: int|
                0 <= i < old_u.len() implies outranked(
                old(self).processed_nodes@,
                old(self).count as int,
                old(self).key@,
                #[trigger] old_u[i],
            ) by {
                lemma_dist_le_trans(
                    old(self).processed_nodes@[old(self).count - 1],
                    c,
                    old_u[i],
                    self.key@,
                );
            }
        }
        self.absorb(c);
        proof {
            assert(self.processed_nodes@.to_multiset().add(
                self.unprocessed_nodes@.to_multiset(),
            ) =~= old(self).processed_nodes@.to_multiset().add(old_u.to_multiset()));
        }
        loop
            invariant
                self.iter_wf(),
                self.key == old(self).key,
                self.count == old(self).count,
                self.pending_receivers == old(self).pending_receivers,
                processed_monotone(*old(self), *self),
                old_u == old(self).unprocessed_nodes@,
                forall|i: int|
                    0 <= i < old_u.len() ==> outranked(
                        old(self).processed_nodes@,
                        old(self).count as int,
                        old(self).key@,
                        #[trigger] old_u[i],
                    ),
                self.processed_nodes@.to_multiset().add(self.unprocessed_nodes@.to_multiset())
                    == old(self).processed_nodes@.to_multiset().add(old_u.to_multiset()),
            decreases self.unprocessed_nodes@.len(),
        {
            let ghost loop_u = self.unprocessed_nodes@;
            match self.unprocessed_nodes.pop() {
                Option::None => {
                    proof {
                        broadcast use vstd::seq_lib::group_to_multiset_ensures;

                        assert forall|x: Node|
                            self.unprocessed_nodes@.to_multiset().count(x) == 0 by {
                            if self.unprocessed_nodes@.to_multiset().count(x) > 0 {
                                assert(self.unprocessed_nodes@.contains(x));
                            }
                        }
                        assert(self.processed_nodes@.to_multiset().add(
                            self.unprocessed_nodes@.to_multiset(),
                        ) =~= self.processed_nodes@.to_multiset());
                        assert(self.processed_nodes@.to_multiset() =~= old(
                            self,
                        ).processed_nodes@.to_multiset().add(old_u.to_multiset()));
                    }
                    return Option::None;
                },
                Option::Some(d) => {
                    proof {
                        broadcast use vstd::seq_lib::group_to_multiset_ensures;

                        assert(d == loop_u.last());
                        assert(loop_u.drop_last() =~= loop_u.remove(loop_u.len() - 1));
                        assert(loop_u.contains(d));
                        assert forall|i: int|
                            0 <= i < self.unprocessed_nodes@.len() implies !same_node(
                            #[trigger] self.unprocessed_nodes@[i],
                            d,
                        ) by {
                            assert(self.unprocessed_nodes@[i] == loop_u[i]);
                            assert(!same_node(loop_u[i], loop_u[loop_u.len() - 1]));
                        }
                        assert(!node_in(self.processed_nodes@, d)) by {
                            assert(loop_u[loop_u.len() - 1] == d);
                        }
                    }
                    let ghost pre_p = self.processed_nodes@;
                    let ghost pre_uu = self.unprocessed_nodes@;
                    proof {
                        broadcast use vstd::seq_lib::group_to_multiset_ensures;

                        assert(pre_uu == loop_u.drop_last());
                        assert(loop_u.remove(loop_u.len() - 1).to_multiset() =~= loop_u.to_multiset().remove(d));
                        assert(pre_uu.to_multiset() == loop_u.to_multiset().remove(d));
                        assert(loop_u.to_multiset().count(d) > 0);
                    }
                    self.absorb(d);
                    proof {
                        broadcast use vstd::seq_lib::group_to_multiset_ensures;

                        assert(self.processed_nodes@.to_multiset() == pre_p.to_multiset().insert(
                            d,
                        ));
                        assert(self.processed_nodes@.to_multiset().add(
                            self.unprocessed_nodes@.to_multiset(),
                        ) =~= pre_p.to_multiset().add(loop_u.to_multiset()));
                    }
                },
            }
        }
    }

    /// Moves one candidate into the processed list at its query-order place.
    fn absorb(&mut self, c: Node)
        requires
            old(self).iter_wf(),
            !node_in(old(self).processed_nodes@, c),
            forall|i: int|
                0 <= i < old(self).unprocessed_nodes@.len() ==> !same_node(
                    #[trigger] old(self).unprocessed_nodes@[i],
                    c,
                ),
        ensures
            final(self).iter_wf(),
            final(self).key == old(self).key,
            final(self).count == old(self).count,
            final(self).pending_receivers == old(self).pending_receivers,
            final(self).unprocessed_nodes == old(self).unprocessed_nodes,
            final(self).processed_nodes@.to_multiset() == old(
                self,
            ).processed_nodes@.to_multiset().insert(c),
            node_in(final(self).processed_nodes@, c),
            processed_monotone(*old(self), *final(self)),
    {
        let j = insert_pos(&self.processed_nodes, &c, &self.key);
        let ghost pre = self.processed_nodes@;
        self.processed_nodes.insert(j, c);
        proof {
            assert(self.processed_nodes@ == pre.insert(j as int, c));
            crate::node::lemma_to_multiset_insert(pre, j as int, c);
            assert forall|p: int, q: int|
                0 <= p < q < self.processed_nodes@.len() implies dist_le(
                self.processed_nodes@[p],
                self.processed_nodes@[q],
                self.key@,
            ) by {
                if q < j {
                    assert(self.processed_nodes@[p] == pre[p] && self.processed_nodes@[q]
                        == pre[q]);
                } else if q == j {
                    assert(self.processed_nodes@[p] == pre[p] && self.processed_nodes@[q] == c);
                } else if p == j {
                    assert(self.processed_nodes@[p] == c && self.processed_nodes@[q] == pre[q
                        - 1]);
                    assert(j < pre.len());
                    assert(dist_le(c, pre[j as int], self.key@));
                    if q - 1 > j {
                        lemma_dist_le_trans(c, pre[j as int], pre[q - 1], self.key@);
                    }
                } else if p < j {
                    assert(self.processed_nodes@[p] == pre[p] && self.processed_nodes@[q] == pre[q
                        - 1]);
                } else {
                    assert(self.processed_nodes@[p] == pre[p - 1] && self.processed_nodes@[q]
                        == pre[q - 1]);
                }
            }
            assert forall|p: int, q: int|
                #![trigger self.processed_nodes@[p], self.processed_nodes@[q]]
                0 <= p < q < self.processed_nodes@.len() implies !same_node(
                self.processed_nodes@[p],
                self.processed_nodes@[q],
            ) by {
                if p == j {
                    assert(self.processed_nodes@[p] == c);
                    assert(self.processed_nodes@[q] == pre[q - 1]);
                    assert(!node_in(pre, c));
                    assert(!same_node(pre[q - 1], c));
                    if same_node(c, pre[q - 1]) {
                        assert(same_node(pre[q - 1], c));
                    }
                } else if q == j {
                    assert(self.processed_nodes@[q] == c);
                    assert(self.processed_nodes@[p] == pre[p]);
                    assert(!same_node(pre[p], c));
                } else {
                    let pp: int = if p < j {
                        p
                    } else {
                        p - 1
                    };
                    let qq: int = if q < j {
                        q
                    } else {
                        q - 1
                    };
                    assert(self.processed_nodes@[p] == pre[pp]);
                    assert(self.processed_nodes@[q] == pre[qq]);
                }
            }
            assert forall|i: int|
                0 <= i < self.unprocessed_nodes@.len() implies !node_in(
                self.processed_nodes@,
                #[trigger] self.unprocessed_nodes@[i],
            ) by {
                if node_in(self.processed_nodes@, self.unprocessed_nodes@[i]) {
                    let m = choose|m: int|
                        0 <= m < self.processed_nodes@.len() && same_node(
                            self.processed_nodes@[m],
                            self.unprocessed_nodes@[i],
                        );
                    if m == j {
                        assert(same_node(c, self.unprocessed_nodes@[i]));
                        assert(same_node(self.unprocessed_nodes@[i], c));
                    } else {
                        let m0: int = if m < j {
                            m
                        } else {
                            m - 1
                        };
                        assert(self.processed_nodes@[m] == pre[m0]);
                        assert(node_in(pre, self.unprocessed_nodes@[i]));
                    }
                }
            }
            assert forall|x: Node| node_in(pre, x) implies node_in(
                self.processed_nodes@,
                x,
            ) by {
                let m = choose|m: int| 0 <= m < pre.len() && same_node(pre[m], x);
                let m1: int = if m < j {
                    m
                } else {
                    m + 1
                };
                assert(self.processed_nodes@[m1] == pre[m]);
            }
            assert(self.processed_nodes@[j as int] == c);
            assert(node_in(self.processed_nodes@, c));
        }
    }

    /// The `n` closest peers seen so far, drawn from the queue and the
    /// processed set together, in ascending distance order; peers left out
    /// stand at least as far from the key as every peer returned.
    pub fn get_closest_nodes(&self, n: usize) -> (r: Vec<Node>)
        ensures
            sorted_by_dist(r@, self.key@),
            r@.len() == ({
                let total = self.unprocessed_nodes@.len() + self.processed_nodes@.len();
                if n <= total {
                    n as int
                } else {
                    total as int
                }
            }),
            forall|i: int|
                0 <= i < r@.len() ==> self.unprocessed_nodes@.contains(#[trigger] r@[i])
                    || self.processed_nodes@.contains(r@[i]),
            forall|y: Node|
                (self.unprocessed_nodes@.contains(y) || self.processed_nodes@.contains(y))
                    && !r@.contains(y) ==> (forall|i: int|
                    0 <= i < r@.len() ==> dist_le(#[trigger] r@[i], y, self.key@)),
    {
        broadcast use vstd::seq_lib::group_to_multiset_ensures;

        let mut all: Vec<Node> = Vec::new();
        let un = self.unprocessed_nodes.len();
        let mut i: usize = 0;
        while i < un
            invariant
                un == self.unprocessed_nodes@.len(),
                0 <= i <= un,
                all@ == self.unprocessed_nodes@.take(i as int),
            decreases un - i,
        {
            all.push(self.unprocessed_nodes[i]);
            proof {
                assert(all@ =~= self.unprocessed_nodes@.take(i + 1));
            }
            i += 1;
        }
        let pn = self.processed_nodes.len();
        let mut j: usize = 0;
        while j < pn
            invariant
                un == self.unprocessed_nodes@.len(),
                pn == self.processed_nodes@.len(),
                0 <= j <= pn,
                all@ == self.unprocessed_nodes@.take(un as int) + self.processed_nodes@.take(
                    j as int,
                ),
            decreases pn - j,
        {
            all.push(self.processed_nodes[j]);
            proof {
                assert(all@ =~= self.unprocessed_nodes@.take(un as int)
                    + self.processed_nodes@.take(j + 1));
            }
            j += 1;
        }
        proof {
            assert(self.unprocessed_nodes@.take(un as int) =~= self.unprocessed_nodes@);
            assert(self.processed_nodes@.take(pn as int) =~= self.processed_nodes@);
            assert(all@ == self.unprocessed_nodes@ + self.processed_nodes@);
        }
        let sorted = sort_nodes_by_dist(&all, &self.key);
        let ghost full = sorted@;
        let mut sorted = sorted;
        sorted.truncate(n);
        proof {
            assert forall|i2: int|
                0 <= i2 < sorted@.len() implies self.unprocessed_nodes@.contains(
                #[trigger] sorted@[i2],
            ) || self.processed_nodes@.contains(sorted@[i2]) by {
                assert(full[i2] == sorted@[i2]);
                assert(full.contains(full[i2]));
                assert(full.to_multiset().count(full[i2]) > 0);
                assert(all@.to_multiset().count(full[i2]) > 0);
                assert(all@.contains(full[i2]));
                let m = choose|m: int| 0 <= m < all@.len() && all@[m] == full[i2];
                if m < un {
                    assert(self.unprocessed_nodes@[m] == all@[m]);
                } else {
                    assert(self.processed_nodes@[m - un] == all@[m]);
                }
            }
            assert forall|y: Node|
                (self.unprocessed_nodes@.contains(y) || self.processed_nodes@.contains(y))
                    && !sorted@.contains(y) implies (forall|i2: int|
                0 <= i2 < sorted@.len() ==> dist_le(#[trigger] sorted@[i2], y, self.key@)) by {
                assert(all@.contains(y)) by {
                    if self.unprocessed_nodes@.contains(y) {
                        let k = choose|k: int|
                            0 <= k < self.unprocessed_nodes@.len()
                                && self.unprocessed_nodes@[k] == y;
                        assert(all@[k] == y);
                    } else {
                        let k = choose|k: int|
                            0 <= k < self.processed_nodes@.len() && self.processed_nodes@[k] == y;
                        assert(all@[un + k] == y);
                    }
                }
                assert(all@.to_multiset().count(y) > 0);
                assert(full.to_multiset().count(y) > 0);
                assert(full.contains(y));
                let w = choose|w: int| 0 <= w < full.len() && full[w] == y;
                assert(w >= sorted@.len()) by {
                    if w < sorted@.len() {
                        assert(sorted@[w] == y);
                        assert(sorted@.contains(y));
                    }
                }
                assert forall|i2: int|
                    0 <= i2 < sorted@.len() implies dist_le(
                    #[trigger] sorted@[i2],
                    y,
                    self.key@,
                ) by {
                    assert(sorted@[i2] == full[i2]);
                    assert(dist_le(full[i2], full[w], self.key@));
                }
            }
        }
        sorted
    }
}

} // verus!
