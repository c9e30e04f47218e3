use vstd::prelude::*;

use crate::kademlia::K_PARAM;
use crate::kbuckets::bucket_of;
use crate::peer::Id;
use crate::peer::ID_LEN;
use crate::peer::Peer;
use crate::peer::log_dist;
use crate::peer::spec_strictly_same;

verus! {

/// Some bucket of the table holds this peer.
pub open spec fn table_contains(bs: Seq<Seq<Peer>>, p: Peer) -> bool {
    exists|c: int, m: int| 0 <= c < bs.len() && 0 <= m < bs[c].len() && (#[trigger] bs[c][m]) == p
}

/// The peers of a run of buckets, flattened in order.
pub open spec fn peers_of(bs: Seq<Seq<Peer>>) -> Seq<Peer>
    decreases bs.len(),
{
    if bs.len() == 0 {
        Seq::empty()
    } else {
        peers_of(bs.drop_last()) + bs.last()
    }
}

/// Ascending log-distance from `key`.
pub open spec fn peers_sorted_by_dist(s: Seq<Peer>, key: Seq<u8>) -> bool {
    forall|i: int, j: int|
        0 <= i < j < s.len() ==> log_dist(key, s[i].id@) <= log_dist(key, s[j].id@)
}

/// A routing table over peers: one bucket per bit of the identifier space,
/// each bounded and holding only peers that belong there.
pub struct KBuckets {
    pub own_id: Id,
    pub buckets: Vec<Vec<Peer>>,
}

impl KBuckets {
    /// The buckets as plain sequences.
    pub open spec fn view_of(self) -> Seq<Seq<Peer>> {
        Seq::new(self.buckets@.len(), |i: int| self.buckets@[i]@)
    }

    pub open spec fn bucket_wf(self, b: int) -> bool {
        let bk = self.view_of()[b];
        &&& bk.len() <= K_PARAM
        &&& (forall|i: int| 0 <= i < bk.len() ==> (#[trigger] bk[i]).id@ != self.own_id@)
        &&& (forall|i: int|
            0 <= i < bk.len() ==> bucket_of(self.own_id@, (#[trigger] bk[i]).id@) == b)
    }

    pub open spec fn wf(self) -> bool {
        &&& self.view_of().len() == ID_LEN
        &&& (forall|b: int| 0 <= b < self.view_of().len() ==> self.bucket_wf(b))
    }

    /// An empty table around the local identifier.
    pub fn new(own_id: Id) -> (r: KBuckets)
        ensures
            r.wf(),
            r.own_id@ == own_id@,
            forall|b: int| 0 <= b < r.view_of().len() ==> (#[trigger] r.view_of()[b]).len() == 0,
    {
        let mut buckets: Vec<Vec<Peer>> = Vec::new();
        let mut i: usize = 0;
        while i < ID_LEN
            invariant
                0 <= i <= ID_LEN,
                buckets@.len() == i,
                forall|b: int| 0 <= b < i ==> buckets@[b]@.len() == 0,
            decreases ID_LEN - i,
        {
            buckets.push(Vec::new());
            i += 1;
        }
        KBuckets { own_id, buckets }
    }

    /// The peers nearest to `id`: everything the table holds in the buckets
    /// up to and including the target's, ordered by ascending log-distance
    /// and cut to `count`; peers left out stand at least as far from `id` as
    /// every peer returned.
    pub fn get_nearest_peers(&self, count: usize, id: &Id) -> (r: Vec<Peer>)
        requires
            self.wf(),
            id@ != self.own_id@,
        ensures
            ({
                let pool = peers_of(self.view_of().take(log_dist(self.own_id@, id@)));
                &&& peers_sorted_by_dist(r@, id@)
                &&& r@.len() == (if count <= pool.len() {
                    count as int
                } else {
                    pool.len() as int
                })
                &&& (forall|k: int| 0 <= k < r@.len() ==> pool.contains(#[trigger] r@[k]))
                &&& (forall|y: Peer|
                    pool.contains(y) && !r@.contains(y) ==> (forall|k: int|
                        0 <= k < r@.len() ==> log_dist(id@, (#[trigger] r@[k]).id@) <= log_dist(
                            id@,
                            y.id@,
                        )))
            }),
    {
        broadcast use vstd::seq_lib::group_to_multiset_ensures;

        let dist = self.own_id.distance_to(id) - 1;
        proof {
            crate::node::lemma_xor_zero_iff_eq(self.own_id@, id@);
            crate::distance::lemma_high_bit_pos_bound(
                crate::node::spec_xor(self.own_id@, id@),
            );
        }
        let mut list: Vec<Peer> = Vec::new();
        let mut i: usize = 0;
        while i < dist + 1
            invariant
                self.wf(),
                0 <= i <= dist + 1,
                dist + 1 <= self.view_of().len(),
                list@ == peers_of(self.view_of().take(i as int)),
            decreases dist + 1 - i,
        {
            let bn = self.buckets[i].len();
            let mut m: usize = 0;
            while m < bn
                invariant
                    self.wf(),
                    0 <= i < self.view_of().len(),
                    bn == self.view_of()[i as int].len(),
                    0 <= m <= bn,
                    list@ == peers_of(self.view_of().take(i as int)) + self.view_of()[i as int].take(
                        m as int,
                    ),
                decreases bn - m,
            {
                list.push(self.buckets[i][m]);
                proof {
                    assert(self.view_of()[i as int].take(m + 1) =~= self.view_of()[i as int].take(
                        m as int,
                    ).push(self.view_of()[i as int][m as int]));
                    assert(list@ =~= peers_of(self.view_of().take(i as int))
                        + self.view_of()[i as int].take(m + 1));
                }
                m += 1;
            }
            proof {
                assert(self.view_of().take(i + 1).drop_last() =~= self.view_of().take(i as int));
                assert(self.view_of()[i as int].take(bn as int) =~= self.view_of()[i as int]);
                assert(list@ =~= peers_of(self.view_of().take(i + 1)));
            }
            i += 1;
        }
        proof {
            assert(list@ == peers_of(self.view_of().take(log_dist(self.own_id@, id@))));
        }
        let sorted = sort_peers_by_dist(&list, id);
        let ghost full = sorted@;
        let mut sorted = sorted;
        sorted.truncate(count);
        proof {
            let pool = peers_of(self.view_of().take(log_dist(self.own_id@, id@)));
            assert forall|k: int| 0 <= k < sorted@.len() implies pool.contains(
                #[trigger] sorted@[k],
            ) by {
                assert(full[k] == sorted@[k]);
                assert(full.contains(full[k]));
                assert(full.to_multiset().count(full[k]) > 0);
                assert(list@.to_multiset().count(full[k]) > 0);
                assert(list@.contains(full[k]));
            }
            assert forall|y: Peer|
                pool.contains(y) && !sorted@.contains(y) implies (forall|k: int|
                0 <= k < sorted@.len() ==> log_dist(id@, (#[trigger] sorted@[k]).id@) <= log_dist(
                    id@,
                    y.id@,
                )) by {
                assert(list@.to_multiset().count(y) > 0);
                assert(full.to_multiset().count(y) > 0);
                assert(full.contains(y));
                let w = choose|w: int| 0 <= w < full.len() && full[w] == y;
                assert(w >= sorted@.len()) by {
                    if w < sorted@.len() {
                        assert(sorted@[w] == y);
                        assert(sorted@.contains(y));
                    }
                }
                assert forall|k: int|
                    0 <= k < sorted@.len() implies log_dist(id@, (#[trigger] sorted@[k]).id@)
                    <= log_dist(id@, y.id@) by {
                    assert(sorted@[k] == full[k]);
                    assert(log_dist(id@, full[k].id@) <= log_dist(id@, full[w].id@));
                }
            }
        }
        sorted
    }

    /// Whether the table already holds this exact peer.
    pub fn contain(&self, peer: &Peer) -> (r: bool)
        requires
            self.wf(),
            peer.id@ != self.own_id@,
        ensures
            ({
                let bk = self.view_of()[log_dist(self.own_id@, peer.id@) - 1];
                r == (exists|m: int|
                    0 <= m < bk.len() && spec_strictly_same(#[trigger] bk[m], *peer))
            }),
    {
        let idx = self.own_id.distance_to(&peer.id) - 1;
        proof {
            crate::node::lemma_xor_zero_iff_eq(self.own_id@, peer.id@);
            crate::distance::lemma_high_bit_pos_bound(
                crate::node::spec_xor(self.own_id@, peer.id@),
            );
        }
        proof {
            assert(idx as int == log_dist(self.own_id@, peer.id@) - 1);
        }
        let bk = &self.buckets[idx];
        let n = bk.len();
        let mut m: usize = 0;
        while m < n
            invariant
                n == bk@.len(),
                0 <= m <= n,
                idx < self.buckets@.len(),
                bk@ == self.view_of()[idx as int],
                idx as int == log_dist(self.own_id@, peer.id@) - 1,
                forall|j: int| 0 <= j < m ==> !spec_strictly_same(#[trigger] bk@[j], *peer),
            decreases n - m,
        {
            if bk[m].strictly_same_as(peer) {
                proof {
                    assert(spec_strictly_same(
                        self.view_of()[log_dist(self.own_id@, peer.id@) - 1][m as int],
                        *peer,
                    ));
                }
                return true;
            }
            m += 1;
        }
        proof {
            assert(bk@ == self.view_of()[log_dist(self.own_id@, peer.id@) - 1]);
        }
        false
    }

    /// Refreshes a peer after contact, with the classic eviction rule. A
    /// peer already present moves to the most-recent end. A new peer joins a
    /// bucket with room. For a full bucket the caller pings the old peers
    /// and hands in the first that timed out: that peer leaves and the new
    /// one joins; if every old peer answered, the new one is dropped.
    pub fn update(&mut self, peer: &Peer, first_timeout: Option<&Peer>)
        requires
            old(self).wf(),
            peer.id@ != old(self).own_id@,
        ensures
            final(self).wf(),
            final(self).own_id@ == old(self).own_id@,
            final(self).view_of().len() == old(self).view_of().len(),
            ({
                let b = log_dist(old(self).own_id@, peer.id@) - 1;
                let obk = old(self).view_of()[b];
                let nbk = final(self).view_of()[b];
                &&& (forall|c: int|
                    0 <= c < old(self).view_of().len() && c != b ==> final(self).view_of()[c]
                        == old(self).view_of()[c])
                &&& (if (exists|m: int|
                    0 <= m < obk.len() && spec_strictly_same(#[trigger] obk[m], *peer)) {
                    exists|m: int|
                        0 <= m < obk.len() && spec_strictly_same(#[trigger] obk[m], *peer) && nbk
                            == obk.remove(m).push(obk[m])
                } else {
                    match first_timeout {
                        Option::Some(t) => if (exists|m: int|
                            0 <= m < obk.len() && spec_strictly_same(#[trigger] obk[m], *t)) {
                            exists|m: int|
                                0 <= m < obk.len() && spec_strictly_same(#[trigger] obk[m], *t)
                                    && nbk == obk.remove(m).push(*peer)
                        } else {
                            if obk.len() < K_PARAM {
                                nbk == obk.push(*peer)
                            } else {
                                nbk == obk
                            }
                        },
                        Option::None => if obk.len() < K_PARAM {
                            nbk == obk.push(*peer)
                        } else {
                            nbk == obk
                        },
                    }
                })
            }),
    {
        let idx = self.own_id.distance_to(&peer.id) - 1;
        proof {
            crate::node::lemma_xor_zero_iff_eq(self.own_id@, peer.id@);
            crate::distance::lemma_high_bit_pos_bound(
                crate::node::spec_xor(self.own_id@, peer.id@),
            );
        }
        let ghost old_views = self.view_of();
        let ghost b = idx as int;
        proof {
            assert(b == log_dist(old(self).own_id@, peer.id@) - 1);
            assert(old_views == old(self).view_of());
        }
        let mut bk = self.buckets.remove(idx);
        let ghost obk = bk@;
        proof {
            assert(obk == old_views[b]);
        }
        let pos = find_same(&bk, peer);
        match pos {
            Option::Some(m) => {
                let moved = bk.remove(m);
                bk.push(moved);
                proof {
                    assert(moved == obk[m as int]);
                    assert(spec_strictly_same(obk[m as int], *peer));
                    assert(bk@ == obk.remove(m as int).push(obk[m as int]));
                }
            },
            Option::None => {
                match first_timeout {
                    Option::Some(t) => {
                        let tpos = find_same(&bk, t);
                        match tpos {
                            Option::Some(m) => {
                                bk.remove(m);
                                proof {
                                    assert(old(self).bucket_wf(b));
                                    assert(obk.len() <= K_PARAM);
                                    assert(spec_strictly_same(obk[m as int], *t));
                                    assert(bk@ == obk.remove(m as int));
                                }
                                bk.push(*peer);
                                proof {
                                    assert(bk@ == obk.remove(m as int).push(*peer));
                                }
                            },
                            Option::None => {
                                if bk.len() < K_PARAM {
                                    bk.push(*peer);
                                }
                            },
                        }
                    },
                    Option::None => {
                        if bk.len() < K_PARAM {
                            bk.push(*peer);
                        }
                    },
                }
            },
        }
        self.buckets.insert(idx, bk);
        proof {
            assert(self.view_of() =~~= old_views.update(b, bk@));
            assert(self.view_of()[b] == bk@);
            assert forall|c: int| 0 <= c < self.view_of().len() implies self.bucket_wf(c) by {
                assert(old(self).bucket_wf(c));
                if c == b {
                    assert(self.view_of()[c] == bk@);
                    assert(bucket_of(old(self).own_id@, peer.id@) == b);
                    assert forall|i: int| 0 <= i < bk@.len() implies (#[trigger] bk@[i]).id@
                        != self.own_id@ && bucket_of(self.own_id@, bk@[i].id@) == c by {
                        if bk@[i] == *peer {
                        } else {
                            assert(obk.contains(bk@[i])) by {
                                lemma_bucket_edit_membership(obk, bk@, *peer, i);
                            }
                            let j = choose|j: int| 0 <= j < obk.len() && obk[j] == bk@[i];
                        }
                    }
                }
            }
        }
    }
}

/// An element of the edited bucket that is not the new peer was already
/// there: every edit above removes or re-appends existing entries and may
/// push the one new peer.
proof fn lemma_bucket_edit_membership(obk: Seq<Peer>, nbk: Seq<Peer>, peer: Peer, i: int)
    requires
        0 <= i < nbk.len(),
        nbk[i] != peer,
        (exists|m: int| 0 <= m < obk.len() && nbk == obk.remove(m).push(obk[m])) || (exists|m: int|
            0 <= m < obk.len() && nbk == obk.remove(m).push(peer)) || (exists|m: int|
            0 <= m < obk.len() && nbk == obk.remove(m)) || nbk == obk.push(peer) || nbk == obk,
    ensures
        obk.contains(nbk[i]),
{
    if (exists|m: int| 0 <= m < obk.len() && nbk == obk.remove(m).push(obk[m]))
        || (exists|m: int| 0 <= m < obk.len() && nbk == obk.remove(m).push(peer)) {
        let m = choose|m: int|
            0 <= m < obk.len() && (nbk == obk.remove(m).push(obk[m]) || nbk == obk.remove(m).push(
                peer,
            ));
        if i < nbk.len() - 1 {
            let i0: int = if i < m {
                i
            } else {
                i + 1
            };
            assert(nbk[i] == obk[i0]);
        } else {
            assert(nbk[i] == obk[m] || nbk[i] == peer);
        }
    } else if exists|m: int| 0 <= m < obk.len() && nbk == obk.remove(m) {
        let m = choose|m: int| 0 <= m < obk.len() && nbk == obk.remove(m);
        let i0: int = if i < m {
            i
        } else {
            i + 1
        };
        assert(nbk[i] == obk[i0]);
    } else if nbk == obk.push(peer) {
        assert(nbk[i] == obk[i]);
    } else {
        assert(nbk[i] == obk[i]);
    }
}

/// Finds the first entry that is strictly the same peer.
fn find_same(bk: &Vec<Peer>, p: &Peer) -> (r: Option<usize>)
    ensures
        match r {
            Option::Some(m) => m < bk@.len() && spec_strictly_same(bk@[m as int], *p) && (forall|
                j: int,
            |
                0 <= j < m ==> !spec_strictly_same(#[trigger] bk@[j], *p)),
            Option::None => forall|j: int|
                0 <= j < bk@.len() ==> !spec_strictly_same(#[trigger] bk@[j], *p),
        },
{
    let n = bk.len();
    let mut m: usize = 0;
    while m < n
        invariant
            n == bk@.len(),
            0 <= m <= n,
            forall|j: int| 0 <= j < m ==> !spec_strictly_same(#[trigger] bk@[j], *p),
        decreases n - m,
    {
        if bk[m].strictly_same_as(p) {
            return Option::Some(m);
        }
        m += 1;
    }
    Option::None
}

/// The place in an ascending list where `x` belongs, by log-distance.
fn insert_pos_peer(out: &Vec<Peer>, x: &Peer, key: &Id) -> (j: usize)
    requires
        peers_sorted_by_dist(out@, key@),
    ensures
        j <= out@.len(),
        forall|k: int| 0 <= k < j ==> log_dist(key@, (#[trigger] out@[k]).id@) <= log_dist(key@, x.id@),
        j < out@.len() ==> log_dist(key@, x.id@) <= log_dist(key@, out@[j as int].id@),
{
    let n = out.len();
    let mut j: usize = 0;
    while j < n
        invariant
            n == out@.len(),
            0 <= j <= n,
            forall|k: int|
                0 <= k < j ==> log_dist(key@, (#[trigger] out@[k]).id@) <= log_dist(key@, x.id@),
        decreases n - j,
    {
        if key.distance_to(&out[j].id) > key.distance_to(&x.id) {
            return j;
        }
        j += 1;
    }
    j
}

/// Sorts peers by ascending log-distance from `key`; the contents are kept.
fn sort_peers_by_dist(v: &Vec<Peer>, key: &Id) -> (r: Vec<Peer>)
    ensures
        peers_sorted_by_dist(r@, key@),
        r@.to_multiset() == v@.to_multiset(),
        r@.len() == v@.len(),
{
    broadcast use vstd::seq_lib::group_to_multiset_ensures;

    let n = v.len();
    let mut out: Vec<Peer> = Vec::new();
    let mut i: usize = 0;
    while i < n
        invariant
            n == v@.len(),
            0 <= i <= n,
            out@.len() == i,
            peers_sorted_by_dist(out@, key@),
            out@.to_multiset() == v@.take(i as int).to_multiset(),
        decreases n - i,
    {
        let x = v[i];
        let j = insert_pos_peer(&out, &x, key);
        let ghost pre = out@;
        out.insert(j, x);
        proof {
            assert(out@ == pre.insert(j as int, x));
            assert forall|p: int, q: int|
                0 <= p < q < out@.len() implies log_dist(key@, out@[p].id@) <= log_dist(
                key@,
                out@[q].id@,
            ) by {
                if q < j {
                    assert(out@[p] == pre[p] && out@[q] == pre[q]);
                } else if q == j {
                    assert(out@[p] == pre[p] && out@[q] == x);
                } else if p == j {
                    assert(out@[p] == x && out@[q] == pre[q - 1]);
                } else if p < j {
                    assert(out@[p] == pre[p] && out@[q] == pre[q - 1]);
                } else {
                    assert(out@[p] == pre[p - 1] && out@[q] == pre[q - 1]);
                }
            }
            lemma_peer_multiset_insert(pre, j as int, x);
            assert(v@.take(i + 1) =~= v@.take(i as int).push(x));
            vstd::seq_lib::to_multiset_build(v@.take(i as int), x);
            assert(v@.take(i + 1).to_multiset() == v@.take(i as int).push(x).to_multiset());
        }
        i += 1;
    }
    proof {
        assert(v@.take(n as int) =~= v@);
    }
    out
}

proof fn lemma_peer_multiset_insert(s: Seq<Peer>, i: int, x: Peer)
    requires
        0 <= i <= s.len(),
    ensures
        s.insert(i, x).to_multiset() == s.to_multiset().insert(x),
{
    broadcast use vstd::seq_lib::group_to_multiset_ensures;

    let t = s.insert(i, x);
    assert(t.remove(i) =~= s);
    assert(t[i] == x);
    assert(s.to_multiset() =~= t.to_multiset().remove(x));
    assert(t.to_multiset().count(x) > 0);
    assert(t.to_multiset() =~= s.to_multiset().insert(x));
}

} // verus!
