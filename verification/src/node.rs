use vstd::prelude::*;

use crate::Error;
use crate::addr::Addr;
use crate::addr::AddrV6;
use crate::distance::lex_le;
use crate::distance::is_zero_bytes;
use crate::utils::spec_ip4or6;
use crate::utils::ip4or6;

verus! {

pub const NODEID_BYTELEN: usize = 20;

/// A 160-bit overlay identifier; also the key space of stored values.
pub type NodeId = [u8; NODEID_BYTELEN];

/// A peer descriptor: where it listens, who it claims to be, and when it was
/// last heard from (a caller-supplied monotonic timestamp).
#[derive(Clone, Copy, Debug)]
pub struct Node {
    pub addr: Addr,
    pub node_id: NodeId,
    pub last_seen: u64,
}

/// Two peer descriptors stand for the same peer iff address and id both match;
/// the last-seen time is bookkeeping, not identity.
pub open spec fn same_node(a: Node, b: Node) -> bool {
    a.addr == b.addr && a.node_id@ == b.node_id@
}

/// Byte-wise XOR, the Kademlia distance.
pub open spec fn spec_xor(a: Seq<u8>, b: Seq<u8>) -> Seq<u8> {
    Seq::new(a.len(), |i: int| a[i] ^ b[i])
}

/// `n1` is at most as far from `key` as `n2`.
pub open spec fn dist_le(n1: Node, n2: Node, key: Seq<u8>) -> bool {
    lex_le(spec_xor(n1.node_id@, key), spec_xor(n2.node_id@, key))
}

/// Ascending XOR-distance order from `key`.
pub open spec fn sorted_by_dist(s: Seq<Node>, key: Seq<u8>) -> bool {
    forall|i: int, j: int| 0 <= i < j < s.len() ==> dist_le(s[i], s[j], key)
}

/// Equality of two identifiers.
pub fn id_eq(a: &NodeId, b: &NodeId) -> (r: bool)
    ensures
        r <==> a@ == b@,
{
    crate::distance::bytes_eq(a.as_slice(), b.as_slice())
}

/// Same peer: address and id both match.
pub fn node_same(a: &Node, b: &Node) -> (r: bool)
    ensures
        r == same_node(*a, *b),
{
    a.addr == b.addr && id_eq(&a.node_id, &b.node_id)
}

impl PartialEq for Node {
    fn eq(&self, other: &Node) -> (r: bool) {
        node_same(self, other)
    }
}

impl vstd::std_specs::cmp::PartialEqSpecImpl for Node {
    open spec fn obeys_eq_spec() -> bool {
        true
    }

    open spec fn eq_spec(&self, other: &Node) -> bool {
        same_node(*self, *other)
    }
}

/// The XOR distance between two identifiers.
pub fn xor(a: &NodeId, b: &NodeId) -> (r: NodeId)
    ensures
        r@ == spec_xor(a@, b@),
{
    let mut d: NodeId = [0u8; NODEID_BYTELEN];
    let mut i: usize = 0;
    while i < NODEID_BYTELEN
        invariant
            0 <= i <= NODEID_BYTELEN,
            d@.len() == NODEID_BYTELEN,
            forall|j: int| 0 <= j < i ==> d@[j] == (a@[j] ^ b@[j]),
        decreases NODEID_BYTELEN - i,
    {
        d[i] = a[i] ^ b[i];
        i += 1;
    }
    proof {
        assert(d@ =~= spec_xor(a@, b@));
    }
    d
}

pub proof fn lemma_xor_self_zero(a: Seq<u8>)
    ensures
        is_zero_bytes(spec_xor(a, a)),
{
    assert forall|i: int| 0 <= i < a.len() implies spec_xor(a, a)[i] == 0 by {
        let x = a[i];
        assert((x ^ x) == 0) by (bit_vector);
    }
}

pub proof fn lemma_xor_comm(a: Seq<u8>, b: Seq<u8>)
    requires
        a.len() == b.len(),
    ensures
        spec_xor(a, b) == spec_xor(b, a),
{
    assert forall|i: int| 0 <= i < a.len() implies spec_xor(a, b)[i] == spec_xor(b, a)[i] by {
        let x = a[i];
        let y = b[i];
        assert((x ^ y) == (y ^ x)) by (bit_vector);
    }
    assert(spec_xor(a, b) =~= spec_xor(b, a));
}

pub proof fn lemma_xor_zero_iff_eq(a: Seq<u8>, b: Seq<u8>)
    requires
        a.len() == b.len(),
    ensures
        is_zero_bytes(spec_xor(a, b)) <==> a == b,
{
    if is_zero_bytes(spec_xor(a, b)) {
        assert forall|i: int| 0 <= i < a.len() implies a[i] == b[i] by {
            let x = a[i];
            let y = b[i];
            assert(spec_xor(a, b)[i] == (x ^ y));
            assert((x ^ y) == 0 ==> x == y) by (bit_vector);
        }
        assert(a =~= b);
    } else {
        if a == b {
            lemma_xor_self_zero(a);
        }
    }
}

impl Node {
    /// Builds a peer descriptor: the address is first normalized, then held to
    /// the global-address filter; a non-global address is refused.
    pub fn new(addr: Addr, node_id: NodeId, now: u64) -> (r: Result<Node, Error>)
        ensures
            match r {
                Result::Ok(n) => Self::spec_is_global(spec_ip4or6(addr)) && n.addr
                    == spec_ip4or6(addr) && n.node_id@ == node_id@ && n.last_seen == now,
                Result::Err(e) => !Self::spec_is_global(spec_ip4or6(addr)) && e
                    == Error::AddressUnusable,
            },
    {
        let addr = ip4or6(addr);
        if !Self::is_address_valid(&addr) {
            return Result::Err(Error::AddressUnusable);
        }
        Result::Ok(Node { addr, node_id, last_seen: now })
    }

    /// Builds a peer descriptor without the global-address filter, for closed
    /// test networks on loopback; the address is still normalized.
    pub fn new_unfiltered(addr: Addr, node_id: NodeId, now: u64) -> (n: Node)
        ensures
            n.addr == spec_ip4or6(addr),
            n.node_id@ == node_id@,
            n.last_seen == now,
    {
        let addr = ip4or6(addr);
        Node { addr, node_id, last_seen: now }
    }

    /// Draws a fresh random identifier.
    pub fn generate_id() -> (id: NodeId)
        ensures
            id@.len() == NODEID_BYTELEN,
    {
        let mut id: NodeId = [0u8; NODEID_BYTELEN];
        let mut i: usize = 0;
        while i < NODEID_BYTELEN
            invariant
                0 <= i <= NODEID_BYTELEN,
            decreases NODEID_BYTELEN - i,
        {
            id[i] = rand::random::<u8>();
            i += 1;
        }
        id
    }

    /// Refreshes the last-seen timestamp.
    pub fn update_last_seen(&mut self, now: u64)
        ensures
            final(self).addr == old(self).addr,
            final(self).node_id == old(self).node_id,
            final(self).last_seen == now,
    {
        self.last_seen = now;
    }

    /// XOR distance from this peer's id to `id`.
    pub fn dist(&self, id: &NodeId) -> (r: NodeId)
        ensures
            r@ == spec_xor(self.node_id@, id@),
    {
        xor(&self.node_id, id)
    }

    /// The rule set for globally routable addresses: private, loopback,
    /// link-local, broadcast and documentation IPv4 ranges are refused, as are
    /// non-global IPv6 addresses.
    pub open spec fn spec_is_global(addr: Addr) -> bool {
        match addr {
            Addr::V4(a) => Self::spec_ipv4_global(a.o0, a.o1, a.o2, a.o3),
            Addr::V6(a) => Self::spec_ipv6_global(a),
        }
    }

    pub open spec fn spec_ipv4_global(o0: u8, o1: u8, o2: u8, o3: u8) -> bool {
        let is_private = o0 == 10 || (o0 == 172 && 16 <= o1 && o1 <= 31) || (o0 == 192 && o1
            == 168);
        let is_loopback = o0 == 127;
        let is_link_local = o0 == 169 && o1 == 254;
        let is_broadcast = o0 == 255 && o1 == 255 && o2 == 255 && o3 == 255;
        let is_documentation = (o0 == 192 && o2 == 2) || (o0 == 198 && o1 == 51 && o2 == 100) || (
        o0 == 203 && o2 == 113);
        !is_private && !is_loopback && !is_link_local && !is_broadcast && !is_documentation
    }

    pub open spec fn spec_ipv6_global(a: AddrV6) -> bool {
        let s0 = a.s0;
        let is_multicast = (s0 & 0xff00) == 0xff00;
        let is_loopback = a.s0 == 0 && a.s1 == 0 && a.s2 == 0 && a.s3 == 0 && a.s4 == 0 && a.s5
            == 0 && a.s6 == 0 && a.s7 == 1;
        let is_unicast_link_local = (s0 & 0xffc0) == 0xfe80;
        let is_unicast_site_local = (s0 & 0xffc0) == 0xfec0;
        let is_unique_local = (s0 & 0xfe00) == 0xfc00;
        if is_multicast {
            (s0 & 0x000f) == 14
        } else {
            !is_loopback && !is_unicast_link_local && !is_unicast_site_local && !is_unique_local
        }
    }

    pub fn is_address_valid(addr: &Addr) -> (r: bool)
        ensures
            r == Self::spec_is_global(*addr),
    {
        match addr {
            Addr::V4(a) => Self::is_ipv4_global(a.o0, a.o1, a.o2, a.o3),
            Addr::V6(a) => Self::is_ipv6_global(*a),
        }
    }

    pub fn is_ipv4_global(o0: u8, o1: u8, o2: u8, o3: u8) -> (r: bool)
        ensures
            r == Self::spec_ipv4_global(o0, o1, o2, o3),
    {
        let is_private = o0 == 10 || (o0 == 172 && 16 <= o1 && o1 <= 31) || (o0 == 192 && o1
            == 168);
        let is_loopback = o0 == 127;
        let is_link_local = o0 == 169 && o1 == 254;
        let is_broadcast = o0 == 255 && o1 == 255 && o2 == 255 && o3 == 255;
        let is_documentation = (o0 == 192 && o2 == 2) || (o0 == 198 && o1 == 51 && o2 == 100) || (
        o0 == 203 && o2 == 113);
        !is_private && !is_loopback && !is_link_local && !is_broadcast && !is_documentation
    }

    pub fn is_ipv6_global(a: AddrV6) -> (r: bool)
        ensures
            r == Self::spec_ipv6_global(a),
    {
        let s0 = a.s0;
        let is_multicast = (s0 & 0xff00) == 0xff00;
        let is_loopback = a.s0 == 0 && a.s1 == 0 && a.s2 == 0 && a.s3 == 0 && a.s4 == 0 && a.s5
            == 0 && a.s6 == 0 && a.s7 == 1;
        let is_unicast_link_local = (s0 & 0xffc0) == 0xfe80;
        let is_unicast_site_local = (s0 & 0xffc0) == 0xfec0;
        let is_unique_local = (s0 & 0xfe00) == 0xfc00;
        if is_multicast {
            (s0 & 0x000f) == 14
        } else {
            !is_loopback && !is_unicast_link_local && !is_unicast_site_local && !is_unique_local
        }
    }
}

/// Some entry of the list stands for the same peer as `x`.
pub open spec fn node_in(s: Seq<Node>, x: Node) -> bool {
    exists|i: int| 0 <= i < s.len() && same_node(s[i], x)
}

/// Whether the list holds an entry for the same peer as `x`.
pub fn contains_same(v: &Vec<Node>, x: &Node) -> (r: bool)
    ensures
        r == node_in(v@, *x),
{
    let n = v.len();
    let mut i: usize = 0;
    while i < n
        invariant
            n == v@.len(),
            0 <= i <= n,
            forall|j: int| 0 <= j < i ==> !same_node(v@[j], *x),
        decreases n - i,
    {
        if node_same(&v[i], x) {
            return true;
        }
        i += 1;
    }
    false
}

/// `n1` is at most as far from `key` as `n2`, decided executably.
pub fn dist_le_exec(n1: &Node, n2: &Node, key: &NodeId) -> (r: bool)
    ensures
        r == dist_le(*n1, *n2, key@),
{
    let d1 = n1.dist(key);
    let d2 = n2.dist(key);
    crate::distance::bytes_le(d1.as_slice(), d2.as_slice())
}

pub proof fn lemma_dist_le_refl(n: Node, key: Seq<u8>)
    ensures
        dist_le(n, n, key),
{
}

pub proof fn lemma_dist_le_total(n1: Node, n2: Node, key: Seq<u8>)
    ensures
        dist_le(n1, n2, key) || dist_le(n2, n1, key),
{
    crate::distance::lemma_lex_trichotomy(spec_xor(n1.node_id@, key), spec_xor(n2.node_id@, key));
}

pub proof fn lemma_dist_le_trans(n1: Node, n2: Node, n3: Node, key: Seq<u8>)
    requires
        dist_le(n1, n2, key),
        dist_le(n2, n3, key),
    ensures
        dist_le(n1, n3, key),
{
    crate::distance::lemma_lex_le_trans(
        spec_xor(n1.node_id@, key),
        spec_xor(n2.node_id@, key),
        spec_xor(n3.node_id@, key),
    );
}

/// Inserting an element anywhere adds exactly it to the sequence's contents.
pub proof fn lemma_to_multiset_insert(s: Seq<Node>, i: int, x: Node)
    requires
        0 <= i <= s.len(),
    ensures
        s.insert(i, x).to_multiset() == s.to_multiset().insert(x),
{
    broadcast use vstd::seq_lib::group_to_multiset_ensures;

    let t = s.insert(i, x);
    assert(t.remove(i) =~= s);
    assert(t[i] == x);
    assert(s.to_multiset() =~= t.to_multiset().remove(x));
    assert(t.to_multiset().count(x) > 0);
    assert(t.to_multiset() =~= s.to_multiset().insert(x));
}

/// The place in an ascending list where `x` belongs: everything before it is
/// at most as far as `x`, everything from it on at least as far.
pub fn insert_pos(out: &Vec<Node>, x: &Node, key: &NodeId) -> (j: usize)
    requires
        sorted_by_dist(out@, key@),
    ensures
        j <= out@.len(),
        forall|k: int| 0 <= k < j ==> dist_le(out@[k], *x, key@),
        j < out@.len() ==> dist_le(*x, out@[j as int], key@),
{
    let n = out.len();
    let mut j: usize = 0;
    while j < n
        invariant
            n == out@.len(),
            0 <= j <= n,
            forall|k: int| 0 <= k < j ==> dist_le(out@[k], *x, key@),
        decreases n - j,
    {
        if !dist_le_exec(&out[j], x, key) {
            proof {
                lemma_dist_le_total(out@[j as int], *x, key@);
            }
            return j;
        }
        j += 1;
    }
    j
}

/// Sorts peers by ascending XOR distance from `key`; the contents are kept.
pub fn sort_nodes_by_dist(v: &Vec<Node>, key: &NodeId) -> (r: Vec<Node>)
    ensures
        sorted_by_dist(r@, key@),
        r@.to_multiset() == v@.to_multiset(),
        r@.len() == v@.len(),
{
    broadcast use vstd::seq_lib::group_to_multiset_ensures;

    let n = v.len();
    let mut out: Vec<Node> = Vec::new();
    let mut i: usize = 0;
    while i < n
        invariant
            n == v@.len(),
            0 <= i <= n,
            out@.len() == i,
            sorted_by_dist(out@, key@),
            out@.to_multiset() == v@.take(i as int).to_multiset(),
        decreases n - i,
    {
        let x = v[i];
        let j = insert_pos(&out, &x, key);
        let ghost pre = out@;
        out.insert(j, x);
        proof {
            assert(out@ == pre.insert(j as int, x));
            assert forall|p: int, q: int|
                0 <= p < q < out@.len() implies dist_le(out@[p], out@[q], key@) by {
                if q < j {
                    assert(out@[p] == pre[p] && out@[q] == pre[q]);
                } else if q == j {
                    assert(out@[p] == pre[p] && out@[q] == x);
                } else if p == j {
                    assert(out@[p] == x && out@[q] == pre[q - 1]);
                    assert(j < pre.len());
                    assert(dist_le(x, pre[j as int], key@));
                    if q - 1 > j {
                        lemma_dist_le_trans(x, pre[j as int], pre[q - 1], key@);
                    }
                } else if p < j {
                    assert(out@[p] == pre[p] && out@[q] == pre[q - 1]);
                } else {
                    assert(out@[p] == pre[p - 1] && out@[q] == pre[q - 1]);
                }
            }
            lemma_to_multiset_insert(pre, j as int, x);
            assert(v@.take(i + 1) =~= v@.take(i as int).push(x));
            vstd::seq_lib::to_multiset_build(v@.take(i as int), x);
            assert(v@.take(i + 1).to_multiset() == v@.take(i as int).push(x).to_multiset());
        }
        i += 1;
    }
    proof {
        assert(v@.take(n as int) =~= v@);
    }
    out
}

/// Ascending last-seen order: the stalest peer first.
pub open spec fn sorted_by_last_seen(s: Seq<Node>) -> bool {
    forall|i: int, j: int| 0 <= i < j < s.len() ==> s[i].last_seen <= s[j].last_seen
}

/// The place in a list ordered by last-seen where `x` belongs.
fn insert_pos_last_seen(out: &Vec<Node>, x: &Node) -> (j: usize)
    requires
        sorted_by_last_seen(out@),
    ensures
        j <= out@.len(),
        forall|k: int| 0 <= k < j ==> out@[k].last_seen <= x.last_seen,
        j < out@.len() ==> x.last_seen <= out@[j as int].last_seen,
{
    let n = out.len();
    let mut j: usize = 0;
    while j < n
        invariant
            n == out@.len(),
            0 <= j <= n,
            forall|k: int| 0 <= k < j ==> out@[k].last_seen <= x.last_seen,
        decreases n - j,
    {
        if out[j].last_seen > x.last_seen {
            return j;
        }
        j += 1;
    }
    j
}

/// Sorts peers stalest-first; the contents are kept. The eviction path pings
/// peers in this order.
pub fn sort_nodes_by_last_seen(v: &Vec<Node>) -> (r: Vec<Node>)
    ensures
        sorted_by_last_seen(r@),
        r@.to_multiset() == v@.to_multiset(),
        r@.len() == v@.len(),
{
    broadcast use vstd::seq_lib::group_to_multiset_ensures;

    let n = v.len();
    let mut out: Vec<Node> = Vec::new();
    let mut i: usize = 0;
    while i < n
        invariant
            n == v@.len(),
            0 <= i <= n,
            out@.len() == i,
            sorted_by_last_seen(out@),
            out@.to_multiset() == v@.take(i as int).to_multiset(),
        decreases n - i,
    {
        let x = v[i];
        let j = insert_pos_last_seen(&out, &x);
        let ghost pre = out@;
        out.insert(j, x);
        proof {
            assert(out@ == pre.insert(j as int, x));
            assert forall|p: int, q: int|
                0 <= p < q < out@.len() implies out@[p].last_seen <= out@[q].last_seen by {
                if q < j {
                    assert(out@[p] == pre[p] && out@[q] == pre[q]);
                } else if q == j {
                    assert(out@[p] == pre[p] && out@[q] == x);
                } else if p == j {
                    assert(out@[p] == x && out@[q] == pre[q - 1]);
                } else if p < j {
                    assert(out@[p] == pre[p] && out@[q] == pre[q - 1]);
                } else {
                    assert(out@[p] == pre[p - 1] && out@[q] == pre[q - 1]);
                }
            }
            lemma_to_multiset_insert(pre, j as int, x);
            assert(v@.take(i + 1) =~= v@.take(i as int).push(x));
            vstd::seq_lib::to_multiset_build(v@.take(i as int), x);
            assert(v@.take(i + 1).to_multiset() == v@.take(i as int).push(x).to_multiset());
        }
        i += 1;
    }
    proof {
        assert(v@.take(n as int) =~= v@);
    }
    out
}

/// No two entries stand for the same peer.
pub open spec fn peers_distinct(s: Seq<Node>) -> bool {
    forall|i: int, j: int| #![trigger s[i], s[j]] 0 <= i < j < s.len() ==> !same_node(s[i], s[j])
}

/// Rearranging a list cannot introduce a repeated peer.
pub proof fn lemma_distinct_permutation(a: Seq<Node>, b: Seq<Node>)
    requires
        a.to_multiset() == b.to_multiset(),
        peers_distinct(a),
    ensures
        peers_distinct(b),
{
    broadcast use vstd::seq_lib::group_to_multiset_ensures;

    assert forall|i: int, j: int| #![trigger b[i], b[j]]
        0 <= i < j < b.len() implies !same_node(b[i], b[j]) by {
        if same_node(b[i], b[j]) {
            let x = b[i];
            let y = b[j];
            if x == y {
                assert(b.remove(j).to_multiset() =~= b.to_multiset().remove(y));
                assert(b.remove(j)[i] == x);
                assert(b.remove(j).contains(x));
                assert(b.remove(j).to_multiset().count(x) > 0);
                assert(b.to_multiset().count(x) >= 2);
                assert(a.to_multiset().count(x) >= 2);
                assert(a.to_multiset().count(x) > 0);
                assert(a.contains(x));
                let p = choose|p: int| 0 <= p < a.len() && a[p] == x;
                assert(a.remove(p).to_multiset() =~= a.to_multiset().remove(x));
                assert(a.remove(p).to_multiset().count(x) > 0);
                assert(a.remove(p).contains(x));
                let q0 = choose|q0: int| 0 <= q0 < a.remove(p).len() && a.remove(p)[q0] == x;
                let q: int = if q0 < p {
                    q0
                } else {
                    q0 + 1
                };
                assert(a[q] == a.remove(p)[q0]);
                if p < q {
                    assert(!same_node(a[p], a[q]));
                } else {
                    assert(!same_node(a[q], a[p]));
                }
            } else {
                assert(b.contains(x) && b.contains(y));
                assert(b.to_multiset().count(x) > 0 && b.to_multiset().count(y) > 0);
                assert(a.to_multiset().count(x) > 0 && a.to_multiset().count(y) > 0);
                assert(a.contains(x) && a.contains(y));
                let p = choose|p: int| 0 <= p < a.len() && a[p] == x;
                let q = choose|q: int| 0 <= q < a.len() && a[q] == y;
                assert(p != q);
                if p < q {
                    assert(!same_node(a[p], a[q]));
                } else {
                    assert(!same_node(a[q], a[p]));
                }
            }
        }
    }
}

/// Relies on rand::random: a freshly drawn value; nothing is promised of it.
pub assume_specification<T>[ rand::random::<T> ]() -> (r: T)
    where
        rand::distr::StandardUniform: rand::distr::Distribution<T>,
;

} // verus!
