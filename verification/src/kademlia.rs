use vstd::prelude::*;

use crate::Error;
use crate::addr::Addr;
use crate::kbuckets::KBuckets;
use crate::message::Cookie;
use crate::message::Message;
use crate::message::Store;
use crate::message::Value;
use crate::message::Pong;
use crate::message::FoundNode;
use crate::message::FoundValue;
use crate::message::spec_sender_id;
use crate::kbuckets::bucket_of;
use crate::kbuckets::has_id;
use crate::node::sorted_by_dist;
use crate::storage::lookup_spec;
use crate::storage::prune_spec;
use crate::storage::keep_spec;
use crate::utils::spec_ip4or6;
use crate::node::Node;
use crate::node::NodeId;
use crate::node::id_eq;
use crate::storage::ExternalStorage;
use crate::distance::bytes_eq;

verus! {

/// Bucket capacity: how many peers one k-bucket holds, and how many peers a
/// lookup settles on.
pub const K_PARAM: usize = 20;

/// Concurrency cap of a fan-out: how many requests run at once.
pub const ALPHA: usize = 3;

/// How long a single request may wait for its response, in milliseconds.
pub const TIMEOUT_MS: u64 = 2000;

/// The longest value the overlay stores.
pub const MAX_VALUE_LEN: usize = 2048;

/// How long a replica keeps a stored entry, in seconds.
pub const TTL_SECS: u64 = 900;

/// How often locally published values are pushed out again, in seconds.
pub const REPUBLISH_INTERVAL_SECS: u64 = 300;

/// How often the routing table is refreshed with a random lookup, in seconds.
pub const REFRESH_INTERVAL_SECS: u64 = 60;

/// A value this node wants the overlay to keep alive: the key, the remaining
/// lifetime in seconds, and the bytes.
pub struct Published {
    pub key: NodeId,
    pub lifetime: u64,
    pub value: Vec<u8>,
}

/// The published entries carry distinct keys and bounded values.
pub open spec fn published_wf(s: Seq<Published>) -> bool {
    &&& (forall|i: int, j: int| #![trigger s[i], s[j]]
        0 <= i < j < s.len() ==> s[i].key@ != s[j].key@)
    &&& (forall|i: int| 0 <= i < s.len() ==> (#[trigger] s[i]).value@.len() <= MAX_VALUE_LEN)
}

/// The engine: the local identity, the routing table, the replica store and
/// the values this node republishes. All network I/O stays outside; the
/// engine turns inbound events into state changes and outbound frames.
pub struct Kademlia {
    pub own_id: NodeId,
    pub buckets: KBuckets,
    pub storage: ExternalStorage,
    pub published: Vec<Published>,
    pub filter_addresses: bool,
}

/// What a successful routing-table update leaves in the sender's bucket:
/// one descriptor for the sender, stamped `now`, either overwriting the
/// entry that carried its id or appended to a bucket with room.
pub open spec fn recorded_peer(
    obk: Seq<Node>,
    nbk: Seq<Node>,
    sender: Seq<u8>,
    now: u64,
    nd: Node,
) -> bool {
    &&& nd.node_id@ == sender
    &&& nd.last_seen == now
    &&& ((exists|i: int|
        0 <= i < obk.len() && (#[trigger] obk[i]).node_id@ == sender && nbk == obk.update(i, nd))
        || (obk.len() < K_PARAM && nbk == obk.push(nd)))
}

/// `candidate` is already claimed in the overlay: some reported node
/// advertises it as its own identifier from another address.
pub open spec fn spec_id_claimed(candidate: Seq<u8>, own_addr: Addr, nodes: Seq<Node>) -> bool {
    exists|i: int| 0 <= i < nodes.len() && (#[trigger] nodes[i]).node_id@ == candidate && nodes[i].addr != own_addr
}

/// Decides an identifier collision during bootstrap: the candidate must be
/// dropped exactly when a reported node claims it from an address other than
/// this node's own.
pub fn id_claimed(candidate: &NodeId, own_addr: &Addr, nodes: &Vec<Node>) -> (r: bool)
    ensures
        r == spec_id_claimed(candidate@, *own_addr, nodes@),
{
    let n = nodes.len();
    let mut i: usize = 0;
    while i < n
        invariant
            n == nodes@.len(),
            0 <= i <= n,
            forall|j: int|
                0 <= j < i ==> !((#[trigger] nodes@[j]).node_id@ == candidate@ && nodes@[j].addr
                    != *own_addr),
        decreases n - i,
    {
        if id_eq(&nodes[i].node_id, candidate) && !(nodes[i].addr == *own_addr) {
            return true;
        }
        i += 1;
    }
    false
}

/// Some element of the list holds exactly these bytes.
pub open spec fn has_value(s: Seq<Vec<u8>>, v: Seq<u8>) -> bool {
    exists|i: int| 0 <= i < s.len() && (#[trigger] s[i])@ == v
}

/// Drops repeated byte strings, keeping the first occurrence of each; the
/// result lists exactly the distinct values of the input, in first-seen order.
pub fn dedup_values(values: &Vec<Vec<u8>>) -> (r: Vec<Vec<u8>>)
    ensures
        forall|i: int, j: int| #![trigger r@[i], r@[j]] 0 <= i < j < r@.len() ==> r@[i]@ != r@[j]@,
        forall|i: int| 0 <= i < r@.len() ==> has_value(values@, (#[trigger] r@[i])@),
        forall|j: int| 0 <= j < values@.len() ==> has_value(r@, (#[trigger] values@[j])@),
{
    let n = values.len();
    let mut r: Vec<Vec<u8>> = Vec::new();
    let mut i: usize = 0;
    while i < n
        invariant
            n == values@.len(),
            0 <= i <= n,
            forall|a: int, b: int| #![trigger r@[a], r@[b]] 0 <= a < b < r@.len() ==> r@[a]@ != r@[b]@,
            forall|a: int| 0 <= a < r@.len() ==> has_value(values@, (#[trigger] r@[a])@),
            forall|j: int| 0 <= j < i ==> has_value(r@, (#[trigger] values@[j])@),
        decreases n - i,
    {
        let mut seen = false;
        let rlen = r.len();
        let mut k: usize = 0;
        while k < rlen
            invariant
                rlen == r@.len(),
                0 <= k <= rlen,
                0 <= i < n,
                n == values@.len(),
                seen ==> has_value(r@, values@[i as int]@),
                !seen ==> (forall|a: int| 0 <= a < k ==> (#[trigger] r@[a])@ != values@[i as int]@),
            decreases rlen - k,
        {
            if bytes_eq(r[k].as_slice(), values[i].as_slice()) {
                seen = true;
                proof {
                    assert(r@[k as int]@ == values@[i as int]@);
                    assert(has_value(r@, values@[i as int]@));
                }
            }
            k += 1;
        }
        if !seen {
            let ghost pre = r@;
            r.push(crate::storage::copy_bytes(&values[i]));
            proof {
                assert(r@.last()@ == values@[i as int]@);
                assert forall|a: int, b: int| #![trigger r@[a], r@[b]]
                    0 <= a < b < r@.len() implies r@[a]@ != r@[b]@ by {
                    if b < r@.len() - 1 {
                        assert(r@[a] == pre[a] && r@[b] == pre[b]);
                    } else {
                        assert(r@[a] == pre[a]);
                        assert(r@[b]@ == values@[i as int]@);
                    }
                }
                assert forall|a: int|
                    0 <= a < r@.len() implies has_value(values@, (#[trigger] r@[a])@) by {
                    if a < r@.len() - 1 {
                        assert(r@[a] == pre[a]);
                    } else {
                        assert(r@[a]@ == values@[i as int]@);
                        assert(has_value(values@, values@[i as int]@));
                    }
                }
                assert forall|j: int|
                    0 <= j < i + 1 implies has_value(r@, (#[trigger] values@[j])@) by {
                    if j < i {
                        let a0 = choose|a0: int| 0 <= a0 < pre.len() && (#[trigger] pre[a0])@ == values@[j]@;
                        assert(r@[a0] == pre[a0]);
                        assert(has_value(r@, values@[j]@));
                    } else {
                        assert(r@[r@.len() - 1]@ == values@[j]@);
                        assert(has_value(r@, values@[j]@));
                    }
                }
            }
        } else {
            proof {
                assert forall|j: int|
                    0 <= j < i + 1 implies has_value(r@, (#[trigger] values@[j])@) by {}
            }
        }
        i += 1;
    }
    r
}

impl Kademlia {
    pub open spec fn wf(self) -> bool {
        &&& self.buckets.wf()
        &&& self.buckets.own_id@ == self.own_id@
        &&& self.storage.wf()
        &&& published_wf(self.published@)
    }

    /// A standalone node (a supernode adopts its given identity and waits for
    /// others): empty routing table, empty store, nothing published.
    pub fn new(own_id: NodeId, filter_addresses: bool) -> (r: Kademlia)
        ensures
            r.wf(),
            r.own_id@ == own_id@,
            r.buckets.all_nodes().len() == 0,
            r.storage.entries@.len() == 0,
            r.published@.len() == 0,
            r.storage.ttl == TTL_SECS,
            r.filter_addresses == filter_addresses,
    {
        Kademlia {
            own_id,
            buckets: KBuckets::new(own_id),
            storage: ExternalStorage::new(TTL_SECS),
            published: Vec::new(),
            filter_addresses,
        }
    }

    /// The frames that a `put` sends: one `Store` per located peer, each with
    /// the key, the value and a fresh cookie. A value over the size cap is
    /// refused before anything is sent.
    pub fn put(&self, key: &NodeId, value: &Vec<u8>, targets: &Vec<Node>) -> (r: Result<
        Vec<(Addr, Message)>,
        Error,
    >)
        ensures
            match r {
                Result::Err(e) => e == Error::ValueTooLong && value@.len() > MAX_VALUE_LEN,
                Result::Ok(frames) => {
                    &&& value@.len() <= MAX_VALUE_LEN
                    &&& frames@.len() == targets@.len()
                    &&& (forall|i: int|
                        0 <= i < frames@.len() ==> (#[trigger] frames@[i]).0 == targets@[i].addr
                            && (frames@[i].1 matches Message::Store(s) && s.sender_id@
                            == self.own_id@ && s.key@ == key@ && s.value@ == value@))
                },
            },
    {
        if value.len() > MAX_VALUE_LEN {
            return Result::Err(Error::ValueTooLong);
        }
        let n = targets.len();
        let mut frames: Vec<(Addr, Message)> = Vec::new();
        let mut i: usize = 0;
        while i < n
            invariant
                n == targets@.len(),
                0 <= i <= n,
                frames@.len() == i,
                value@.len() <= MAX_VALUE_LEN,
                forall|j: int|
                    0 <= j < i ==> (#[trigger] frames@[j]).0 == targets@[j].addr && (
                    frames@[j].1 matches Message::Store(s) && s.sender_id@ == self.own_id@
                        && s.key@ == key@ && s.value@ == value@),
            decreases n - i,
        {
            let cookie: Cookie = Node::generate_id();
            let msg = Message::Store(
                Store {
                    sender_id: self.own_id,
                    cookie,
                    key: *key,
                    value: Value::new(crate::storage::copy_bytes(value)),
                },
            );
            frames.push((targets[i].addr, msg));
            i += 1;
        }
        Result::Ok(frames)
    }

    /// Remembers a value for periodic republication, replacing an entry under
    /// the same key; the first `put` is the caller's turn. A value over the
    /// size cap is refused.
    pub fn store(&mut self, key: NodeId, value: Vec<u8>, lifetime: u64) -> (r: Result<(), Error>)
        requires
            old(self).wf(),
        ensures
            final(self).wf(),
            final(self).own_id == old(self).own_id,
            final(self).buckets == old(self).buckets,
            final(self).storage == old(self).storage,
            match r {
                Result::Err(e) => e == Error::ValueTooLong && value@.len() > MAX_VALUE_LEN
                    && final(self).published == old(self).published,
                Result::Ok(_) => {
                    &&& value@.len() <= MAX_VALUE_LEN
                    &&& final(self).published@.len() > 0
                    &&& final(self).published@.last().key@ == key@
                    &&& final(self).published@.last().value@ == value@
                    &&& final(self).published@.last().lifetime == lifetime
                    &&& (forall|i: int|
                        0 <= i < final(self).published@.len() - 1
                            ==> (#[trigger] final(self).published@[i]).key@ != key@
                            && (exists|j: int|
                            0 <= j < old(self).published@.len()
                                && final(self).published@[i].key@
                                == (#[trigger] old(self).published@[j]).key@
                                && final(self).published@[i].value@
                                == old(self).published@[j].value@))
                    &&& (forall|j: int|
                        0 <= j < old(self).published@.len()
                            && (#[trigger] old(self).published@[j]).key@ != key@ ==> (exists|
                            i: int,
                        |
                            0 <= i < final(self).published@.len()
                                && (#[trigger] final(self).published@[i]).key@
                                == old(self).published@[j].key@
                                && final(self).published@[i].value@
                                == old(self).published@[j].value@
                                && final(self).published@[i].lifetime
                                == old(self).published@[j].lifetime))
                },
            },
    {
        if value.len() > MAX_VALUE_LEN {
            return Result::Err(Error::ValueTooLong);
        }
        let n = self.published.len();
        let mut kept: Vec<Published> = Vec::new();
        let mut i: usize = 0;
        while i < n
            invariant
                n == old(self).published@.len(),
                self.published == old(self).published,
                published_wf(old(self).published@),
                0 <= i <= n,
                forall|a: int|
                    0 <= a < kept@.len() ==> (#[trigger] kept@[a]).key@ != key@ && (exists|j: int|
                        0 <= j < i && kept@[a].key@ == (#[trigger] old(self).published@[j]).key@
                            && kept@[a].value@ == old(self).published@[j].value@
                            && kept@[a].lifetime == old(self).published@[j].lifetime),
                forall|a: int, b: int| #![trigger kept@[a], kept@[b]]
                    0 <= a < b < kept@.len() ==> kept@[a].key@ != kept@[b].key@,
                forall|a: int|
                    0 <= a < kept@.len() ==> (#[trigger] kept@[a]).value@.len() <= MAX_VALUE_LEN,
                forall|j: int|
                    0 <= j < i && (#[trigger] old(self).published@[j]).key@ != key@ ==> (exists|
                        a: int,
                    |
                        0 <= a < kept@.len() && (#[trigger] kept@[a]).key@ == old(
                            self,
                        ).published@[j].key@ && kept@[a].value@ == old(self).published@[j].value@
                            && kept@[a].lifetime == old(self).published@[j].lifetime),
            decreases n - i,
        {
            let ghost iter_pre = kept@;
            if !id_eq(&self.published[i].key, &key) {
                let e = Published {
                    key: self.published[i].key,
                    lifetime: self.published[i].lifetime,
                    value: crate::storage::copy_bytes(&self.published[i].value),
                };
                let ghost pre = kept@;
                proof {
                    assert(e.key@ == old(self).published@[i as int].key@);
                    assert(e.value@ == old(self).published@[i as int].value@);
                }
                kept.push(e);
                proof {
                    assert forall|a: int|
                        0 <= a < kept@.len() implies (#[trigger] kept@[a]).key@ != key@ && (
                    exists|j: int|
                        0 <= j < i + 1 && kept@[a].key@ == (#[trigger] old(self).published@[j]).key@
                            && kept@[a].value@ == old(self).published@[j].value@
                            && kept@[a].lifetime == old(self).published@[j].lifetime) by {
                        if a < kept@.len() - 1 {
                            assert(kept@[a] == pre[a]);
                        } else {
                            assert(kept@[a] == e);
                            assert(e.key@ == old(self).published@[i as int].key@);
                            assert(e.lifetime == old(self).published@[i as int].lifetime);
                        }
                    }
                    assert forall|a: int, b: int| #![trigger kept@[a], kept@[b]]
                        0 <= a < b < kept@.len() implies kept@[a].key@ != kept@[b].key@ by {
                        if b < kept@.len() - 1 {
                            assert(kept@[a] == pre[a] && kept@[b] == pre[b]);
                        } else {
                            assert(kept@[a] == pre[a]);
                            assert(kept@[b] == e);
                            let ja = choose|j: int|
                                0 <= j < i && pre[a].key@ == (#[trigger] old(
                                    self,
                                ).published@[j]).key@ && pre[a].value@ == old(
                                    self,
                                ).published@[j].value@ && pre[a].lifetime == old(
                                    self,
                                ).published@[j].lifetime;
                            assert(old(self).published@[ja].key@ != old(
                                self,
                            ).published@[i as int].key@);
                        }
                    }
                    assert forall|a: int|
                        0 <= a < kept@.len() implies (#[trigger] kept@[a]).value@.len()
                        <= MAX_VALUE_LEN by {
                        if a < kept@.len() - 1 {
                            assert(kept@[a] == pre[a]);
                        } else {
                            assert(kept@[a].value@ == old(self).published@[i as int].value@);
                        }
                    }
                }
            }
            proof {
                assert forall|j: int|
                    0 <= j < i + 1 && (#[trigger] old(self).published@[j]).key@
                        != key@ implies (exists|a: int|
                    0 <= a < kept@.len() && (#[trigger] kept@[a]).key@ == old(
                        self,
                    ).published@[j].key@ && kept@[a].value@ == old(self).published@[j].value@
                        && kept@[a].lifetime == old(self).published@[j].lifetime) by {
                    if j == i {
                        assert(kept@[kept@.len() - 1].key@ == old(self).published@[j].key@);
                        assert(kept@[kept@.len() - 1].lifetime == old(self).published@[j].lifetime);
                    } else {
                        let a = choose|a: int|
                            0 <= a < iter_pre.len() && (#[trigger] iter_pre[a]).key@ == old(
                                self,
                            ).published@[j].key@ && iter_pre[a].value@ == old(
                                self,
                            ).published@[j].value@ && iter_pre[a].lifetime == old(
                                self,
                            ).published@[j].lifetime;
                        assert(kept@[a] == iter_pre[a]);
                    }
                }
            }
            i += 1;
        }
        let ghost kept_pre = kept@;
        let ghost vlen = value@.len();
        kept.push(Published { key, lifetime, value });
        self.published = kept;
        proof {
            assert(self.published@.last().key@ == key@);
            assert(self.published@.last().lifetime == lifetime);
            assert forall|a: int|
                0 <= a < self.published@.len() - 1 implies (#[trigger] self.published@[a]).key@
                != key@ && (exists|j: int|
                0 <= j < old(self).published@.len() && self.published@[a].key@ == (#[trigger] old(
                    self,
                ).published@[j]).key@ && self.published@[a].value@ == old(
                    self,
                ).published@[j].value@) by {
                assert(self.published@[a] == kept_pre[a]);
            }
            assert forall|a: int, b: int| #![trigger self.published@[a], self.published@[b]]
                0 <= a < b < self.published@.len() implies self.published@[a].key@
                != self.published@[b].key@ by {
                if b < self.published@.len() - 1 {
                    assert(self.published@[a] == kept_pre[a]);
                    assert(self.published@[b] == kept_pre[b]);
                } else {
                    assert(self.published@[a] == kept_pre[a]);
                    assert(self.published@[a].key@ != key@);
                }
            }
            assert forall|a: int|
                0 <= a < self.published@.len() implies (#[trigger] self.published@[a]).value@.len()
                <= MAX_VALUE_LEN by {
                if a < self.published@.len() - 1 {
                    assert(self.published@[a] == kept_pre[a]);
                } else {
                    assert(self.published@[a].value@.len() == vlen);
                }
            }
            assert forall|j: int|
                0 <= j < old(self).published@.len() && (#[trigger] old(self).published@[j]).key@
                    != key@ implies (exists|i2: int|
                0 <= i2 < self.published@.len() && (#[trigger] self.published@[i2]).key@ == old(
                    self,
                ).published@[j].key@ && self.published@[i2].value@ == old(
                    self,
                ).published@[j].value@ && self.published@[i2].lifetime == old(
                    self,
                ).published@[j].lifetime) by {
                let a = choose|a: int|
                    0 <= a < kept_pre.len() && (#[trigger] kept_pre[a]).key@ == old(
                        self,
                    ).published@[j].key@ && kept_pre[a].value@ == old(self).published@[j].value@
                        && kept_pre[a].lifetime == old(self).published@[j].lifetime;
                assert(self.published@[a] == kept_pre[a]);
            }
        }
        Result::Ok(())
    }

    /// One republish beat: every lifetime shrinks by the republish interval;
    /// exhausted entries leave; what stays is returned so the caller can
    /// issue one `put` per entry.
    pub fn republish_tick(&mut self) -> (r: Vec<(NodeId, Vec<u8>)>)
        requires
            old(self).wf(),
        ensures
            final(self).wf(),
            final(self).own_id == old(self).own_id,
            final(self).buckets == old(self).buckets,
            final(self).storage == old(self).storage,
            r@.len() == final(self).published@.len(),
            forall|i: int|
                0 <= i < final(self).published@.len()
                    ==> (#[trigger] final(self).published@[i]).lifetime > 0
                    && (exists|j: int|
                    0 <= j < old(self).published@.len()
                        && ((#[trigger] old(self).published@[j])).lifetime
                        > REPUBLISH_INTERVAL_SECS
                        && final(self).published@[i].key@ == old(self).published@[j].key@
                        && final(self).published@[i].value@ == old(self).published@[j].value@
                        && final(self).published@[i].lifetime
                        == old(self).published@[j].lifetime - REPUBLISH_INTERVAL_SECS),
            forall|i: int|
                0 <= i < r@.len() ==> (#[trigger] r@[i]).0@ == final(self).published@[i].key@
                    && r@[i].1@ == final(self).published@[i].value@,
            forall|j: int|
                0 <= j < old(self).published@.len() && ((#[trigger] old(
                    self,
                ).published@[j])).lifetime > REPUBLISH_INTERVAL_SECS ==> (exists|i: int|
                    0 <= i < final(self).published@.len()
                        && (#[trigger] final(self).published@[i]).key@
                        == old(self).published@[j].key@ && final(self).published@[i].value@
                        == old(self).published@[j].value@),
    {
        let n = self.published.len();
        let mut kept: Vec<Published> = Vec::new();
        let mut out: Vec<(NodeId, Vec<u8>)> = Vec::new();
        let mut i: usize = 0;
        while i < n
            invariant
                n == old(self).published@.len(),
                self.published == old(self).published,
                published_wf(old(self).published@),
                0 <= i <= n,
                out@.len() == kept@.len(),
                forall|a: int|
                    0 <= a < kept@.len() ==> (#[trigger] kept@[a]).lifetime > 0 && (exists|j: int|
                        0 <= j < i && ((#[trigger] old(self).published@[j])).lifetime
                            > REPUBLISH_INTERVAL_SECS && kept@[a].key@ == old(
                            self,
                        ).published@[j].key@ && kept@[a].value@ == old(self).published@[j].value@
                            && kept@[a].lifetime == old(self).published@[j].lifetime
                            - REPUBLISH_INTERVAL_SECS),
                forall|a: int|
                    0 <= a < out@.len() ==> (#[trigger] out@[a]).0@ == kept@[a].key@ && out@[a].1@
                        == kept@[a].value@,
                forall|a: int, b: int| #![trigger kept@[a], kept@[b]]
                    0 <= a < b < kept@.len() ==> kept@[a].key@ != kept@[b].key@,
                forall|a: int|
                    0 <= a < kept@.len() ==> (#[trigger] kept@[a]).value@.len() <= MAX_VALUE_LEN,
                forall|j: int|
                    0 <= j < i && ((#[trigger] old(self).published@[j])).lifetime
                        > REPUBLISH_INTERVAL_SECS ==> (exists|a: int|
                        0 <= a < kept@.len() && (#[trigger] kept@[a]).key@ == old(
                            self,
                        ).published@[j].key@ && kept@[a].value@ == old(self).published@[j].value@),
            decreases n - i,
        {
            let ghost iter_pre = kept@;
            let lt = self.published[i].lifetime;
            if lt > REPUBLISH_INTERVAL_SECS {
                let e = Published {
                    key: self.published[i].key,
                    lifetime: lt - REPUBLISH_INTERVAL_SECS,
                    value: crate::storage::copy_bytes(&self.published[i].value),
                };
                let ghost pre_k = kept@;
                let ghost pre_o = out@;
                proof {
                    assert(e.key@ == old(self).published@[i as int].key@);
                    assert(e.value@ == old(self).published@[i as int].value@);
                }
                kept.push(e);
                out.push((self.published[i].key, crate::storage::copy_bytes(&self.published[i].value)));
                proof {
                    assert forall|a: int|
                        0 <= a < kept@.len() implies (#[trigger] kept@[a]).lifetime > 0 && (
                    exists|j: int|
                        0 <= j < old(self).published@.len() && (old(self).published@[j]).lifetime
                            > REPUBLISH_INTERVAL_SECS && kept@[a].key@ == old(
                            self,
                        ).published@[j].key@ && kept@[a].value@ == old(self).published@[j].value@
                            && kept@[a].lifetime == old(self).published@[j].lifetime
                            - REPUBLISH_INTERVAL_SECS) by {
                        if a < kept@.len() - 1 {
                            assert(kept@[a] == pre_k[a]);
                        } else {
                            assert(kept@[a] == e);
                        }
                    }
                    assert forall|a: int|
                        0 <= a < out@.len() implies (#[trigger] out@[a]).0@ == kept@[a].key@
                        && out@[a].1@ == kept@[a].value@ by {
                        if a < out@.len() - 1 {
                            assert(out@[a] == pre_o[a]);
                            assert(kept@[a] == pre_k[a]);
                        }
                    }
                    assert forall|a: int, b: int| #![trigger kept@[a], kept@[b]]
                        0 <= a < b < kept@.len() implies kept@[a].key@ != kept@[b].key@ by {
                        if b < kept@.len() - 1 {
                            assert(kept@[a] == pre_k[a] && kept@[b] == pre_k[b]);
                        } else {
                            assert(kept@[a] == pre_k[a]);
                            assert(kept@[b] == e);
                            let ja = choose|j: int|
                                0 <= j < i && ((#[trigger] old(self).published@[j])).lifetime
                                    > REPUBLISH_INTERVAL_SECS && pre_k[a].key@ == old(
                                    self,
                                ).published@[j].key@ && pre_k[a].value@ == old(
                                    self,
                                ).published@[j].value@ && pre_k[a].lifetime == old(
                                    self,
                                ).published@[j].lifetime - REPUBLISH_INTERVAL_SECS;
                            assert(old(self).published@[ja].key@ != old(
                                self,
                            ).published@[i as int].key@);
                        }
                    }
                    assert forall|a: int|
                        0 <= a < kept@.len() implies (#[trigger] kept@[a]).value@.len()
                        <= MAX_VALUE_LEN by {
                        if a < kept@.len() - 1 {
                            assert(kept@[a] == pre_k[a]);
                        } else {
                            assert(kept@[a].value@ == old(self).published@[i as int].value@);
                        }
                    }
                }
            }
            proof {
                assert forall|j: int|
                    0 <= j < i + 1 && ((#[trigger] old(self).published@[j])).lifetime
                        > REPUBLISH_INTERVAL_SECS implies (exists|a: int|
                    0 <= a < kept@.len() && (#[trigger] kept@[a]).key@ == old(
                        self,
                    ).published@[j].key@ && kept@[a].value@ == old(self).published@[j].value@) by {
                    if j == i {
                        assert(kept@[kept@.len() - 1].key@ == old(self).published@[j].key@);
                    } else {
                        let a = choose|a: int|
                            0 <= a < iter_pre.len() && (#[trigger] iter_pre[a]).key@ == old(
                                self,
                            ).published@[j].key@ && iter_pre[a].value@ == old(
                                self,
                            ).published@[j].value@;
                        assert(kept@[a] == iter_pre[a]);
                    }
                }
            }
            i += 1;
        }
        self.published = kept;
        out
    }

    /// Folds a sender into the routing table before dispatch: the peer's
    /// descriptor is built or refreshed, stamped with `now`, and offered to
    /// its bucket; a full bucket hands the refused peer back for the eviction
    /// path. A peer claiming the local id is refused, as is a non-global
    /// address while filtering is on; a synthetic timeout carries no sender
    /// and changes nothing.
    pub fn update_buckets(&mut self, src: Addr, msg: &Message, now: u64) -> (r: Result<
        Option<Node>,
        Error,
    >)
        requires
            old(self).wf(),
        ensures
            final(self).wf(),
            final(self).own_id == old(self).own_id,
            final(self).storage == old(self).storage,
            final(self).published == old(self).published,
            final(self).filter_addresses == old(self).filter_addresses,
            match spec_sender_id(*msg) {
                Option::None => r == Result::<Option<Node>, Error>::Ok(Option::None) && final(self).buckets == old(self).buckets,
                Option::Some(sender) => {
                    let ok_addr = !old(self).filter_addresses || Node::spec_is_global(
                        spec_ip4or6(src),
                    );
                    let b = bucket_of(old(self).own_id@, sender@);
                    match r {
                        Result::Err(e) => final(self).buckets == old(self).buckets && (if !ok_addr {
                            e == Error::AddressUnusable
                        } else {
                            e == Error::InvalidPeerId && sender@ == old(self).own_id@
                        }),
                        Result::Ok(opt) => {
                            &&& ok_addr
                            &&& sender@ != old(self).own_id@
                            &&& (match opt {
                                Option::None => {
                                    let obk = old(self).buckets.view_of()[b];
                                    let nbk = final(self).buckets.view_of()[b];
                                    &&& final(self).buckets.view_of().len() == old(
                                        self,
                                    ).buckets.view_of().len()
                                    &&& (forall|c: int|
                                        0 <= c < old(self).buckets.view_of().len() && c != b
                                            ==> final(self).buckets.view_of()[c] == old(
                                            self,
                                        ).buckets.view_of()[c])
                                    &&& (exists|nd: Node|
                                        #[trigger] recorded_peer(obk, nbk, sender@, now, nd))
                                    &&& has_id(nbk, sender@)
                                },
                                Option::Some(n) => final(self).buckets.view_of() == old(
                                    self,
                                ).buckets.view_of() && n.node_id@ == sender@ && old(
                                    self,
                                ).buckets.view_of()[b].len() == K_PARAM && !has_id(
                                    old(self).buckets.view_of()[b],
                                    sender@,
                                ),
                            })
                        },
                    }
                },
            },
    {
        let sender = match msg.sender_id() {
            Option::None => {
                return Result::Ok(Option::None);
            },
            Option::Some(s) => s,
        };
        let mut node = match self.buckets.construct_node(src, sender, now, self.filter_addresses) {
            Result::Err(e) => {
                return Result::Err(e);
            },
            Result::Ok(n) => n,
        };
        node.update_last_seen(now);
        proof {
            crate::node::lemma_xor_zero_iff_eq(old(self).own_id@, sender@);
            crate::distance::lemma_high_bit_pos_bound(
                crate::node::spec_xor(old(self).own_id@, sender@),
            );
            assert(0 <= bucket_of(old(self).own_id@, sender@) < old(
                self,
            ).buckets.view_of().len());
        }
        let ghost obk = self.buckets.view_of()[bucket_of(self.own_id@, sender@)];
        let res = self.buckets.add(node);
        match res {
            Result::Ok(_) => {
                proof {
                    let b = bucket_of(old(self).own_id@, sender@);
                    let nbk = self.buckets.view_of()[b];
                    if has_id(obk, node.node_id@) {
                        let i = choose|i: int|
                            0 <= i < obk.len() && obk[i].node_id@ == node.node_id@ && nbk
                                == obk.update(i, node);
                        assert(nbk[i] == node);
                        assert(has_id(nbk, sender@));
                    } else {
                        assert(nbk.last() == node);
                        assert(has_id(nbk, sender@));
                    }
                    assert(recorded_peer(obk, nbk, sender@, now, node));
                }
                Result::Ok(Option::None)
            },
            Result::Err(n) => {
                proof {
                    let b = bucket_of(old(self).own_id@, sender@);
                    assert(old(self).buckets.bucket_wf(b));
                    assert(old(self).buckets.view_of()[b].len() <= K_PARAM);
                }
                Result::Ok(Option::Some(n))
            },
        }
    }

    /// Answers one inbound message after the routing-table update: a ping
    /// gets a pong under the same cookie; a node search gets one reply per
    /// close peer; a value search gets the stored values, or close peers when
    /// nothing is stored; a store request is recorded when the value fits.
    /// Responses and synthetic timeouts change nothing beyond the table.
    pub fn handle_message(&mut self, src: Addr, msg: &Message, now: u64) -> (r: Result<
        (Vec<(Addr, Message)>, Option<Node>),
        Error,
    >)
        requires
            old(self).wf(),
        ensures
            final(self).wf(),
            final(self).own_id == old(self).own_id,
            final(self).published == old(self).published,
            final(self).filter_addresses == old(self).filter_addresses,
            (r is Err <==> (match spec_sender_id(*msg) {
                Option::None => false,
                Option::Some(sender) => !(!old(self).filter_addresses || Node::spec_is_global(
                    spec_ip4or6(src),
                )) || sender@ == old(self).own_id@,
            })),
            match r {
                Result::Err(e) => final(self).buckets == old(self).buckets && final(self).storage
                    == old(self).storage && (match spec_sender_id(*msg) {
                    Option::None => false,
                    Option::Some(sender) => {
                        let ok_addr = !old(self).filter_addresses || Node::spec_is_global(
                            spec_ip4or6(src),
                        );
                        if !ok_addr {
                            e == Error::AddressUnusable
                        } else {
                            e == Error::InvalidPeerId && sender@ == old(self).own_id@
                        }
                    },
                }),
                Result::Ok(out) => (match spec_sender_id(*msg) {
                    Option::None => out.1 is None,
                    Option::Some(sender) => match out.1 {
                        Option::None => has_id(
                            final(self).buckets.view_of()[bucket_of(old(self).own_id@, sender@)],
                            sender@,
                        ),
                        Option::Some(n) => n.node_id@ == sender@,
                    },
                }) && match *msg {
                    Message::Ping(p) => final(self).storage == old(self).storage && out.0@.len()
                        == 1 && (#[trigger] out.0@[0]).0 == src && (out.0@[0].1 matches
                    Message::Pong(q) && q.sender_id@ == old(self).own_id@ && q.cookie@
                        == p.cookie@),
                    Message::FindNode(p) => final(self).storage == old(self).storage && (
                    exists|ns: Seq<Node>|
                        #![trigger closest_of(final(self).buckets, p.key@, ns)]
                        closest_of(final(self).buckets, p.key@, ns) && find_node_frames(
                            old(self).own_id,
                            p.cookie,
                            src,
                            ns,
                            out.0@,
                        )),
                    Message::FindValue(p) => {
                        let found = lookup_spec(final(self).storage.entries@, p.key@);
                        &&& final(self).storage.entries@ == prune_spec(
                            old(self).storage.entries@,
                            old(self).storage.ttl,
                            now,
                        )
                        &&& final(self).storage.ttl == old(self).storage.ttl
                        &&& (if found.len() > 0 {
                            out.0@.len() == found.len() && (forall|i: int|
                                0 <= i < out.0@.len() ==> value_reply_frame(
                                    old(self).own_id,
                                    p.cookie,
                                    src,
                                    found.len() as int,
                                    found[i].value@,
                                    #[trigger] out.0@[i],
                                ))
                        } else {
                            exists|ns: Seq<Node>|
                                #![trigger closest_of(final(self).buckets, p.key@, ns)]
                                closest_of(final(self).buckets, p.key@, ns) && find_node_frames(
                                    old(self).own_id,
                                    p.cookie,
                                    src,
                                    ns,
                                    out.0@,
                                )
                        })
                    },
                    Message::Store(p) => out.0@.len() == 0 && (if p.value@.len()
                        <= MAX_VALUE_LEN {
                        let pruned = prune_spec(
                            old(self).storage.entries@,
                            old(self).storage.ttl,
                            now,
                        );
                        let kept = keep_spec(
                            pruned,
                            p.key@,
                            p.value@,
                            spec_ip4or6(src),
                            p.sender_id@,
                        );
                        &&& final(self).storage.entries@.len() == kept.len() + 1
                        &&& final(self).storage.entries@.take(kept.len() as int) == kept
                        &&& final(self).storage.entries@.last().key@ == p.key@
                        &&& final(self).storage.entries@.last().value@ == p.value@
                        &&& final(self).storage.entries@.last().sender_addr == spec_ip4or6(src)
                        &&& final(self).storage.entries@.last().sender_id@ == p.sender_id@
                        &&& final(self).storage.entries@.last().time == now
                    } else {
                        final(self).storage == old(self).storage
                    }),
                    Message::Pong(_) => out.0@.len() == 0 && final(self).storage == old(
                        self,
                    ).storage,
                    Message::FoundNode(_) => out.0@.len() == 0 && final(self).storage == old(
                        self,
                    ).storage,
                    Message::FoundValue(_) => out.0@.len() == 0 && final(self).storage == old(
                        self,
                    ).storage,
                    Message::Timeout => out.0@.len() == 0 && final(self).storage == old(
                        self,
                    ).storage && final(self).buckets == old(self).buckets && out.1 is None,
                },
            },
    {
        let evict = match self.update_buckets(src, msg, now) {
            Result::Err(e) => {
                return Result::Err(e);
            },
            Result::Ok(o) => o,
        };
        let own = self.own_id;
        match msg {
            Message::Ping(p) => {
                let mut frames: Vec<(Addr, Message)> = Vec::new();
                frames.push((src, Message::Pong(Pong { sender_id: own, cookie: p.cookie })));
                Result::Ok((frames, evict))
            },
            Message::FindNode(p) => {
                let frames = self.node_replies(&p.key, &p.cookie, src);
                Result::Ok((frames, evict))
            },
            Message::FindValue(p) => {
                let found = self.storage.get(&p.key, now);
                if found.len() > 0 {
                    let count = found.len();
                    let n = found.len();
                    let mut frames: Vec<(Addr, Message)> = Vec::new();
                    let ghost fnd = lookup_spec(self.storage.entries@, p.key@);
                    let mut i: usize = 0;
                    while i < n
                        invariant
                            n == found@.len(),
                            count == n,
                            0 <= i <= n,
                            frames@.len() == i,
                            found@.len() == fnd.len(),
                            forall|m: int|
                                0 <= m < found@.len() ==> (#[trigger] found@[m]).1@
                                    == fnd[m].value@,
                            forall|m: int|
                                0 <= m < i ==> value_reply_frame(
                                    own,
                                    p.cookie,
                                    src,
                                    fnd.len() as int,
                                    fnd[m].value@,
                                    #[trigger] frames@[m],
                                ),
                            own == self.own_id,
                        decreases n - i,
                    {
                        let v = crate::storage::copy_bytes(&found[i].1);
                        frames.push(
                            (
                                src,
                                Message::FoundValue(
                                    FoundValue {
                                        sender_id: own,
                                        cookie: p.cookie,
                                        value_count: count,
                                        value: Value::new(v),
                                    },
                                ),
                            ),
                        );
                        i += 1;
                    }
                    Result::Ok((frames, evict))
                } else {
                    proof {
                        assert(lookup_spec(self.storage.entries@, p.key@).len() == 0);
                    }
                    let frames = self.node_replies(&p.key, &p.cookie, src);
                    Result::Ok((frames, evict))
                }
            },
            Message::Store(p) => {
                let data = p.value.data();
                if data.len() <= MAX_VALUE_LEN {
                    let nsrc = crate::utils::ip4or6(src);
                    let bytes = crate::storage::copy_bytes(data);
                    self.storage.put(p.key, (nsrc, p.sender_id), bytes, now);
                }
                Result::Ok((Vec::new(), evict))
            },
            Message::Pong(_) => Result::Ok((Vec::new(), evict)),
            Message::FoundNode(_) => Result::Ok((Vec::new(), evict)),
            Message::FoundValue(_) => Result::Ok((Vec::new(), evict)),
            Message::Timeout => Result::Ok((Vec::new(), evict)),
        }
    }

    /// One `FoundNode` frame per close peer, all under the request's cookie.
    fn node_replies(&self, key: &NodeId, cookie: &Cookie, src: Addr) -> (frames: Vec<
        (Addr, Message),
    >)
        requires
            self.wf(),
        ensures
            exists|ns: Seq<Node>|
                #![trigger closest_of(self.buckets, key@, ns)]
                closest_of(self.buckets, key@, ns) && find_node_frames(
                    self.own_id,
                    *cookie,
                    src,
                    ns,
                    frames@,
                ),
    {
        let closest = self.buckets.get_closest_nodes(key, K_PARAM);
        let count = closest.len();
        let n = closest.len();
        let mut frames: Vec<(Addr, Message)> = Vec::new();
        let mut i: usize = 0;
        while i < n
            invariant
                n == closest@.len(),
                count == n,
                0 <= i <= n,
                frames@.len() == i,
                forall|m: int|
                    0 <= m < i ==> node_reply_frame(
                        self.own_id,
                        *cookie,
                        src,
                        closest@.len() as int,
                        closest@[m],
                        #[trigger] frames@[m],
                    ),
            decreases n - i,
        {
            let wire_node = Node { addr: closest[i].addr, node_id: closest[i].node_id, last_seen: 0 };
            frames.push(
                (
                    src,
                    Message::FoundNode(
                        FoundNode {
                            sender_id: self.own_id,
                            cookie: *cookie,
                            node_count: count,
                            node: wire_node,
                        },
                    ),
                ),
            );
            i += 1;
        }
        proof {
            assert(closest_of(self.buckets, key@, closest@));
            assert(find_node_frames(self.own_id, *cookie, src, closest@, frames@));
        }
        frames
    }
}

/// One reply frame of a node search: a `FoundNode` to the asker carrying one
/// close peer, the request's cookie and the total count.
pub open spec fn node_reply_frame(
    own: NodeId,
    cookie: Cookie,
    src: Addr,
    count: int,
    n: Node,
    fr: (Addr, Message),
) -> bool {
    fr.0 == src && (fr.1 matches Message::FoundNode(f) && f.sender_id@ == own@ && f.cookie@
        == cookie@ && f.node_count == count && f.node.addr == n.addr && f.node.node_id@
        == n.node_id@ && f.node.last_seen == 0)
}

/// One reply frame of a value search: a `FoundValue` to the asker carrying
/// one stored value, the request's cookie and the total count.
pub open spec fn value_reply_frame(
    own: NodeId,
    cookie: Cookie,
    src: Addr,
    count: int,
    v: Seq<u8>,
    fr: (Addr, Message),
) -> bool {
    fr.0 == src && (fr.1 matches Message::FoundValue(f) && f.sender_id@ == own@ && f.cookie@
        == cookie@ && f.value_count == count && f.value@ == v)
}

/// `ns` is what the routing table would hand out as the closest peers to
/// `key`: ascending by distance, capped at the bucket parameter, and all
/// known to the table.
pub open spec fn closest_of(kb: KBuckets, key: Seq<u8>, ns: Seq<Node>) -> bool {
    &&& sorted_by_dist(ns, key)
    &&& ns.len() == if K_PARAM <= kb.all_nodes().len() {
        K_PARAM as int
    } else {
        kb.all_nodes().len() as int
    }
    &&& (forall|i: int| 0 <= i < ns.len() ==> kb.all_nodes().contains(#[trigger] ns[i]))
}

/// The reply list of a node search: one frame per close peer, in order.
pub open spec fn find_node_frames(
    own: NodeId,
    cookie: Cookie,
    src: Addr,
    ns: Seq<Node>,
    frames: Seq<(Addr, Message)>,
) -> bool {
    frames.len() == ns.len() && (forall|i: int|
        0 <= i < frames.len() ==> node_reply_frame(
            own,
            cookie,
            src,
            ns.len() as int,
            ns[i],
            #[trigger] frames[i],
        ))
}

} // verus!
