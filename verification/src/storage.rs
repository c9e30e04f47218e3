use vstd::prelude::*;

use crate::addr::Addr;
use crate::node::NodeId;
use crate::node::id_eq;
use crate::distance::bytes_eq;
use crate::kademlia::MAX_VALUE_LEN;

verus! {

/// One stored record: a value under a key, remembered together with the peer
/// that sent it and the time it arrived.
pub struct StorageEntry {
    pub key: NodeId,
    pub value: Vec<u8>,
    pub sender_addr: Addr,
    pub sender_id: NodeId,
    pub time: u64,
}

/// The entry is younger than the time-to-live at `now`.
pub open spec fn fresh_at(e: StorageEntry, ttl: u64, now: u64) -> bool {
    e.time + ttl > now
}

/// Two entries name the same originating peer.
pub open spec fn same_sender(a: StorageEntry, b: StorageEntry) -> bool {
    a.sender_addr == b.sender_addr && a.sender_id@ == b.sender_id@
}

/// Whether an incoming record displaces `e`: same key, and the value or the
/// sender matches.
pub open spec fn displaced(
    e: StorageEntry,
    key: Seq<u8>,
    value: Seq<u8>,
    saddr: Addr,
    sid: Seq<u8>,
) -> bool {
    e.key@ == key && (e.value@ == value || (e.sender_addr == saddr && e.sender_id@ == sid))
}

/// Under one key, any two entries differ in their value and in their
/// originating peer: an insertion with a matching value or sender replaces
/// the older entry instead of standing beside it.
pub open spec fn entries_distinct(s: Seq<StorageEntry>) -> bool {
    forall|i: int, j: int| #![trigger s[i], s[j]]
        0 <= i < j < s.len() && s[i].key@ == s[j].key@ ==> s[i].value@ != s[j].value@
            && !same_sender(s[i], s[j])
}

/// What survives pruning: the entries younger than the time-to-live, in order.
pub open spec fn prune_spec(s: Seq<StorageEntry>, ttl: u64, now: u64) -> Seq<StorageEntry>
    decreases s.len(),
{
    if s.len() == 0 {
        Seq::empty()
    } else {
        let rest = prune_spec(s.drop_last(), ttl, now);
        if fresh_at(s.last(), ttl, now) {
            rest.push(s.last())
        } else {
            rest
        }
    }
}

/// What survives an insertion, before the new record is appended.
pub open spec fn keep_spec(
    s: Seq<StorageEntry>,
    key: Seq<u8>,
    value: Seq<u8>,
    saddr: Addr,
    sid: Seq<u8>,
) -> Seq<StorageEntry>
    decreases s.len(),
{
    if s.len() == 0 {
        Seq::empty()
    } else {
        let rest = keep_spec(s.drop_last(), key, value, saddr, sid);
        if !displaced(s.last(), key, value, saddr, sid) {
            rest.push(s.last())
        } else {
            rest
        }
    }
}

/// The entries under one key, in order.
pub open spec fn lookup_spec(s: Seq<StorageEntry>, key: Seq<u8>) -> Seq<StorageEntry>
    decreases s.len(),
{
    if s.len() == 0 {
        Seq::empty()
    } else {
        let rest = lookup_spec(s.drop_last(), key);
        if s.last().key@ == key {
            rest.push(s.last())
        } else {
            rest
        }
    }
}

/// Every pruned entry was stored, and is younger than the time-to-live.
pub proof fn lemma_prune_membership(s: Seq<StorageEntry>, ttl: u64, now: u64, k: int)
    requires
        0 <= k < prune_spec(s, ttl, now).len(),
    ensures
        s.contains(prune_spec(s, ttl, now)[k]),
        fresh_at(prune_spec(s, ttl, now)[k], ttl, now),
    decreases s.len(),
{
    if s.len() > 0 {
        let rest = prune_spec(s.drop_last(), ttl, now);
        if k < rest.len() {
            lemma_prune_membership(s.drop_last(), ttl, now, k);
            let i = choose|i: int|
                0 <= i < s.drop_last().len() && s.drop_last()[i] == #[trigger] rest[k];
            assert(s[i] == rest[k]);
        } else {
            assert(s[s.len() - 1] == s.last());
        }
    }
}

pub proof fn lemma_keep_membership(
    s: Seq<StorageEntry>,
    key: Seq<u8>,
    value: Seq<u8>,
    saddr: Addr,
    sid: Seq<u8>,
    k: int,
)
    requires
        0 <= k < keep_spec(s, key, value, saddr, sid).len(),
    ensures
        s.contains(keep_spec(s, key, value, saddr, sid)[k]),
        !displaced(keep_spec(s, key, value, saddr, sid)[k], key, value, saddr, sid),
    decreases s.len(),
{
    if s.len() > 0 {
        let rest = keep_spec(s.drop_last(), key, value, saddr, sid);
        if k < rest.len() {
            lemma_keep_membership(s.drop_last(), key, value, saddr, sid, k);
            let i = choose|i: int|
                0 <= i < s.drop_last().len() && s.drop_last()[i] == #[trigger] rest[k];
            assert(s[i] == rest[k]);
        } else {
            assert(s[s.len() - 1] == s.last());
        }
    }
}

pub proof fn lemma_lookup_membership(s: Seq<StorageEntry>, key: Seq<u8>, k: int)
    requires
        0 <= k < lookup_spec(s, key).len(),
    ensures
        s.contains(lookup_spec(s, key)[k]),
        lookup_spec(s, key)[k].key@ == key,
    decreases s.len(),
{
    if s.len() > 0 {
        let rest = lookup_spec(s.drop_last(), key);
        if k < rest.len() {
            lemma_lookup_membership(s.drop_last(), key, k);
            let i = choose|i: int|
                0 <= i < s.drop_last().len() && s.drop_last()[i] == #[trigger] rest[k];
            assert(s[i] == rest[k]);
        } else {
            assert(s[s.len() - 1] == s.last());
        }
    }
}

proof fn lemma_distinct_drop_last(s: Seq<StorageEntry>)
    requires
        entries_distinct(s),
        s.len() > 0,
    ensures
        entries_distinct(s.drop_last()),
{
    assert forall|i: int, j: int|
        0 <= i < j < s.drop_last().len() && s.drop_last()[i].key@
            == s.drop_last()[j].key@ implies s.drop_last()[i].value@ != s.drop_last()[j].value@
        && !same_sender(s.drop_last()[i], s.drop_last()[j]) by {
        assert(s.drop_last()[i] == s[i] && s.drop_last()[j] == s[j]);
        assert(s[i].key@ == s[j].key@);
    }
}

/// Pruning keeps the records pairwise distinct.
pub proof fn lemma_prune_distinct(s: Seq<StorageEntry>, ttl: u64, now: u64)
    requires
        entries_distinct(s),
    ensures
        entries_distinct(prune_spec(s, ttl, now)),
    decreases s.len(),
{
    if s.len() > 0 {
        lemma_distinct_drop_last(s);
        lemma_prune_distinct(s.drop_last(), ttl, now);
        let rest = prune_spec(s.drop_last(), ttl, now);
        let f = prune_spec(s, ttl, now);
        if fresh_at(s.last(), ttl, now) {
            assert forall|i: int, j: int| #![trigger f[i], f[j]]
                0 <= i < j < f.len() && f[i].key@ == f[j].key@ implies f[i].value@ != f[j].value@
                    && !same_sender(f[i], f[j]) by {
                if j < f.len() - 1 {
                    assert(f[i] == rest[i] && f[j] == rest[j]);
                } else {
                    assert(f[j] == s.last() && f[i] == rest[i]);
                    lemma_prune_membership(s.drop_last(), ttl, now, i);
                    let m = choose|m: int|
                        0 <= m < s.drop_last().len() && s.drop_last()[m] == #[trigger] rest[i];
                    assert(s[m] == rest[i]);
                    assert(s.last() == s[s.len() - 1]);
                }
            }
        }
    }
}

/// Displacing matches keeps the records pairwise distinct.
pub proof fn lemma_keep_distinct(
    s: Seq<StorageEntry>,
    key: Seq<u8>,
    value: Seq<u8>,
    saddr: Addr,
    sid: Seq<u8>,
)
    requires
        entries_distinct(s),
    ensures
        entries_distinct(keep_spec(s, key, value, saddr, sid)),
    decreases s.len(),
{
    if s.len() > 0 {
        lemma_distinct_drop_last(s);
        lemma_keep_distinct(s.drop_last(), key, value, saddr, sid);
        let rest = keep_spec(s.drop_last(), key, value, saddr, sid);
        let f = keep_spec(s, key, value, saddr, sid);
        if !displaced(s.last(), key, value, saddr, sid) {
            assert forall|i: int, j: int| #![trigger f[i], f[j]]
                0 <= i < j < f.len() && f[i].key@ == f[j].key@ implies f[i].value@ != f[j].value@
                    && !same_sender(f[i], f[j]) by {
                if j < f.len() - 1 {
                    assert(f[i] == rest[i] && f[j] == rest[j]);
                } else {
                    assert(f[j] == s.last() && f[i] == rest[i]);
                    lemma_keep_membership(s.drop_last(), key, value, saddr, sid, i);
                    let m = choose|m: int|
                        0 <= m < s.drop_last().len() && s.drop_last()[m] == #[trigger] rest[i];
                    assert(s[m] == rest[i]);
                    assert(s.last() == s[s.len() - 1]);
                }
            }
        }
    }
}

/// The returned item carries the value of a stored entry under the queried
/// key whose age does not exceed the time-to-live.
pub open spec fn descends_from_fresh(
    stored: Seq<StorageEntry>,
    ttl: u64,
    now: u64,
    key: Seq<u8>,
    item: ((Addr, NodeId), Vec<u8>),
) -> bool {
    exists|j: int|
        0 <= j < stored.len() && (#[trigger] stored[j]).key@ == key && fresh_at(stored[j], ttl, now)
            && item.1@ == stored[j].value@
}

/// The store never hands out a stale record: every returned value descends
/// from an entry under the queried key that is younger than the time-to-live.
pub open spec fn results_within_ttl(
    stored: Seq<StorageEntry>,
    ttl: u64,
    now: u64,
    key: Seq<u8>,
    r: Seq<((Addr, NodeId), Vec<u8>)>,
) -> bool {
    forall|i: int| 0 <= i < r.len() ==> descends_from_fresh(stored, ttl, now, key, #[trigger] r[i])
}

/// Every stored value respects the size cap, so any entry can go back on
/// the wire.
pub open spec fn values_bounded(s: Seq<StorageEntry>) -> bool {
    forall|i: int| 0 <= i < s.len() ==> (#[trigger] s[i]).value@.len() <= MAX_VALUE_LEN
}

/// An exact copy of a byte string.
pub fn copy_bytes(v: &Vec<u8>) -> (r: Vec<u8>)
    ensures
        r@ == v@,
{
    let n = v.len();
    let mut r: Vec<u8> = Vec::new();
    let mut i: usize = 0;
    while i < n
        invariant
            n == v@.len(),
            0 <= i <= n,
            r@ == v@.take(i as int),
        decreases n - i,
    {
        r.push(v[i]);
        proof {
            assert(r@ =~= v@.take(i + 1));
        }
        i += 1;
    }
    proof {
        assert(v@.take(n as int) =~= v@);
    }
    r
}

/// The values other peers asked this node to keep, each with its origin and
/// its age; entries older than the time-to-live are pruned on every access.
pub struct ExternalStorage {
    pub entries: Vec<StorageEntry>,
    pub ttl: u64,
}

impl ExternalStorage {
    pub open spec fn wf(self) -> bool {
        entries_distinct(self.entries@) && values_bounded(self.entries@)
    }

    /// An empty store with the given time-to-live in seconds.
    pub fn new(ttl: u64) -> (r: ExternalStorage)
        ensures
            r.wf(),
            r.ttl == ttl,
            r.entries@.len() == 0,
    {
        ExternalStorage { entries: Vec::new(), ttl }
    }

    /// Drops every entry whose age exceeds the time-to-live.
    pub fn cleanup(&mut self, now: u64)
        requires
            old(self).wf(),
        ensures
            final(self).wf(),
            final(self).ttl == old(self).ttl,
            final(self).entries@ == prune_spec(old(self).entries@, old(self).ttl, now),
    {
        let ttl = self.ttl;
        let mut taken: Vec<StorageEntry> = Vec::new();
        core::mem::swap(&mut self.entries, &mut taken);
        let ghost orig = taken@;
        let n0: usize = taken.len();
        proof {
            assert(orig.len() == n0);
        }
        let mut k: usize = 0;
        while taken.len() > 0
            invariant
                orig.len() <= usize::MAX,
                k + taken@.len() == orig.len(),
                taken@ == orig.skip(k as int),
                self.entries@ == prune_spec(orig.take(k as int), ttl, now),
                self.ttl == ttl,
            decreases taken@.len(),
        {
            let e = taken.remove(0);
            proof {
                assert(orig.skip(k as int)[0] == orig[k as int]);
                assert(e == orig[k as int]);
                assert(taken@ =~= orig.skip(k + 1));
            }
            let keep = if now >= e.time {
                now - e.time < ttl
            } else {
                true
            };
            proof {
                assert(keep == fresh_at(e, ttl, now));
                assert(orig.take(k + 1).drop_last() =~= orig.take(k as int));
                assert(orig.take(k + 1).last() == orig[k as int]);
            }
            if keep {
                self.entries.push(e);
            }
            k += 1;
        }
        proof {
            assert(orig.take(orig.len() as int) =~= orig);
            lemma_prune_distinct(orig, ttl, now);
            assert forall|i: int|
                0 <= i < self.entries@.len() implies (#[trigger] self.entries@[i]).value@.len()
                <= MAX_VALUE_LEN by {
                lemma_prune_membership(orig, ttl, now, i);
                let j = choose|j: int| 0 <= j < orig.len() && orig[j] == #[trigger] self.entries@[i];
            }
        }
    }

    /// Records a value under a key for its sender. The store is pruned first;
    /// an older entry with the same value or the same sender is replaced; the
    /// fresh record is appended with time `now`.
    pub fn put(&mut self, key: NodeId, sender: (Addr, NodeId), value: Vec<u8>, now: u64)
        requires
            old(self).wf(),
            value@.len() <= MAX_VALUE_LEN,
        ensures
            final(self).wf(),
            final(self).ttl == old(self).ttl,
            ({
                let pruned = prune_spec(old(self).entries@, old(self).ttl, now);
                let kept = keep_spec(pruned, key@, value@, sender.0, sender.1@);
                &&& final(self).entries@.len() == kept.len() + 1
                &&& final(self).entries@.take(kept.len() as int) == kept
                &&& final(self).entries@.last().key@ == key@
                &&& final(self).entries@.last().value@ == value@
                &&& final(self).entries@.last().sender_addr == sender.0
                &&& final(self).entries@.last().sender_id@ == sender.1@
                &&& final(self).entries@.last().time == now
            }),
    {
        self.cleanup(now);
        let ghost pruned = self.entries@;
        let (saddr, sid) = sender;
        let mut taken: Vec<StorageEntry> = Vec::new();
        core::mem::swap(&mut self.entries, &mut taken);
        let n0: usize = taken.len();
        proof {
            assert(pruned.len() == n0);
        }
        let mut k: usize = 0;
        while taken.len() > 0
            invariant
                pruned.len() <= usize::MAX,
                k + taken@.len() == pruned.len(),
                taken@ == pruned.skip(k as int),
                self.entries@ == keep_spec(pruned.take(k as int), key@, value@, saddr, sid@),
                self.ttl == old(self).ttl,
            decreases taken@.len(),
        {
            let e = taken.remove(0);
            proof {
                assert(pruned.skip(k as int)[0] == pruned[k as int]);
                assert(e == pruned[k as int]);
                assert(taken@ =~= pruned.skip(k + 1));
            }
            let matches_key = id_eq(&e.key, &key);
            let matches_value = bytes_eq(e.value.as_slice(), value.as_slice());
            let matches_sender = e.sender_addr == saddr && id_eq(&e.sender_id, &sid);
            let keep = !(matches_key && (matches_value || matches_sender));
            proof {
                assert(keep == !displaced(e, key@, value@, saddr, sid@));
                assert(pruned.take(k + 1).drop_last() =~= pruned.take(k as int));
                assert(pruned.take(k + 1).last() == pruned[k as int]);
            }
            if keep {
                self.entries.push(e);
            }
            k += 1;
        }
        proof {
            assert(pruned.take(pruned.len() as int) =~= pruned);
        }
        let ghost kept = self.entries@;
        self.entries.push(
            StorageEntry { key, value, sender_addr: saddr, sender_id: sid, time: now },
        );
        proof {
            assert(self.entries@.take(kept.len() as int) =~= kept);
            lemma_prune_distinct(old(self).entries@, old(self).ttl, now);
            lemma_keep_distinct(pruned, key@, value@, saddr, sid@);
            assert forall|i: int, j: int| #![trigger self.entries@[i], self.entries@[j]]
                0 <= i < j < self.entries@.len() && self.entries@[i].key@
                    == self.entries@[j].key@ implies self.entries@[i].value@
                != self.entries@[j].value@ && !same_sender(self.entries@[i], self.entries@[j]) by {
                if j < self.entries@.len() - 1 {
                    assert(self.entries@[i] == kept[i] && self.entries@[j] == kept[j]);
                } else {
                    assert(self.entries@[i] == kept[i]);
                    lemma_keep_membership(pruned, key@, value@, saddr, sid@, i);
                }
            }
            assert forall|i: int|
                0 <= i < self.entries@.len() implies (#[trigger] self.entries@[i]).value@.len()
                <= MAX_VALUE_LEN by {
                if i < self.entries@.len() - 1 {
                    assert(self.entries@[i] == kept[i]);
                    lemma_keep_membership(pruned, key@, value@, saddr, sid@, i);
                }
            }
        }
    }

    /// Every value stored under `key`, each with the peer it came from. The
    /// store is pruned first, so no returned entry is older than the
    /// time-to-live.
    pub fn get(&mut self, key: &NodeId, now: u64) -> (r: Vec<((Addr, NodeId), Vec<u8>)>)
        requires
            old(self).wf(),
        ensures
            final(self).wf(),
            final(self).ttl == old(self).ttl,
            final(self).entries@ == prune_spec(old(self).entries@, old(self).ttl, now),
            ({
                let found = lookup_spec(final(self).entries@, key@);
                &&& r@.len() == found.len()
                &&& (forall|i: int|
                    0 <= i < r@.len() ==> (#[trigger] r@[i]).0.0 == found[i].sender_addr
                        && r@[i].0.1@ == found[i].sender_id@ && r@[i].1@ == found[i].value@)
            }),
            results_within_ttl(old(self).entries@, old(self).ttl, now, key@, r@),
    {
        self.cleanup(now);
        let mut r: Vec<((Addr, NodeId), Vec<u8>)> = Vec::new();
        let n = self.entries.len();
        let mut i: usize = 0;
        while i < n
            invariant
                n == self.entries@.len(),
                0 <= i <= n,
                ({
                    let found = lookup_spec(self.entries@.take(i as int), key@);
                    &&& r@.len() == found.len()
                    &&& (forall|m: int|
                        0 <= m < r@.len() ==> (#[trigger] r@[m]).0.0 == found[m].sender_addr
                            && r@[m].0.1@ == found[m].sender_id@ && r@[m].1@ == found[m].value@)
                }),
            decreases n - i,
        {
            let matches_key = id_eq(&self.entries[i].key, key);
            proof {
                assert(self.entries@.take(i + 1).drop_last() =~= self.entries@.take(i as int));
                assert(self.entries@.take(i + 1).last() == self.entries@[i as int]);
            }
            if matches_key {
                let val = copy_bytes(&self.entries[i].value);
                r.push(((self.entries[i].sender_addr, self.entries[i].sender_id), val));
            }
            i += 1;
        }
        proof {
            assert(self.entries@.take(n as int) =~= self.entries@);
            let found = lookup_spec(self.entries@, key@);
            assert(results_within_ttl(old(self).entries@, old(self).ttl, now, key@, r@)) by {
                assert forall|m: int|
                    0 <= m < r@.len() implies descends_from_fresh(
                    old(self).entries@,
                    old(self).ttl,
                    now,
                    key@,
                    #[trigger] r@[m],
                ) by {
                assert(r@[m].1@ == found[m].value@);
                lemma_lookup_membership(self.entries@, key@, m);
                assert(self.entries@.contains(found[m]));
                assert(found[m].key@ == key@);
                let p = choose|p: int|
                    0 <= p < self.entries@.len() && self.entries@[p] == #[trigger] found[m];
                lemma_prune_membership(old(self).entries@, old(self).ttl, now, p);
                let j = choose|j: int|
                    0 <= j < old(self).entries@.len() && old(self).entries@[j]
                        == #[trigger] self.entries@[p];
                assert(old(self).entries@[j] == found[m]);
                assert(old(self).entries@[j].key@ == key@);
                assert(fresh_at(old(self).entries@[j], old(self).ttl, now));
                assert(r@[m].1@ == old(self).entries@[j].value@);
                }
            }
        }
        r
    }
}

} // verus!
