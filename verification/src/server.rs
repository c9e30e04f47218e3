use vstd::prelude::*;

use crate::addr::Addr;
use crate::message::Cookie;
use crate::node::id_eq;

verus! {

/// The wire protocol a peer speaks.
#[derive(Clone, Copy, PartialEq, Eq, Structural, Debug)]
pub enum Protocol {
    Pinboard,
}

/// One outstanding request: who was asked, under which cookie, and the
/// token of the waiter to wake when the answer or the timeout arrives.
pub struct PendingEntry {
    pub addr: Addr,
    pub cookie: Cookie,
    pub waiter: u64,
}

/// Two outstanding requests never share a key.
pub open spec fn pending_distinct(s: Seq<PendingEntry>) -> bool {
    forall|i: int, j: int| #![trigger s[i], s[j]]
        0 <= i < j < s.len() ==> !(s[i].addr == s[j].addr && s[i].cookie@ == s[j].cookie@)
}

/// The requests still waiting for their response, keyed by the peer's
/// address and the request's cookie.
pub struct PendingRequests {
    pub entries: Vec<PendingEntry>,
}

impl PendingRequests {
    pub open spec fn wf(self) -> bool {
        pending_distinct(self.entries@)
    }

    /// No request outstanding.
    pub fn new() -> (r: PendingRequests)
        ensures
            r.wf(),
            r.entries@.len() == 0,
    {
        PendingRequests { entries: Vec::new() }
    }

    /// Registers a fresh request under its key; an older entry under the
    /// same key is dropped first, so each key names one waiter.
    pub fn insert(&mut self, addr: Addr, cookie: Cookie, waiter: u64)
        requires
            old(self).wf(),
        ensures
            final(self).wf(),
            final(self).entries@.len() > 0,
            final(self).entries@.last().addr == addr,
            final(self).entries@.last().cookie@ == cookie@,
            final(self).entries@.last().waiter == waiter,
            forall|i: int|
                0 <= i < final(self).entries@.len() - 1 ==> !((#[trigger] final(self).entries@[i]).addr == addr && final(self).entries@[i].cookie@ == cookie@) && (
                exists|j: int| 0 <= j < old(self).entries@.len() && final(self).entries@[i] == (
                #[trigger] old(self).entries@[j])),
            forall|j: int|
                0 <= j < old(self).entries@.len() && !((#[trigger] old(self).entries@[j]).addr
                    == addr && old(self).entries@[j].cookie@ == cookie@) ==> (exists|i: int|
                    0 <= i < final(self).entries@.len() && (#[trigger] final(self).entries@[i])
                        == old(self).entries@[j]),
    {
        let n = self.entries.len();
        let mut kept: Vec<PendingEntry> = Vec::new();
        let mut i: usize = 0;
        while i < n
            invariant
                n == old(self).entries@.len(),
                self.entries == old(self).entries,
                pending_distinct(old(self).entries@),
                0 <= i <= n,
                forall|a: int|
                    0 <= a < kept@.len() ==> !((#[trigger] kept@[a]).addr == addr && kept@[a].cookie@
                        == cookie@) && (exists|j: int|
                        0 <= j < i && kept@[a] == (#[trigger] old(self).entries@[j])),
                forall|a: int, b: int| #![trigger kept@[a], kept@[b]]
                    0 <= a < b < kept@.len() ==> !(kept@[a].addr == kept@[b].addr
                        && kept@[a].cookie@ == kept@[b].cookie@),
                forall|j: int|
                    0 <= j < i && !((#[trigger] old(self).entries@[j]).addr == addr
                        && old(self).entries@[j].cookie@ == cookie@) ==> (exists|a: int|
                        0 <= a < kept@.len() && (#[trigger] kept@[a]) == old(self).entries@[j]),
            decreases n - i,
        {
            let ghost pre_loop = kept@;
            let e = &self.entries[i];
            if !(e.addr == addr && id_eq(&e.cookie, &cookie)) {
                let copied = PendingEntry { addr: e.addr, cookie: e.cookie, waiter: e.waiter };
                let ghost pre = kept@;
                proof {
                    assert(copied == old(self).entries@[i as int]);
                }
                kept.push(copied);
                proof {
                    assert forall|a: int|
                        0 <= a < kept@.len() implies !((#[trigger] kept@[a]).addr == addr
                        && kept@[a].cookie@ == cookie@) && (exists|j: int|
                        0 <= j < i + 1 && kept@[a] == (#[trigger] old(self).entries@[j])) by {
                        if a < kept@.len() - 1 {
                            assert(kept@[a] == pre[a]);
                        } else {
                            assert(kept@[a] == old(self).entries@[i as int]);
                        }
                    }
                    assert forall|a: int, b: int| #![trigger kept@[a], kept@[b]]
                        0 <= a < b < kept@.len() implies !(kept@[a].addr == kept@[b].addr
                        && kept@[a].cookie@ == kept@[b].cookie@) by {
                        if b < kept@.len() - 1 {
                            assert(kept@[a] == pre[a] && kept@[b] == pre[b]);
                        } else {
                            assert(kept@[a] == pre[a]);
                            let ja = choose|j: int|
                                0 <= j < i && pre[a] == (#[trigger] old(self).entries@[j]);
                            assert(kept@[b] == old(self).entries@[i as int]);
                        }
                    }
                }
            }
            proof {
                assert forall|j: int|
                    0 <= j < i + 1 && !((#[trigger] old(self).entries@[j]).addr == addr
                        && old(self).entries@[j].cookie@ == cookie@) implies (exists|a: int|
                    0 <= a < kept@.len() && (#[trigger] kept@[a]) == old(self).entries@[j]) by {
                    if j == i {
                        assert(kept@[kept@.len() - 1] == old(self).entries@[i as int]);
                    } else {
                        let a = choose|a: int|
                            0 <= a < pre_loop.len() && (#[trigger] pre_loop[a]) == old(
                                self,
                            ).entries@[j];
                        assert(kept@[a] == pre_loop[a]);
                    }
                }
            }
            i += 1;
        }
        let ghost kept_pre = kept@;
        kept.push(PendingEntry { addr, cookie, waiter });
        self.entries = kept;
        proof {
            assert forall|a: int|
                0 <= a < self.entries@.len() - 1 implies !((#[trigger] self.entries@[a]).addr
                == addr && self.entries@[a].cookie@ == cookie@) && (exists|j: int|
                0 <= j < old(self).entries@.len() && self.entries@[a] == (#[trigger] old(self).entries@[j])) by {
                assert(self.entries@[a] == kept_pre[a]);
            }
            assert forall|a: int, b: int| #![trigger self.entries@[a], self.entries@[b]]
                0 <= a < b < self.entries@.len() implies !(self.entries@[a].addr
                == self.entries@[b].addr && self.entries@[a].cookie@
                == self.entries@[b].cookie@) by {
                if b < self.entries@.len() - 1 {
                    assert(self.entries@[a] == kept_pre[a] && self.entries@[b] == kept_pre[b]);
                } else {
                    assert(self.entries@[a] == kept_pre[a]);
                }
            }
            assert forall|j: int|
                0 <= j < old(self).entries@.len() && !((#[trigger] old(self).entries@[j]).addr
                    == addr && old(self).entries@[j].cookie@ == cookie@) implies (exists|i2: int|
                0 <= i2 < self.entries@.len() && (#[trigger] self.entries@[i2]) == old(
                    self,
                ).entries@[j]) by {
                let a = choose|a: int|
                    0 <= a < kept_pre.len() && (#[trigger] kept_pre[a]) == old(self).entries@[j];
                assert(self.entries@[a] == kept_pre[a]);
            }
        }
    }

    /// Hands a response (or a timeout) to its waiter: the matching entry, if
    /// any, leaves the table and its waiter token comes back. Frames whose
    /// key has no waiter return nothing and change nothing.
    pub fn take_waiter(&mut self, addr: Addr, cookie: &Cookie) -> (r: Option<u64>)
        requires
            old(self).wf(),
        ensures
            final(self).wf(),
            match r {
                Option::Some(w) => (exists|i: int|
                    0 <= i < old(self).entries@.len() && ((#[trigger] old(self).entries@[i]).addr
                        == addr && old(self).entries@[i].cookie@ == cookie@) && old(self).entries@[i].waiter == w && final(self).entries@ == old(self).entries@.remove(
                        i,
                    )),
                Option::None => final(self).entries@ == old(self).entries@ && (forall|i: int|
                    0 <= i < old(self).entries@.len() ==> !((#[trigger] old(self).entries@[i]).addr
                        == addr && old(self).entries@[i].cookie@ == cookie@)),
            },
    {
        let n = self.entries.len();
        let mut i: usize = 0;
        while i < n
            invariant
                n == self.entries@.len(),
                self.entries == old(self).entries,
                pending_distinct(old(self).entries@),
                0 <= i <= n,
                forall|j: int|
                    0 <= j < i ==> !((#[trigger] self.entries@[j]).addr == addr
                        && self.entries@[j].cookie@ == cookie@),
            decreases n - i,
        {
            let matches_key = self.entries[i].addr == addr && id_eq(&self.entries[i].cookie, cookie);
            if matches_key {
                let w = self.entries[i].waiter;
                let ghost pre = self.entries@;
                self.entries.remove(i);
                proof {
                    assert(self.entries@ == pre.remove(i as int));
                    assert forall|a: int, b: int| #![trigger self.entries@[a], self.entries@[b]]
                        0 <= a < b < self.entries@.len() implies !(self.entries@[a].addr
                        == self.entries@[b].addr && self.entries@[a].cookie@
                        == self.entries@[b].cookie@) by {
                        let a0: int = if a < i {
                            a
                        } else {
                            a + 1
                        };
                        let b0: int = if b < i {
                            b
                        } else {
                            b + 1
                        };
                        assert(self.entries@[a] == pre[a0] && self.entries@[b] == pre[b0]);
                    }
                }
                return Option::Some(w);
            }
            i += 1;
        }
        Option::None
    }
}

} // verus!
