use vstd::prelude::*;

use crate::addr::Addr;
use crate::distance::high_bit_pos;
use crate::distance::high_bit_index;
use crate::server::Protocol;

verus! {

pub const ID_LEN: usize = 160;

/// The log-distance between two identifiers: zero when they are equal,
/// otherwise one past the position of the highest set bit of their XOR.
pub open spec fn log_dist(a: Seq<u8>, b: Seq<u8>) -> int {
    if a == b {
        0
    } else {
        1 + high_bit_pos(crate::node::spec_xor(a, b))
    }
}

pub const ID_BYTELEN: usize = 20;

/// A 160-bit identifier with its bit operations.
#[derive(Eq, Hash, Clone, Copy, Debug)]
pub struct Id {
    pub val: [u8; ID_BYTELEN],
}

impl View for Id {
    type V = Seq<u8>;

    open spec fn view(&self) -> Seq<u8> {
        self.val@
    }
}

impl Id {
    pub fn new(val: [u8; ID_BYTELEN]) -> (r: Id)
        ensures
            r@ == val@,
    {
        Id { val }
    }

    /// The log-distance between two identifiers: zero when they are equal,
    /// otherwise one past the position of the highest set bit of their XOR.
    /// One less than this is the bucket the other identifier falls into.
    pub fn distance_to(&self, id: &Id) -> (r: usize)
        ensures
            r == log_dist(self@, id@),
            r <= ID_LEN,
            (r == 0 <==> self@ == id@),
    {
        let mut d: [u8; ID_BYTELEN] = [0u8; ID_BYTELEN];
        let mut i: usize = 0;
        while i < ID_BYTELEN
            invariant
                0 <= i <= ID_BYTELEN,
                forall|j: int| 0 <= j < i ==> d@[j] == (self@[j] ^ id@[j]),
            decreases ID_BYTELEN - i,
        {
            d[i] = self.val[i] ^ id.val[i];
            i += 1;
        }
        proof {
            assert(d@ =~= crate::node::spec_xor(self@, id@));
            crate::node::lemma_xor_zero_iff_eq(self@, id@);
        }
        match high_bit_index(d.as_slice()) {
            Option::None => 0,
            Option::Some(p) => 1 + p,
        }
    }

    /// Draws a fresh random identifier.
    pub fn generate() -> (r: Id)
        ensures
            r@.len() == ID_BYTELEN,
    {
        let mut val: [u8; ID_BYTELEN] = [0u8; ID_BYTELEN];
        let mut i: usize = 0;
        while i < ID_BYTELEN
            invariant
                0 <= i <= ID_BYTELEN,
            decreases ID_BYTELEN - i,
        {
            val[i] = rand::random::<u8>();
            i += 1;
        }
        Id { val }
    }

    /// Bitwise conjunction.
    pub fn bitand(&self, rhs: &Id) -> (r: Id)
        ensures
            r@.len() == ID_BYTELEN,
            forall|j: int| 0 <= j < ID_BYTELEN ==> r@[j] == (self@[j] & rhs@[j]),
    {
        let mut val: [u8; ID_BYTELEN] = [0u8; ID_BYTELEN];
        let mut i: usize = 0;
        while i < ID_BYTELEN
            invariant
                0 <= i <= ID_BYTELEN,
                forall|j: int| 0 <= j < i ==> val@[j] == (self@[j] & rhs@[j]),
            decreases ID_BYTELEN - i,
        {
            val[i] = self.val[i] & rhs.val[i];
            i += 1;
        }
        Id { val }
    }

    /// Bitwise exclusive-or: the XOR distance.
    pub fn bitxor(&self, rhs: &Id) -> (r: Id)
        ensures
            r@ == crate::node::spec_xor(self@, rhs@),
    {
        let mut val: [u8; ID_BYTELEN] = [0u8; ID_BYTELEN];
        let mut i: usize = 0;
        while i < ID_BYTELEN
            invariant
                0 <= i <= ID_BYTELEN,
                forall|j: int| 0 <= j < i ==> val@[j] == (self@[j] ^ rhs@[j]),
            decreases ID_BYTELEN - i,
        {
            val[i] = self.val[i] ^ rhs.val[i];
            i += 1;
        }
        proof {
            assert(val@ =~= crate::node::spec_xor(self@, rhs@));
        }
        Id { val }
    }
}

impl PartialEq for Id {
    fn eq(&self, other: &Id) -> (r: bool) {
        let r = crate::distance::bytes_eq(self.val.as_slice(), other.val.as_slice());
        r
    }
}

impl vstd::std_specs::cmp::PartialEqSpecImpl for Id {
    open spec fn obeys_eq_spec() -> bool {
        true
    }

    open spec fn eq_spec(&self, other: &Id) -> bool {
        self@ == other@
    }
}

/// A peer of the overlay: its identifier, where it listens, and which wire
/// protocol it speaks.
#[derive(Clone, Copy)]
pub struct Peer {
    pub id: Id,
    pub addr: Addr,
    pub protocol: Protocol,
}

impl Peer {
    pub fn new(id: Id, addr: Addr, protocol: Protocol) -> (r: Peer)
        ensures
            r.id@ == id@,
            r.addr == addr,
            r.protocol == protocol,
    {
        Peer { id, addr, protocol }
    }

    /// The same peer in every respect: identifier, address and protocol.
    pub fn strictly_same_as(&self, other: &Peer) -> (r: bool)
        ensures
            r == spec_strictly_same(*self, *other),
    {
        crate::distance::bytes_eq(self.id.val.as_slice(), other.id.val.as_slice()) && self.addr
            == other.addr && self.protocol == other.protocol
    }

    pub fn id(&self) -> (r: &Id)
        ensures
            r == &self.id,
    {
        &self.id
    }

    pub fn protocol(&self) -> (r: &Protocol)
        ensures
            r == &self.protocol,
    {
        &self.protocol
    }

    pub fn addr(&self) -> (r: &Addr)
        ensures
            r == &self.addr,
    {
        &self.addr
    }
}

/// Peers agree on identifier, address and protocol.
pub open spec fn spec_strictly_same(a: Peer, b: Peer) -> bool {
    a.id@ == b.id@ && a.addr == b.addr && a.protocol == b.protocol
}

} // verus!
