use vstd::prelude::*;

verus! {

// 160-bit identifiers are compared as big-endian unsigned integers. On
// equal-length byte strings that order is exactly the lexicographic one,
// which is what these specs and the executable comparisons below state.

/// Strict big-endian order on equal-length byte strings.
pub open spec fn lex_lt(a: Seq<u8>, b: Seq<u8>) -> bool
    decreases a.len(),
{
    if a.len() == 0 || b.len() == 0 {
        false
    } else if a[0] != b[0] {
        a[0] < b[0]
    } else {
        lex_lt(a.skip(1), b.skip(1))
    }
}

/// Non-strict big-endian order.
pub open spec fn lex_le(a: Seq<u8>, b: Seq<u8>) -> bool {
    lex_lt(a, b) || a =~= b
}

/// All bytes zero: the XOR distance of an identifier to itself.
pub open spec fn is_zero_bytes(d: Seq<u8>) -> bool {
    forall|i: int| 0 <= i < d.len() ==> d[i] == 0
}

/// Position of the highest set bit inside one byte (0 for a zero byte).
pub open spec fn byte_high_bit(x: u8) -> int {
    if x >= 128 { 7 }
    else if x >= 64 { 6 }
    else if x >= 32 { 5 }
    else if x >= 16 { 4 }
    else if x >= 8 { 3 }
    else if x >= 4 { 2 }
    else if x >= 2 { 1 }
    else { 0 }
}

/// Position of the highest set bit of a big-endian byte string, counting
/// from the least significant end; meaningful only when some byte is set.
pub open spec fn high_bit_pos(d: Seq<u8>) -> int
    decreases d.len(),
{
    if d.len() == 0 {
        0
    } else if d[0] != 0 {
        8 * (d.len() - 1) + byte_high_bit(d[0])
    } else {
        high_bit_pos(d.skip(1))
    }
}

/// A byte string with a set bit has its highest set bit inside range.
pub proof fn lemma_high_bit_pos_bound(d: Seq<u8>)
    requires
        !is_zero_bytes(d),
        d.len() > 0,
    ensures
        0 <= high_bit_pos(d) < 8 * d.len(),
    decreases d.len(),
{
    if d[0] != 0 {
    } else {
        let i = choose|i: int| 0 <= i < d.len() && d[i] != 0;
        assert(i > 0);
        assert(d.skip(1)[i - 1] != 0);
        assert(!is_zero_bytes(d.skip(1)));
        lemma_high_bit_pos_bound(d.skip(1));
    }
}

pub proof fn lemma_lex_lt_irrefl(a: Seq<u8>)
    ensures
        !lex_lt(a, a),
    decreases a.len(),
{
    if a.len() > 0 {
        lemma_lex_lt_irrefl(a.skip(1));
    }
}

/// Two equal-length byte strings are ordered one way, the other way, or equal.
pub proof fn lemma_lex_trichotomy(a: Seq<u8>, b: Seq<u8>)
    requires
        a.len() == b.len(),
    ensures
        lex_lt(a, b) || lex_lt(b, a) || a =~= b,
    decreases a.len(),
{
    if a.len() == 0 {
        assert(a =~= b);
    } else if a[0] == b[0] {
        lemma_lex_trichotomy(a.skip(1), b.skip(1));
        if a.skip(1) =~= b.skip(1) {
            assert forall|i: int| 0 <= i < a.len() implies a[i] == b[i] by {
                if i > 0 {
                    assert(a[i] == a.skip(1)[i - 1]);
                    assert(b[i] == b.skip(1)[i - 1]);
                }
            }
            assert(a =~= b);
        }
    }
}

pub proof fn lemma_lex_asym(a: Seq<u8>, b: Seq<u8>)
    requires
        lex_lt(a, b),
    ensures
        !lex_lt(b, a),
    decreases a.len(),
{
    if a.len() > 0 && b.len() > 0 && a[0] == b[0] {
        lemma_lex_asym(a.skip(1), b.skip(1));
    }
}

pub proof fn lemma_lex_lt_trans(a: Seq<u8>, b: Seq<u8>, c: Seq<u8>)
    requires
        a.len() == b.len(),
        b.len() == c.len(),
        lex_lt(a, b),
        lex_lt(b, c),
    ensures
        lex_lt(a, c),
    decreases a.len(),
{
    if a.len() > 0 {
        if a[0] == b[0] && b[0] == c[0] {
            lemma_lex_lt_trans(a.skip(1), b.skip(1), c.skip(1));
        }
    }
}

pub proof fn lemma_lex_le_trans(a: Seq<u8>, b: Seq<u8>, c: Seq<u8>)
    requires
        a.len() == b.len(),
        b.len() == c.len(),
        lex_le(a, b),
        lex_le(b, c),
    ensures
        lex_le(a, c),
{
    if a =~= b || b =~= c {
    } else {
        lemma_lex_lt_trans(a, b, c);
    }
}

/// Non-strict order is the negation of the strict order the other way round.
pub proof fn lemma_lex_le_iff_not_gt(a: Seq<u8>, b: Seq<u8>)
    requires
        a.len() == b.len(),
    ensures
        lex_le(a, b) == !lex_lt(b, a),
{
    lemma_lex_trichotomy(a, b);
    if lex_lt(a, b) {
        lemma_lex_asym(a, b);
    }
    if a =~= b {
        lemma_lex_lt_irrefl(a);
    }
}

/// While two strings agree on a prefix, their order is decided by the rest.
pub proof fn lemma_lex_lt_skip(a: Seq<u8>, b: Seq<u8>, i: int)
    requires
        a.len() == b.len(),
        0 <= i <= a.len(),
        forall|j: int| 0 <= j < i ==> a[j] == b[j],
    ensures
        lex_lt(a, b) == lex_lt(a.skip(i), b.skip(i)),
    decreases i,
{
    if i == 0 {
        assert(a.skip(0) =~= a);
        assert(b.skip(0) =~= b);
    } else {
        assert(a[0] == b[0]);
        lemma_lex_lt_skip(a.skip(1), b.skip(1), i - 1);
        assert(a.skip(1).skip(i - 1) =~= a.skip(i));
        assert(b.skip(1).skip(i - 1) =~= b.skip(i));
    }
}

/// Leading zero bytes do not move the highest set bit.
pub proof fn lemma_high_bit_skip(d: Seq<u8>, i: int)
    requires
        0 <= i <= d.len(),
        forall|j: int| 0 <= j < i ==> d[j] == 0,
    ensures
        high_bit_pos(d) == high_bit_pos(d.skip(i)),
    decreases i,
{
    if i == 0 {
        assert(d.skip(0) =~= d);
    } else {
        assert(d[0] == 0);
        lemma_high_bit_skip(d.skip(1), i - 1);
        assert(d.skip(1).skip(i - 1) =~= d.skip(i));
    }
}

/// Strict big-endian comparison of two equal-length byte strings.
pub fn bytes_lt(a: &[u8], b: &[u8]) -> (r: bool)
    requires
        a@.len() == b@.len(),
    ensures
        r == lex_lt(a@, b@),
{
    let n = a.len();
    let mut i: usize = 0;
    while i < n
        invariant
            n == a@.len(),
            a@.len() == b@.len(),
            0 <= i <= n,
            forall|j: int| 0 <= j < i ==> a@[j] == b@[j],
        decreases n - i,
    {
        if a[i] != b[i] {
            proof {
                lemma_lex_lt_skip(a@, b@, i as int);
                assert(a@.skip(i as int)[0] == a@[i as int]);
                assert(b@.skip(i as int)[0] == b@[i as int]);
            }
            return a[i] < b[i];
        }
        i += 1;
    }
    proof {
        lemma_lex_lt_skip(a@, b@, n as int);
    }
    false
}

/// Byte-string equality.
pub fn bytes_eq(a: &[u8], b: &[u8]) -> (r: bool)
    ensures
        r <==> a@ == b@,
{
    let n = a.len();
    if n != b.len() {
        proof {
            assert(a@.len() != b@.len());
        }
        return false;
    }
    let mut i: usize = 0;
    while i < n
        invariant
            n == a@.len(),
            a@.len() == b@.len(),
            0 <= i <= n,
            forall|j: int| 0 <= j < i ==> a@[j] == b@[j],
        decreases n - i,
    {
        if a[i] != b[i] {
            return false;
        }
        i += 1;
    }
    proof {
        assert(a@ =~= b@);
    }
    true
}

/// Non-strict big-endian comparison.
pub fn bytes_le(a: &[u8], b: &[u8]) -> (r: bool)
    requires
        a@.len() == b@.len(),
    ensures
        r == lex_le(a@, b@),
{
    let r = !bytes_lt(b, a);
    proof {
        lemma_lex_le_iff_not_gt(a@, b@);
    }
    r
}

/// Position of the highest set bit inside one byte.
pub fn high_bit_of_byte(x: u8) -> (r: usize)
    ensures
        r == byte_high_bit(x),
        r < 8,
{
    if x >= 128 { 7 }
    else if x >= 64 { 6 }
    else if x >= 32 { 5 }
    else if x >= 16 { 4 }
    else if x >= 8 { 3 }
    else if x >= 4 { 2 }
    else if x >= 2 { 1 }
    else { 0 }
}

/// Finds the position of the highest set bit of a big-endian byte string,
/// or `None` when every byte is zero.
pub fn high_bit_index(d: &[u8]) -> (r: Option<usize>)
    requires
        d@.len() <= 0x1000,
    ensures
        match r {
            Option::None => is_zero_bytes(d@),
            Option::Some(p) => !is_zero_bytes(d@) && p == high_bit_pos(d@) && p < 8 * d@.len(),
        },
{
    let n = d.len();
    let mut i: usize = 0;
    while i < n
        invariant
            n == d@.len(),
            n <= 0x1000,
            0 <= i <= n,
            forall|j: int| 0 <= j < i ==> d@[j] == 0,
        decreases n - i,
    {
        if d[i] != 0 {
            let hb = high_bit_of_byte(d[i]);
            proof {
                lemma_high_bit_skip(d@, i as int);
                assert(d@.skip(i as int)[0] == d@[i as int]);
                assert(d@.skip(i as int).len() == n - i);
            }
            return Option::Some(8 * (n - 1 - i) + hb);
        }
        i += 1;
    }
    Option::None
}

} // verus!
