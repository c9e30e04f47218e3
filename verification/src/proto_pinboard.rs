use vstd::prelude::*;

use crate::addr::Addr;
use crate::addr::AddrV4;
use crate::addr::AddrV6;
use crate::message::Ping;
use crate::message::Pong;
use crate::message::FindNode;
use crate::message::FindValue;
use crate::message::FoundNode;
use crate::message::FoundValue;
use crate::message::Store;
use crate::kademlia::MAX_VALUE_LEN;
use crate::message::Message;
use crate::message::Value;
use crate::node::Node;
use crate::node::NodeId;
use crate::node::NODEID_BYTELEN;

verus! {

pub const PING: u8 = 0x01;

pub const PONG: u8 = 0x02;

pub const FIND_NODE: u8 = 0x03;

pub const FOUND_NODE: u8 = 0x04;

pub const FIND_VALUE: u8 = 0x05;

pub const FOUND_VALUE: u8 = 0x06;

pub const STORE: u8 = 0x07;

pub const IPV4: u8 = 0x04;

pub const IPV6: u8 = 0x06;

/// A 16-bit number, big-endian.
pub open spec fn be16(n: int) -> Seq<u8> {
    seq![(n / 256) as u8, (n % 256) as u8]
}

/// A 32-bit number, big-endian.
pub open spec fn be32(n: int) -> Seq<u8> {
    seq![
        (n / 0x1000000) as u8,
        ((n / 0x10000) % 256) as u8,
        ((n / 256) % 256) as u8,
        (n % 256) as u8,
    ]
}

/// A socket address on the wire: a family tag, the address, the port.
pub open spec fn addr_bytes(a: Addr) -> Seq<u8> {
    match a {
        Addr::V4(v) => seq![IPV4, v.o0, v.o1, v.o2, v.o3] + be16(v.port as int),
        Addr::V6(v) => seq![IPV6] + be16(v.s0 as int) + be16(v.s1 as int) + be16(v.s2 as int)
            + be16(v.s3 as int) + be16(v.s4 as int) + be16(v.s5 as int) + be16(v.s6 as int) + be16(
            v.s7 as int,
        ) + be16(v.port as int),
    }
}

/// What the encoder accepts: counts that fit their wire field, values within
/// the size cap, a zero last-seen stamp on a wire node (the receiver stamps
/// it on arrival), and never the synthetic `Timeout`.
pub open spec fn msg_wf(m: Message) -> bool {
    match m {
        Message::Ping(_) => true,
        Message::Pong(_) => true,
        Message::FindNode(_) => true,
        Message::FindValue(_) => true,
        Message::FoundNode(p) => p.node_count < 0x100000000 && p.node.last_seen == 0,
        Message::FoundValue(p) => p.value_count < 0x100000000 && p.value@.len() <= MAX_VALUE_LEN,
        Message::Store(p) => p.value@.len() <= MAX_VALUE_LEN,
        Message::Timeout => false,
    }
}

/// The bytes of a message: a tag, the sender, the cookie, then the
/// variant's own fields, every number big-endian.
pub open spec fn spec_encode(m: Message) -> Seq<u8> {
    match m {
        Message::Ping(p) => seq![PING] + p.sender_id@ + p.cookie@,
        Message::Pong(p) => seq![PONG] + p.sender_id@ + p.cookie@,
        Message::FindNode(p) => seq![FIND_NODE] + p.sender_id@ + p.cookie@ + p.key@,
        Message::FindValue(p) => seq![FIND_VALUE] + p.sender_id@ + p.cookie@ + p.key@,
        Message::FoundNode(p) => seq![FOUND_NODE] + p.sender_id@ + p.cookie@ + be32(
            p.node_count as int,
        ) + addr_bytes(p.node.addr) + p.node.node_id@,
        Message::FoundValue(p) => seq![FOUND_VALUE] + p.sender_id@ + p.cookie@ + be32(
            p.value_count as int,
        ) + be16(p.value@.len() as int) + p.value@,
        Message::Store(p) => seq![STORE] + p.sender_id@ + p.cookie@ + p.key@ + be16(
            p.value@.len() as int,
        ) + p.value@,
        Message::Timeout => Seq::empty(),
    }
}

fn push_id(out: &mut Vec<u8>, id: &NodeId)
    ensures
        final(out)@ == old(out)@ + id@,
{
    let mut i: usize = 0;
    while i < NODEID_BYTELEN
        invariant
            0 <= i <= NODEID_BYTELEN,
            out@ == old(out)@ + id@.take(i as int),
        decreases NODEID_BYTELEN - i,
    {
        out.push(id[i]);
        proof {
            assert(out@ =~= old(out)@ + id@.take(i + 1));
        }
        i += 1;
    }
    proof {
        assert(id@.take(NODEID_BYTELEN as int) =~= id@);
    }
}

fn push_be16(out: &mut Vec<u8>, n: u16)
    ensures
        final(out)@ == old(out)@ + be16(n as int),
{
    out.push((n / 256) as u8);
    out.push((n % 256) as u8);
    proof {
        assert(out@ =~= old(out)@ + be16(n as int));
    }
}

fn push_be32(out: &mut Vec<u8>, n: usize)
    requires
        n < 0x100000000,
    ensures
        final(out)@ == old(out)@ + be32(n as int),
{
    out.push((n / 0x1000000) as u8);
    out.push(((n / 0x10000) % 256) as u8);
    out.push(((n / 256) % 256) as u8);
    out.push((n % 256) as u8);
    proof {
        assert(out@ =~= old(out)@ + be32(n as int));
    }
}

fn push_addr(out: &mut Vec<u8>, a: &Addr)
    ensures
        final(out)@ == old(out)@ + addr_bytes(*a),
{
    match a {
        Addr::V4(v) => {
            out.push(IPV4);
            out.push(v.o0);
            out.push(v.o1);
            out.push(v.o2);
            out.push(v.o3);
            push_be16(out, v.port);
            proof {
                assert(out@ =~= old(out)@ + addr_bytes(*a));
            }
        },
        Addr::V6(v) => {
            out.push(IPV6);
            push_be16(out, v.s0);
            push_be16(out, v.s1);
            push_be16(out, v.s2);
            push_be16(out, v.s3);
            push_be16(out, v.s4);
            push_be16(out, v.s5);
            push_be16(out, v.s6);
            push_be16(out, v.s7);
            push_be16(out, v.port);
            proof {
                assert(out@ =~= old(out)@ + addr_bytes(*a));
            }
        },
    }
}

fn push_value(out: &mut Vec<u8>, v: &Value)
    requires
        v@.len() <= MAX_VALUE_LEN,
    ensures
        final(out)@ == old(out)@ + be16(v@.len() as int) + v@,
{
    let data = v.data();
    let n = data.len();
    push_be16(out, n as u16);
    let ghost mid = out@;
    let mut i: usize = 0;
    while i < n
        invariant
            n == data@.len(),
            data@ == v@,
            0 <= i <= n,
            out@ == mid + v@.take(i as int),
        decreases n - i,
    {
        out.push(data[i]);
        proof {
            assert(out@ =~= mid + v@.take(i + 1));
        }
        i += 1;
    }
    proof {
        assert(v@.take(n as int) =~= v@);
    }
}

/// How every well-formed message looks on the wire: its length, its tag
/// byte, and the fields that decide the variable-length tail.
pub proof fn lemma_encode_shape(m: Message)
    requires
        msg_wf(m),
    ensures
        spec_encode(m).len() >= 41,
        spec_encode(m)[0] == match m {
            Message::Ping(_) => PING,
            Message::Pong(_) => PONG,
            Message::FindNode(_) => FIND_NODE,
            Message::FoundNode(_) => FOUND_NODE,
            Message::FindValue(_) => FIND_VALUE,
            Message::FoundValue(_) => FOUND_VALUE,
            Message::Store(_) => STORE,
            Message::Timeout => 0,
        },
        match m {
            Message::Ping(_) => spec_encode(m).len() == 41,
            Message::Pong(_) => spec_encode(m).len() == 41,
            Message::FindNode(_) => spec_encode(m).len() == 61,
            Message::FindValue(_) => spec_encode(m).len() == 61,
            Message::FoundNode(p) => match p.node.addr {
                Addr::V4(_) => spec_encode(m).len() == 72 && spec_encode(m)[45] == IPV4,
                Addr::V6(_) => spec_encode(m).len() == 84 && spec_encode(m)[45] == IPV6,
            },
            Message::FoundValue(p) => spec_encode(m).len() == 47 + p.value@.len()
                && spec_encode(m)[45] == ((p.value@.len() as int) / 256) as u8 && spec_encode(
                m,
            )[46] == ((p.value@.len() as int) % 256) as u8,
            Message::Store(p) => spec_encode(m).len() == 63 + p.value@.len() && spec_encode(
                m,
            )[61] == ((p.value@.len() as int) / 256) as u8 && spec_encode(m)[62] == ((
            p.value@.len() as int) % 256) as u8,
            Message::Timeout => true,
        },
{
    match m {
        Message::FoundNode(p) => {
            match p.node.addr {
                Addr::V4(_) => {
                    assert(addr_bytes(p.node.addr).len() == 7);
                },
                Addr::V6(_) => {
                    assert(addr_bytes(p.node.addr).len() == 19);
                },
            }
        },
        _ => {},
    }
}

/// Reads a 160-bit identifier.
fn read_id(buf: &[u8], off: usize) -> (id: NodeId)
    requires
        off + NODEID_BYTELEN <= buf@.len(),
    ensures
        id@ == buf@.subrange(off as int, off + NODEID_BYTELEN),
{
    let blen = buf.len();
    let mut id: NodeId = [0u8; NODEID_BYTELEN];
    let mut i: usize = 0;
    while i < NODEID_BYTELEN
        invariant
            blen == buf@.len(),
            off + NODEID_BYTELEN <= buf@.len(),
            0 <= i <= NODEID_BYTELEN,
            id@.len() == NODEID_BYTELEN,
            forall|j: int| 0 <= j < i ==> id@[j] == buf@[off + j],
        decreases NODEID_BYTELEN - i,
    {
        id[i] = buf[off + i];
        i += 1;
    }
    proof {
        assert(id@ =~= buf@.subrange(off as int, off + NODEID_BYTELEN));
    }
    id
}

/// Reads a big-endian 16-bit number.
fn read_be16(buf: &[u8], off: usize) -> (n: u16)
    requires
        off + 2 <= buf@.len(),
    ensures
        n as int == (buf@[off as int] as int) * 256 + (buf@[off + 1] as int),
        be16(n as int) == buf@.subrange(off as int, off + 2),
{
    let n = (buf[off] as u16) * 256 + (buf[off + 1] as u16);
    proof {
        assert(be16(n as int) =~= buf@.subrange(off as int, off + 2));
    }
    n
}

/// Reads a big-endian 32-bit number.
fn read_be32(buf: &[u8], off: usize) -> (n: usize)
    requires
        off + 4 <= buf@.len(),
    ensures
        n < 0x100000000,
        be32(n as int) == buf@.subrange(off as int, off + 4),
{
    let n = (buf[off] as usize) * 0x1000000 + (buf[off + 1] as usize) * 0x10000 + (buf[off
        + 2] as usize) * 256 + (buf[off + 3] as usize);
    proof {
        let b0 = buf@[off as int] as int;
        let b1 = buf@[off + 1] as int;
        let b2 = buf@[off + 2] as int;
        let b3 = buf@[off + 3] as int;
        let nn = n as int;
        assert(nn == b0 * 0x1000000 + b1 * 0x10000 + b2 * 256 + b3);
        assert(nn / 0x1000000 == b0) by (nonlinear_arith)
            requires
                nn == b0 * 0x1000000 + b1 * 0x10000 + b2 * 256 + b3,
                0 <= b0 < 256,
                0 <= b1 < 256,
                0 <= b2 < 256,
                0 <= b3 < 256,
        ;
        assert((nn / 0x10000) % 256 == b1) by (nonlinear_arith)
            requires
                nn == b0 * 0x1000000 + b1 * 0x10000 + b2 * 256 + b3,
                0 <= b0 < 256,
                0 <= b1 < 256,
                0 <= b2 < 256,
                0 <= b3 < 256,
        ;
        assert((nn / 256) % 256 == b2) by (nonlinear_arith)
            requires
                nn == b0 * 0x1000000 + b1 * 0x10000 + b2 * 256 + b3,
                0 <= b0 < 256,
                0 <= b1 < 256,
                0 <= b2 < 256,
                0 <= b3 < 256,
        ;
        assert(nn % 256 == b3) by (nonlinear_arith)
            requires
                nn == b0 * 0x1000000 + b1 * 0x10000 + b2 * 256 + b3,
                0 <= b0 < 256,
                0 <= b1 < 256,
                0 <= b2 < 256,
                0 <= b3 < 256,
        ;
        assert(be32(n as int) =~= buf@.subrange(off as int, off + 4));
    }
    n
}

/// Copies a run of bytes.
fn read_vec(buf: &[u8], off: usize, n: usize) -> (r: Vec<u8>)
    requires
        off + n <= buf@.len(),
    ensures
        r@ == buf@.subrange(off as int, off + n),
{
    let blen = buf.len();
    let mut r: Vec<u8> = Vec::new();
    let mut i: usize = 0;
    while i < n
        invariant
            blen == buf@.len(),
            off + n <= buf@.len(),
            0 <= i <= n,
            r@.len() == i,
            forall|j: int| 0 <= j < i ==> r@[j] == buf@[off + j],
        decreases n - i,
    {
        r.push(buf[off + i]);
        i += 1;
    }
    proof {
        assert(r@ =~= buf@.subrange(off as int, off + n));
    }
    r
}

/// The codec of the wire protocol: it turns messages into datagrams and
/// datagrams back into messages.
pub struct Pinboard;

impl Pinboard {
    /// Whether a message may go on the wire, decided at run time so a
    /// caller outside the library can test it before encoding.
    pub fn is_wire_ready(msg: &Message) -> (r: bool)
        ensures
            r == msg_wf(*msg),
    {
        match msg {
            Message::Ping(_) => true,
            Message::Pong(_) => true,
            Message::FindNode(_) => true,
            Message::FindValue(_) => true,
            Message::FoundNode(p) => (p.node_count as u64) < 0x100000000u64 && p.node.last_seen
                == 0,
            Message::FoundValue(p) => (p.value_count as u64) < 0x100000000u64 && p.value.data().len()
                <= MAX_VALUE_LEN,
            Message::Store(p) => p.value.data().len() <= MAX_VALUE_LEN,
            Message::Timeout => false,
        }
    }

    /// The bytes of a well-formed message.
    pub fn encode(msg: &Message) -> (r: Vec<u8>)
        requires
            msg_wf(*msg),
        ensures
            r@ == spec_encode(*msg),
    {
        let mut out: Vec<u8> = Vec::new();
        match msg {
            Message::Ping(p) => {
                out.push(PING);
                push_id(&mut out, &p.sender_id);
                push_id(&mut out, &p.cookie);
            },
            Message::Pong(p) => {
                out.push(PONG);
                push_id(&mut out, &p.sender_id);
                push_id(&mut out, &p.cookie);
            },
            Message::FindNode(p) => {
                out.push(FIND_NODE);
                push_id(&mut out, &p.sender_id);
                push_id(&mut out, &p.cookie);
                push_id(&mut out, &p.key);
            },
            Message::FindValue(p) => {
                out.push(FIND_VALUE);
                push_id(&mut out, &p.sender_id);
                push_id(&mut out, &p.cookie);
                push_id(&mut out, &p.key);
            },
            Message::FoundNode(p) => {
                out.push(FOUND_NODE);
                push_id(&mut out, &p.sender_id);
                push_id(&mut out, &p.cookie);
                push_be32(&mut out, p.node_count);
                push_addr(&mut out, &p.node.addr);
                push_id(&mut out, &p.node.node_id);
            },
            Message::FoundValue(p) => {
                out.push(FOUND_VALUE);
                push_id(&mut out, &p.sender_id);
                push_id(&mut out, &p.cookie);
                push_be32(&mut out, p.value_count);
                push_value(&mut out, &p.value);
            },
            Message::Store(p) => {
                out.push(STORE);
                push_id(&mut out, &p.sender_id);
                push_id(&mut out, &p.cookie);
                push_id(&mut out, &p.key);
                push_value(&mut out, &p.value);
            },
            Message::Timeout => {
                proof {
                    assert(false);
                }
            },
        }
        proof {
            assert(out@ =~= spec_encode(*msg));
        }
        out
    }

    /// Reads one datagram back into a message. A frame is accepted exactly
    /// when it is the encoding of a well-formed message, and the accepted
    /// message re-encodes to exactly the same bytes: undecodable frames are
    /// refused, never guessed at.
    pub fn decode(buf: &[u8]) -> (r: Option<Message>)
        ensures
            match r {
                Option::Some(m) => msg_wf(m) && spec_encode(m) == buf@,
                Option::None => forall|m: Message| msg_wf(m) ==> spec_encode(m) != buf@,
            },
    {
        let len = buf.len();
        if len < 41 {
            proof {
                assert forall|m: Message| msg_wf(m) implies spec_encode(m) != buf@ by {
                    lemma_encode_shape(m);
                }
            }
            return Option::None;
        }
        let tag = buf[0];
        let sender_id = read_id(buf, 1);
        let cookie = read_id(buf, 21);
        proof {
            assert(buf@[0] == tag);
        }
        if tag == PING {
            if len != 41 {
                proof {
                    assert forall|m: Message| msg_wf(m) implies spec_encode(m) != buf@ by {
                        lemma_encode_shape(m);
                        if spec_encode(m) == buf@ {
                            assert(spec_encode(m)[0] == tag);
                        }
                    }
                }
                return Option::None;
            }
            let m = Message::Ping(Ping { sender_id, cookie });
            proof {
                assert(spec_encode(m) =~= buf@);
            }
            return Option::Some(m);
        }
        if tag == PONG {
            if len != 41 {
                proof {
                    assert forall|m: Message| msg_wf(m) implies spec_encode(m) != buf@ by {
                        lemma_encode_shape(m);
                        if spec_encode(m) == buf@ {
                            assert(spec_encode(m)[0] == tag);
                        }
                    }
                }
                return Option::None;
            }
            let m = Message::Pong(Pong { sender_id, cookie });
            proof {
                assert(spec_encode(m) =~= buf@);
            }
            return Option::Some(m);
        }
        if tag == FIND_NODE || tag == FIND_VALUE {
            if len != 61 {
                proof {
                    assert forall|m: Message| msg_wf(m) implies spec_encode(m) != buf@ by {
                        lemma_encode_shape(m);
                        if spec_encode(m) == buf@ {
                            assert(spec_encode(m)[0] == tag);
                        }
                    }
                }
                return Option::None;
            }
            let key = read_id(buf, 41);
            let m = if tag == FIND_NODE {
                Message::FindNode(FindNode { sender_id, cookie, key })
            } else {
                Message::FindValue(FindValue { sender_id, cookie, key })
            };
            proof {
                assert(spec_encode(m) =~= buf@);
            }
            return Option::Some(m);
        }
        if tag == FOUND_NODE {
            if len < 46 {
                proof {
                    assert forall|m: Message| msg_wf(m) implies spec_encode(m) != buf@ by {
                        lemma_encode_shape(m);
                        if spec_encode(m) == buf@ {
                            assert(spec_encode(m)[0] == tag);
                        }
                    }
                }
                return Option::None;
            }
            let node_count = read_be32(buf, 41);
            let atag = buf[45];
            proof {
                assert(buf@[45] == atag);
            }
            if atag == IPV4 {
                if len != 72 {
                    proof {
                        assert forall|m: Message| msg_wf(m) implies spec_encode(m) != buf@ by {
                            lemma_encode_shape(m);
                            if spec_encode(m) == buf@ {
                                assert(spec_encode(m)[0] == tag);
                                assert(spec_encode(m)[45] == atag);
                            }
                        }
                    }
                    return Option::None;
                }
                let port = read_be16(buf, 50);
                let addr = Addr::V4(
                    AddrV4 { o0: buf[46], o1: buf[47], o2: buf[48], o3: buf[49], port },
                );
                let node_id = read_id(buf, 52);
                let node = Node { addr, node_id, last_seen: 0 };
                let m = Message::FoundNode(FoundNode { sender_id, cookie, node_count, node });
                proof {
                    assert(addr_bytes(addr) =~= buf@.subrange(45, 52));
                    assert(spec_encode(m) =~= buf@);
                }
                return Option::Some(m);
            }
            if atag == IPV6 {
                if len != 84 {
                    proof {
                        assert forall|m: Message| msg_wf(m) implies spec_encode(m) != buf@ by {
                            lemma_encode_shape(m);
                            if spec_encode(m) == buf@ {
                                assert(spec_encode(m)[0] == tag);
                                assert(spec_encode(m)[45] == atag);
                            }
                        }
                    }
                    return Option::None;
                }
                let s0 = read_be16(buf, 46);
                let s1 = read_be16(buf, 48);
                let s2 = read_be16(buf, 50);
                let s3 = read_be16(buf, 52);
                let s4 = read_be16(buf, 54);
                let s5 = read_be16(buf, 56);
                let s6 = read_be16(buf, 58);
                let s7 = read_be16(buf, 60);
                let port = read_be16(buf, 62);
                let addr = Addr::V6(AddrV6 { s0, s1, s2, s3, s4, s5, s6, s7, port });
                let node_id = read_id(buf, 64);
                let node = Node { addr, node_id, last_seen: 0 };
                let m = Message::FoundNode(FoundNode { sender_id, cookie, node_count, node });
                proof {
                    assert(addr_bytes(addr) =~= buf@.subrange(45, 64));
                    assert(spec_encode(m) =~= buf@);
                }
                return Option::Some(m);
            }
            proof {
                assert forall|m: Message| msg_wf(m) implies spec_encode(m) != buf@ by {
                    lemma_encode_shape(m);
                    if spec_encode(m) == buf@ {
                        assert(spec_encode(m)[0] == tag);
                        assert(spec_encode(m)[45] == atag);
                    }
                }
            }
            return Option::None;
        }
        if tag == FOUND_VALUE {
            if len < 47 {
                proof {
                    assert forall|m: Message| msg_wf(m) implies spec_encode(m) != buf@ by {
                        lemma_encode_shape(m);
                        if spec_encode(m) == buf@ {
                            assert(spec_encode(m)[0] == tag);
                        }
                    }
                }
                return Option::None;
            }
            let value_count = read_be32(buf, 41);
            let vlen = read_be16(buf, 45) as usize;
            if vlen > MAX_VALUE_LEN || len != 47 + vlen {
                proof {
                    assert forall|m: Message| msg_wf(m) implies spec_encode(m) != buf@ by {
                        lemma_encode_shape(m);
                        if spec_encode(m) == buf@ {
                            assert(spec_encode(m)[0] == tag);
                            if let Message::FoundValue(p) = m {
                                let pl = p.value@.len() as int;
                                assert(spec_encode(m)[45] == (pl / 256) as u8);
                                assert(spec_encode(m)[46] == (pl % 256) as u8);
                                assert(pl == vlen);
                            }
                        }
                    }
                }
                return Option::None;
            }
            let data = read_vec(buf, 47, vlen);
            let m = Message::FoundValue(
                FoundValue { sender_id, cookie, value_count, value: Value::new(data) },
            );
            proof {
                assert(spec_encode(m) =~= buf@);
            }
            return Option::Some(m);
        }
        if tag == STORE {
            if len < 63 {
                proof {
                    assert forall|m: Message| msg_wf(m) implies spec_encode(m) != buf@ by {
                        lemma_encode_shape(m);
                        if spec_encode(m) == buf@ {
                            assert(spec_encode(m)[0] == tag);
                        }
                    }
                }
                return Option::None;
            }
            let key = read_id(buf, 41);
            let vlen = read_be16(buf, 61) as usize;
            if vlen > MAX_VALUE_LEN || len != 63 + vlen {
                proof {
                    assert forall|m: Message| msg_wf(m) implies spec_encode(m) != buf@ by {
                        lemma_encode_shape(m);
                        if spec_encode(m) == buf@ {
                            assert(spec_encode(m)[0] == tag);
                            if let Message::Store(p) = m {
                                let pl = p.value@.len() as int;
                                assert(spec_encode(m)[61] == (pl / 256) as u8);
                                assert(spec_encode(m)[62] == (pl % 256) as u8);
                                assert(pl == vlen);
                            }
                        }
                    }
                }
                return Option::None;
            }
            let data = read_vec(buf, 63, vlen);
            let m = Message::Store(Store { sender_id, cookie, key, value: Value::new(data) });
            proof {
                assert(spec_encode(m) =~= buf@);
            }
            return Option::Some(m);
        }
        proof {
            assert forall|m: Message| msg_wf(m) implies spec_encode(m) != buf@ by {
                lemma_encode_shape(m);
                if spec_encode(m) == buf@ {
                    assert(spec_encode(m)[0] == tag);
                }
            }
        }
        Option::None
    }
}

} // verus!
