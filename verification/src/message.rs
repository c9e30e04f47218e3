use vstd::prelude::*;

use crate::node::Node;
use crate::node::NodeId;

verus! {

pub const COOKIE_BYTELEN: usize = 20;

/// A fresh random token that ties a response to its request.
pub type Cookie = [u8; COOKIE_BYTELEN];

/// An opaque stored value, length-prefixed on the wire.
pub struct Value {
    data: Vec<u8>,
}

impl View for Value {
    type V = Seq<u8>;

    closed spec fn view(&self) -> Seq<u8> {
        self.data@
    }
}

impl Value {
    pub fn new(data: Vec<u8>) -> (r: Value)
        ensures
            r@ == data@,
    {
        Value { data }
    }

    /// The raw bytes.
    pub fn data(&self) -> (r: &Vec<u8>)
        ensures
            r@ == self@,
    {
        &self.data
    }
}

pub struct Ping {
    pub sender_id: NodeId,
    pub cookie: Cookie,
}

pub struct Pong {
    pub sender_id: NodeId,
    pub cookie: Cookie,
}

pub struct FindNode {
    pub sender_id: NodeId,
    pub cookie: Cookie,
    pub key: NodeId,
}

pub struct FindValue {
    pub sender_id: NodeId,
    pub cookie: Cookie,
    pub key: NodeId,
}

pub struct FoundNode {
    pub sender_id: NodeId,
    pub cookie: Cookie,
    pub node_count: usize,
    pub node: Node,
}

pub struct FoundValue {
    pub sender_id: NodeId,
    pub cookie: Cookie,
    pub value_count: usize,
    pub value: Value,
}

pub struct Store {
    pub sender_id: NodeId,
    pub cookie: Cookie,
    pub key: NodeId,
    pub value: Value,
}

/// Every message of the wire protocol; `Timeout` is synthetic and internal,
/// it never crosses the wire.
pub enum Message {
    Ping(Ping),
    Pong(Pong),
    FindNode(FindNode),
    FoundNode(FoundNode),
    FindValue(FindValue),
    FoundValue(FoundValue),
    Store(Store),
    Timeout,
}

/// The claimed sender of a message, if it carries one.
pub open spec fn spec_sender_id(m: Message) -> Option<NodeId> {
    match m {
        Message::Ping(p) => Option::Some(p.sender_id),
        Message::Pong(p) => Option::Some(p.sender_id),
        Message::FindNode(p) => Option::Some(p.sender_id),
        Message::FoundNode(p) => Option::Some(p.sender_id),
        Message::FindValue(p) => Option::Some(p.sender_id),
        Message::FoundValue(p) => Option::Some(p.sender_id),
        Message::Store(p) => Option::Some(p.sender_id),
        Message::Timeout => Option::None,
    }
}

impl Message {
    /// The cookie of the message, if it carries one.
    pub fn cookie(&self) -> (r: Option<&Cookie>)
        ensures
            match *self {
                Message::Ping(ref m) => r == Option::Some(&m.cookie),
                Message::Pong(ref m) => r == Option::Some(&m.cookie),
                Message::FindNode(ref m) => r == Option::Some(&m.cookie),
                Message::FoundNode(ref m) => r == Option::Some(&m.cookie),
                Message::FindValue(ref m) => r == Option::Some(&m.cookie),
                Message::FoundValue(ref m) => r == Option::Some(&m.cookie),
                Message::Store(ref m) => r == Option::Some(&m.cookie),
                Message::Timeout => r is None,
            },
    {
        match self {
            Message::Ping(r) => Option::Some(&r.cookie),
            Message::Pong(r) => Option::Some(&r.cookie),
            Message::FindNode(r) => Option::Some(&r.cookie),
            Message::FoundNode(r) => Option::Some(&r.cookie),
            Message::FindValue(r) => Option::Some(&r.cookie),
            Message::FoundValue(r) => Option::Some(&r.cookie),
            Message::Store(r) => Option::Some(&r.cookie),
            Message::Timeout => Option::None,
        }
    }

    /// The claimed sender of the message, if it carries one.
    pub fn sender_id(&self) -> (r: Option<NodeId>)
        ensures
            r == spec_sender_id(*self),
    {
        match self {
            Message::Ping(r) => Option::Some(r.sender_id),
            Message::Pong(r) => Option::Some(r.sender_id),
            Message::FindNode(r) => Option::Some(r.sender_id),
            Message::FoundNode(r) => Option::Some(r.sender_id),
            Message::FindValue(r) => Option::Some(r.sender_id),
            Message::FoundValue(r) => Option::Some(r.sender_id),
            Message::Store(r) => Option::Some(r.sender_id),
            Message::Timeout => Option::None,
        }
    }
}

/// One hexadecimal digit.
pub open spec fn hex_char(x: u8) -> char {
    if x == 0 { '0' }
    else if x == 1 { '1' }
    else if x == 2 { '2' }
    else if x == 3 { '3' }
    else if x == 4 { '4' }
    else if x == 5 { '5' }
    else if x == 6 { '6' }
    else if x == 7 { '7' }
    else if x == 8 { '8' }
    else if x == 9 { '9' }
    else if x == 10 { 'a' }
    else if x == 11 { 'b' }
    else if x == 12 { 'c' }
    else if x == 13 { 'd' }
    else if x == 14 { 'e' }
    else { 'f' }
}

/// Two hexadecimal digits for one byte.
pub open spec fn hex_pair(x: u8) -> Seq<char> {
    seq![hex_char(x / 16), hex_char(x % 16)]
}

/// The short form of an identifier: its first three bytes in hex, then dots.
pub open spec fn enc_prefix(bytes: Seq<u8>) -> Seq<char> {
    hex_pair(bytes[0]) + hex_pair(bytes[1]) + hex_pair(bytes[2]) + seq!['.', '.', '.']
}

fn hex_char_of(x: u8) -> (c: char)
    requires
        x < 16,
    ensures
        c == hex_char(x),
{
    if x == 0 { '0' }
    else if x == 1 { '1' }
    else if x == 2 { '2' }
    else if x == 3 { '3' }
    else if x == 4 { '4' }
    else if x == 5 { '5' }
    else if x == 6 { '6' }
    else if x == 7 { '7' }
    else if x == 8 { '8' }
    else if x == 9 { '9' }
    else if x == 10 { 'a' }
    else if x == 11 { 'b' }
    else if x == 12 { 'c' }
    else if x == 13 { 'd' }
    else if x == 14 { 'e' }
    else { 'f' }
}

/// Relies on String::push: it appends exactly one character.
#[verifier::external_body]
fn push_char(s: &mut String, c: char)
    ensures
        final(s)@ == old(s)@.push(c),
{
    s.push(c);
}

fn push_hex_pair(s: &mut String, x: u8)
    ensures
        final(s)@ == old(s)@ + hex_pair(x),
{
    let hi = x / 16;
    let lo = x % 16;
    push_char(s, hex_char_of(hi));
    push_char(s, hex_char_of(lo));
    proof {
        assert(s@ =~= old(s)@ + hex_pair(x));
    }
}

/// The short printable form of an identifier: `3fa9c1...`.
pub fn enc_id(id: &NodeId) -> (r: String)
    ensures
        r@ == enc_prefix(id@),
{
    let mut s = String::new();
    push_hex_pair(&mut s, id[0]);
    push_hex_pair(&mut s, id[1]);
    push_hex_pair(&mut s, id[2]);
    push_char(&mut s, '.');
    push_char(&mut s, '.');
    push_char(&mut s, '.');
    proof {
        assert(s@ =~= enc_prefix(id@));
    }
    s
}

/// The short printable form of a byte string of at least three bytes.
pub fn enc_vec(id: &Vec<u8>) -> (r: String)
    requires
        id@.len() >= 3,
    ensures
        r@ == enc_prefix(id@),
{
    let mut s = String::new();
    push_hex_pair(&mut s, id[0]);
    push_hex_pair(&mut s, id[1]);
    push_hex_pair(&mut s, id[2]);
    push_char(&mut s, '.');
    push_char(&mut s, '.');
    push_char(&mut s, '.');
    proof {
        assert(s@ =~= enc_prefix(id@));
    }
    s
}

} // verus!
