use vstd::prelude::*;

verus! {

// UDP endpoints are held as plain values so that every rule about them
// (normalization, the global-address filter, equality of peers) is checked:
// an IPv4 address by its four octets, an IPv6 address by its eight segments.

#[derive(Clone, Copy, PartialEq, Eq, Structural, Debug)]
pub struct AddrV4 {
    pub o0: u8,
    pub o1: u8,
    pub o2: u8,
    pub o3: u8,
    pub port: u16,
}

#[derive(Clone, Copy, PartialEq, Eq, Structural, Debug)]
pub struct AddrV6 {
    pub s0: u16,
    pub s1: u16,
    pub s2: u16,
    pub s3: u16,
    pub s4: u16,
    pub s5: u16,
    pub s6: u16,
    pub s7: u16,
    pub port: u16,
}

/// A UDP socket address, IPv4 or IPv6.
#[derive(Clone, Copy, PartialEq, Eq, Structural, Debug)]
pub enum Addr {
    V4(AddrV4),
    V6(AddrV6),
}

/// An IPv4-mapped IPv6 address: `::ffff:a.b.c.d`.
pub open spec fn is_v4_mapped(a: AddrV6) -> bool {
    a.s0 == 0 && a.s1 == 0 && a.s2 == 0 && a.s3 == 0 && a.s4 == 0 && a.s5 == 0xffff
}

/// The IPv4 address inside an IPv4-mapped IPv6 address, keeping the port.
pub open spec fn spec_unmap_v4(a: AddrV6) -> AddrV4 {
    AddrV4 {
        o0: (a.s6 / 256) as u8,
        o1: (a.s6 % 256) as u8,
        o2: (a.s7 / 256) as u8,
        o3: (a.s7 % 256) as u8,
        port: a.port,
    }
}

} // verus!
