use vstd::prelude::*;

use crate::addr::Addr;
use crate::addr::AddrV4;
use crate::addr::is_v4_mapped;
use crate::addr::spec_unmap_v4;

verus! {

/// Discards a result on purpose.
pub fn ignore<R, E>(res: Result<R, E>) {
    match res {
        _ => (),
    }
}

/// The normal form of an address: an IPv4-mapped IPv6 address is folded to
/// native IPv4, every other address stays as it is.
pub open spec fn spec_ip4or6(addr: Addr) -> Addr {
    match addr {
        Addr::V4(a) => Addr::V4(a),
        Addr::V6(a) => if is_v4_mapped(a) {
            Addr::V4(spec_unmap_v4(a))
        } else {
            Addr::V6(a)
        },
    }
}

/// Folds an IPv4-mapped IPv6 address to native IPv4, so that one peer never
/// appears under two addresses.
pub fn ip4or6(addr: Addr) -> (r: Addr)
    ensures
        r == spec_ip4or6(addr),
{
    match addr {
        Addr::V4(a) => Addr::V4(a),
        Addr::V6(a) => {
            if a.s0 == 0 && a.s1 == 0 && a.s2 == 0 && a.s3 == 0 && a.s4 == 0 && a.s5 == 0xffff {
                Addr::V4(AddrV4 {
                    o0: (a.s6 / 256) as u8,
                    o1: (a.s6 % 256) as u8,
                    o2: (a.s7 / 256) as u8,
                    o3: (a.s7 % 256) as u8,
                    port: a.port,
                })
            } else {
                Addr::V6(a)
            }
        },
    }
}

} // verus!
