//! IP addresses as plain integers, with the predicates of the access gate.
use vstd::prelude::*;

verus! {

/// An IP address: IPv4 as a 32-bit integer, IPv6 as a 128-bit integer
/// (most significant bits first, as written).
#[derive(Clone, Copy, Debug, PartialEq, Eq, Structural)]
pub enum IpAddr {
    V4(u32),
    V6(u128),
}

/// Whether `x` is an IPv4-mapped IPv6 address `::ffff:a.b.c.d`.
pub open spec fn is_v4_mapped(x: u128) -> bool {
    x >> 32u128 == 0xffffu128
}

/// The address with any IPv4-mapped IPv6 form folded to plain IPv4.
pub open spec fn fold_spec(ip: IpAddr) -> IpAddr {
    match ip {
        IpAddr::V6(x) => if is_v4_mapped(x) {
            IpAddr::V4(x as u32)
        } else {
            ip
        },
        IpAddr::V4(_) => ip,
    }
}

/// Loopback: `127.0.0.0/8` or `::1` (after folding).
pub open spec fn is_loopback_spec(ip: IpAddr) -> bool {
    match fold_spec(ip) {
        IpAddr::V4(a) => a >> 24u32 == 127u32,
        IpAddr::V6(x) => x == 1u128,
    }
}

/// LAN: `10/8`, `172.16/12`, `192.168/16`, `169.254/16`, IPv6 loopback,
/// unique local `fc00::/7` and link-local `fe80::/10` (after folding).
pub open spec fn is_lan_spec(ip: IpAddr) -> bool {
    match fold_spec(ip) {
        IpAddr::V4(a) => a >> 24u32 == 10u32 || a >> 20u32 == 0xac1u32 || a >> 16u32 == 0xc0a8u32
            || a >> 16u32 == 0xa9feu32,
        IpAddr::V6(x) => x == 1u128 || x >> 121u128 == 0x7eu128 || x >> 118u128 == 0x3fau128,
    }
}

/// Folds an IPv4-mapped IPv6 address to its IPv4 form; other addresses are
/// returned unchanged.
pub fn to_ipv4_mapped(ip: &IpAddr) -> (r: IpAddr)
    ensures
        r == fold_spec(*ip),
{
    match *ip {
        IpAddr::V6(x) => if x >> 32u128 == 0xffffu128 {
            IpAddr::V4(x as u32)
        } else {
            *ip
        },
        IpAddr::V4(_) => *ip,
    }
}

/// Whether the address is a loopback address.
pub fn is_loopback_ip(ip: &IpAddr) -> (r: bool)
    ensures
        r == is_loopback_spec(*ip),
{
    match to_ipv4_mapped(ip) {
        IpAddr::V4(a) => a >> 24u32 == 127u32,
        IpAddr::V6(x) => x == 1u128,
    }
}

/// Whether the address lies in one of the LAN ranges.
pub fn is_lan_ip(ip: &IpAddr) -> (r: bool)
    ensures
        r == is_lan_spec(*ip),
{
    match to_ipv4_mapped(ip) {
        IpAddr::V4(a) => a >> 24u32 == 10u32 || a >> 20u32 == 0xac1u32 || a >> 16u32 == 0xc0a8u32
            || a >> 16u32 == 0xa9feu32,
        IpAddr::V6(x) => x == 1u128 || x >> 121u128 == 0x7eu128 || x >> 118u128 == 0x3fau128,
    }
}

/// The IPv4-mapped IPv6 form of an IPv4 address.
pub open spec fn mapped_of(a: u32) -> u128 {
    0xffff_0000_0000u128 | a as u128
}

/// Folding the mapped form of an IPv4 address gives the address back, so
/// every predicate on folded addresses agrees on the two forms.
pub proof fn lemma_mapped_folds(a: u32)
    ensures
        fold_spec(IpAddr::V6(mapped_of(a))) == IpAddr::V4(a),
        is_loopback_spec(IpAddr::V6(mapped_of(a))) == is_loopback_spec(IpAddr::V4(a)),
        is_lan_spec(IpAddr::V6(mapped_of(a))) == is_lan_spec(IpAddr::V4(a)),
{
    let x = mapped_of(a);
    assert(x >> 32u128 == 0xffffu128 && x as u32 == a) by (bit_vector)
        requires x == 0xffff_0000_0000u128 | a as u128;
}

} // verus!
