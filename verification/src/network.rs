//! Subnets, prefixes and the kinds of IPv6 addresses.

use crate::address::{ipv6_bits, octet_groups, pack_ipv6};
use vstd::arithmetic::power2::{lemma2_to64, lemma_pow2_adds, pow2};
use vstd::bits::lemma_u128_shr_is_div;
use vstd::prelude::*;

verus! {

/// The kinds of IPv6 addresses.
#[derive(Clone, Copy, Debug, PartialEq, Eq, Structural)]
pub enum Ipv6AddressType {
    /// 2000::/3
    GlobalUnicast,
    /// fc00::/7
    UniqueLocal,
    /// fe80::/10
    LinkLocal,
    Other,
}

/// The number of ones among the binary digits of `b`.
pub open spec fn ones(b: u8) -> nat
    decreases b,
{
    if b == 0 {
        0
    } else {
        (b % 2) as nat + ones(b / 2)
    }
}

/// The number of ones in a subnet mask.
pub open spec fn mask_ones(mask: Seq<u8>) -> nat {
    ones(mask[0]) + ones(mask[1]) + ones(mask[2]) + ones(mask[3])
}

/// Does `ip` agree with `interface_ip` in every bit that the mask holds?
pub open spec fn in_subnet(ip: Seq<u8>, interface_ip: Seq<u8>, mask: Seq<u8>) -> bool {
    forall|i: int|
        0 <= i < 4 ==> #[trigger] ip[i] & mask[i] == interface_ip[i] & mask[i]
}

/// The kind of an IPv6 address, which its first ten bits tell.
pub open spec fn ipv6_type(addr: Seq<u8>) -> Ipv6AddressType {
    if 0x20 <= addr[0] <= 0x3f {
        Ipv6AddressType::GlobalUnicast
    } else if 0xfc <= addr[0] <= 0xfd {
        Ipv6AddressType::UniqueLocal
    } else if addr[0] == 0xfe && 0x80 <= addr[1] <= 0xbf {
        Ipv6AddressType::LinkLocal
    } else {
        Ipv6AddressType::Other
    }
}

/// The number that the first `len` of 128 bits write.
pub open spec fn leading_bits(value: u128, len: int) -> nat {
    value as nat / pow2((128 - len) as nat)
}

/// Does `addr` agree with `prefix` in the first `prefix_len` bits? An address
/// has 128 of them.
pub open spec fn in_prefix(addr: Seq<u8>, prefix: Seq<u8>, prefix_len: u8) -> bool {
    let len: int = if prefix_len > 128 {
        128
    } else {
        prefix_len as int
    };
    leading_bits(ipv6_bits(octet_groups(addr)), len) == leading_bits(
        ipv6_bits(octet_groups(prefix)),
        len,
    )
}

proof fn lemma_ones_bound(b: u8)
    ensures
        ones(b) <= 8,
{
    reveal_with_fuel(ones, 9);
}

/// The number of ones among the binary digits of `b`.
fn count_ones(b: u8) -> (n: u8)
    ensures
        n == ones(b),
        n <= 8,
{
    proof {
        lemma_ones_bound(b);
    }
    let mut rest: u8 = b;
    let mut n: u8 = 0;
    while rest > 0
        invariant
            n + ones(rest) == ones(b),
            ones(b) <= 8,
        decreases rest,
    {
        n = n + rest % 2;
        rest = rest / 2;
    }
    n
}

/// The length of the prefix that a subnet mask stands for.
pub fn subnet_mask_to_cidr(mask: [u8; 4]) -> (cidr: u8)
    ensures
        cidr == mask_ones(mask@),
        cidr <= 32,
{
    count_ones(mask[0]) + count_ones(mask[1]) + count_ones(mask[2]) + count_ones(mask[3])
}

/// Does `ip` lie in the interface's subnet?
pub fn is_ip_in_subnet(ip: [u8; 4], interface_ip: [u8; 4], subnet_mask: [u8; 4]) -> (b: bool)
    ensures
        b == in_subnet(ip@, interface_ip@, subnet_mask@),
{
    let mut i: usize = 0;
    while i < 4
        invariant
            i <= 4,
            forall|j: int|
                0 <= j < i ==> #[trigger] ip@[j] & subnet_mask@[j] == interface_ip@[j]
                    & subnet_mask@[j],
        decreases 4 - i,
    {
        if ip[i] & subnet_mask[i] != interface_ip[i] & subnet_mask[i] {
            return false;
        }
        i = i + 1;
    }
    true
}

/// The kind of an IPv6 address.
pub fn classify_ipv6_address(addr: &[u8; 16]) -> (t: Ipv6AddressType)
    ensures
        t == ipv6_type(addr@),
{
    if 0x20 <= addr[0] && addr[0] <= 0x3f {
        Ipv6AddressType::GlobalUnicast
    } else if 0xfc <= addr[0] && addr[0] <= 0xfd {
        Ipv6AddressType::UniqueLocal
    } else if addr[0] == 0xfe && 0x80 <= addr[1] && addr[1] <= 0xbf {
        Ipv6AddressType::LinkLocal
    } else {
        Ipv6AddressType::Other
    }
}

/// No bits write the number zero.
proof fn lemma_no_leading_bits(value: u128)
    ensures
        leading_bits(value, 0) == 0,
{
    lemma2_to64();
    lemma_pow2_adds(64, 64);
    assert(0x1_0000_0000_0000_0000nat * 0x1_0000_0000_0000_0000nat
        == 0x1_0000_0000_0000_0000_0000_0000_0000_0000nat) by (nonlinear_arith);
    vstd::arithmetic::div_mod::lemma_basic_div(value as int, pow2(128) as int);
}

/// Does `addr` lie under the prefix?
pub fn is_ipv6_in_prefix(addr: &[u8; 16], prefix: &[u8; 16], prefix_len: u8) -> (b: bool)
    ensures
        b == in_prefix(addr@, prefix@, prefix_len),
{
    let a: u128 = pack_ipv6(*addr);
    let p: u128 = pack_ipv6(*prefix);
    if prefix_len == 0 {
        proof {
            lemma_no_leading_bits(a);
            lemma_no_leading_bits(p);
        }
        return true;
    }
    let shift: u128 = if prefix_len >= 128 {
        0
    } else {
        (128 - prefix_len) as u128
    };
    proof {
        lemma_u128_shr_is_div(a, shift);
        lemma_u128_shr_is_div(p, shift);
    }
    a >> shift == p >> shift
}

} // verus!
