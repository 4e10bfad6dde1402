//! What subnets, prefixes and kinds of addresses amount to, bit by bit.

use crate::address::{ipv4_bits, ipv6_bits, octet_groups};
use crate::address_laws::law_ipv6_bits_keep_groups;
use crate::devices::{in_any_prefix, is_lan_prefix};
use crate::network::{in_prefix, in_subnet, ipv6_type, mask_ones, ones, Ipv6AddressType};
use vstd::arithmetic::div_mod::{
    lemma_basic_div, lemma_div_denominator, lemma_hoist_over_denominator,
    lemma_mod_multiples_vanish,
};
use vstd::arithmetic::power2::{lemma2_to64, lemma_pow2_adds, lemma_pow2_pos, pow2};
use vstd::prelude::*;

verus! {

/// The number that a row of octets writes, the first one first.
pub open spec fn octets_value(o: Seq<u8>) -> nat
    decreases o.len(),
{
    if o.len() == 0 {
        0
    } else {
        octets_value(o.drop_last()) * 256 + o.last() as nat
    }
}

/// The bit at `i` of a row of octets, the first bit of the first octet being at zero.
pub open spec fn bit(o: Seq<u8>, i: int) -> nat {
    o[i / 8] as nat / pow2((7 - i % 8) as nat) % 2
}

/// Do two rows of octets agree in their first `len` bits?
pub open spec fn agree(a: Seq<u8>, b: Seq<u8>, len: int) -> bool {
    forall|i: int| 0 <= i < len ==> #[trigger] bit(a, i) == bit(b, i)
}

proof fn lemma_one_octet_more(o: Seq<u8>, k: int)
    requires
        0 <= k < o.len(),
    ensures
        octets_value(o.take(k + 1)) == octets_value(o.take(k)) * 256 + o[k] as nat,
{
    assert(o.take(k + 1).drop_last() =~= o.take(k));
}

/// The number of an IPv4 address is the one that its octets write.
pub proof fn law_ipv4_bits_are_the_octets(o: Seq<u8>)
    requires
        o.len() == 4,
    ensures
        ipv4_bits(o) == octets_value(o),
{
    assert(o.take(0) =~= Seq::<u8>::empty());
    assert(o.take(4) =~= o);
    lemma_one_octet_more(o, 0);
    lemma_one_octet_more(o, 1);
    lemma_one_octet_more(o, 2);
    lemma_one_octet_more(o, 3);
}

/// The number of an IPv6 address is the one that its octets write.
pub proof fn law_ipv6_bits_are_the_octets(o: Seq<u8>)
    requires
        o.len() == 16,
    ensures
        ipv6_bits(octet_groups(o)) == octets_value(o),
{
    assert(o.take(0) =~= Seq::<u8>::empty());
    assert(o.take(16) =~= o);
    lemma_one_octet_more(o, 0);
    lemma_one_octet_more(o, 1);
    lemma_one_octet_more(o, 2);
    lemma_one_octet_more(o, 3);
    lemma_one_octet_more(o, 4);
    lemma_one_octet_more(o, 5);
    lemma_one_octet_more(o, 6);
    lemma_one_octet_more(o, 7);
    lemma_one_octet_more(o, 8);
    lemma_one_octet_more(o, 9);
    lemma_one_octet_more(o, 10);
    lemma_one_octet_more(o, 11);
    lemma_one_octet_more(o, 12);
    lemma_one_octet_more(o, 13);
    lemma_one_octet_more(o, 14);
    lemma_one_octet_more(o, 15);
    let g = octet_groups(o);
    law_ipv6_bits_keep_groups(g);
    assert(g[0] == o[0] * 0x100 + o[1]);
    assert(g[1] == o[2] * 0x100 + o[3]);
    assert(g[2] == o[4] * 0x100 + o[5]);
    assert(g[3] == o[6] * 0x100 + o[7]);
    assert(g[4] == o[8] * 0x100 + o[9]);
    assert(g[5] == o[10] * 0x100 + o[11]);
    assert(g[6] == o[12] * 0x100 + o[13]);
    assert(g[7] == o[14] * 0x100 + o[15]);
}

/// The first octets of a row write the number without the low octets.
proof fn lemma_high_octets(o: Seq<u8>, k: nat)
    requires
        k <= o.len(),
    ensures
        octets_value(o) / pow2((8 * (o.len() - k)) as nat) == octets_value(o.take(k as int)),
    decreases o.len() - k,
{
    lemma2_to64();
    if k == o.len() {
        assert(o.take(k as int) =~= o);
        assert(octets_value(o) / 1 == octets_value(o));
    } else {
        let t = o.drop_last();
        let m = (8 * (t.len() - k)) as nat;
        lemma_high_octets(t, k);
        assert(t.take(k as int) =~= o.take(k as int));
        lemma_pow2_adds(8, m);
        lemma_pow2_pos(m);
        lemma_div_denominator(octets_value(o) as int, 256, pow2(m) as int);
        assert(octets_value(o) / 256 == octets_value(t));
        assert((8 * (o.len() - k)) as nat == 8 + m);
    }
}

proof fn lemma_octets_bound(o: Seq<u8>)
    ensures
        octets_value(o) < pow2(8 * o.len()),
    decreases o.len(),
{
    lemma2_to64();
    if o.len() > 0 {
        let t = o.drop_last();
        lemma_octets_bound(t);
        lemma_pow2_adds(8, 8 * t.len());
        assert(8 * o.len() == 8 + 8 * t.len());
    }
}

/// Octets in front of one do not change its bits.
proof fn lemma_octets_in_front(high: int, x: int, c: nat, q: int)
    requires
        c > 0,
        c * q * 2 == 256,
    ensures
        (high * 256 + x) / c as int % 2 == x / c as int % 2,
{
    let j = high * q * 2;
    assert(j * c as int == high * 256) by (nonlinear_arith)
        requires
            j == high * q * 2,
            c * q * 2 == 256,
    ;
    lemma_hoist_over_denominator(x, j, c);
    lemma_mod_multiples_vanish(high * q, x / c as int, 2);
    assert(2 * (high * q) == j) by (nonlinear_arith)
        requires
            j == high * q * 2,
    ;
}

proof fn lemma_low_bits(high: nat, x: u8, r: int)
    requires
        0 <= r < 8,
    ensures
        (high * 256 + x as nat) / pow2((7 - r) as nat) % 2 == x as nat / pow2((7 - r) as nat) % 2,
{
    lemma2_to64();
    let q: int = if r == 0 {
        1
    } else if r == 1 {
        2
    } else if r == 2 {
        4
    } else if r == 3 {
        8
    } else if r == 4 {
        16
    } else if r == 5 {
        32
    } else if r == 6 {
        64
    } else {
        128
    };
    lemma_octets_in_front(high as int, x as int, pow2((7 - r) as nat), q);
}

/// The first `len + 1` bits write twice the number of the first `len`, and the bit.
proof fn lemma_one_bit_more(o: Seq<u8>, len: nat)
    requires
        len < 8 * o.len(),
    ensures
        octets_value(o) / pow2((8 * o.len() - len - 1) as nat) == octets_value(o) / pow2(
            (8 * o.len() - len) as nat,
        ) * 2 + bit(o, len as int),
{
    let v = octets_value(o);
    let k = (len / 8) as nat;
    let r = len as int % 8;
    let low = (8 * (o.len() - (k + 1))) as nat;
    let rest = (7 - r) as nat;
    let shift = (8 * o.len() - len - 1) as nat;
    lemma2_to64();
    assert(shift == low + rest);
    lemma_pow2_pos(low);
    lemma_pow2_pos(rest);
    lemma_pow2_pos(shift);
    lemma_pow2_adds(low, rest);
    lemma_div_denominator(v as int, pow2(low) as int, pow2(rest) as int);
    lemma_high_octets(o, k + 1);
    lemma_one_octet_more(o, k as int);
    lemma_low_bits(octets_value(o.take(k as int)), o[k as int], r);
    assert(v / pow2(shift) % 2 == bit(o, len as int));
    lemma_pow2_adds(shift, 1);
    lemma_div_denominator(v as int, pow2(shift) as int, 2);
    assert((8 * o.len() - len) as nat == shift + 1);
}

proof fn lemma_two_digits(x: nat, u: nat, y: nat, w: nat)
    requires
        u < 2,
        w < 2,
    ensures
        x * 2 + u == y * 2 + w <==> x == y && u == w,
{
}

/// Two rows of octets agree in their first bits if and only if these bits write one
/// number.
pub proof fn law_leading_bits_agree(a: Seq<u8>, b: Seq<u8>, len: nat)
    requires
        a.len() == b.len(),
        len <= 8 * a.len(),
    ensures
        octets_value(a) / pow2((8 * a.len() - len) as nat) == octets_value(b) / pow2(
            (8 * b.len() - len) as nat,
        ) <==> agree(a, b, len as int),
    decreases len,
{
    if len == 0 {
        lemma_octets_bound(a);
        lemma_octets_bound(b);
        lemma_basic_div(octets_value(a) as int, pow2(8 * a.len()) as int);
        lemma_basic_div(octets_value(b) as int, pow2(8 * b.len()) as int);
        assert((8 * a.len() - len) as nat == 8 * a.len());
        assert(octets_value(a) / pow2(8 * a.len()) == 0);
        assert(octets_value(b) / pow2(8 * b.len()) == 0);
        assert(agree(a, b, 0));
    } else {
        let before = (len - 1) as nat;
        law_leading_bits_agree(a, b, before);
        lemma_one_bit_more(a, before);
        lemma_one_bit_more(b, before);
        let shift = (8 * a.len() - len) as nat;
        assert((8 * a.len() - before - 1) as nat == shift);
        assert((8 * b.len() - before - 1) as nat == shift);
        assert((8 * a.len() - before) as nat == shift + 1);
        let (x, y) = (octets_value(a) / pow2(shift + 1), octets_value(b) / pow2(shift + 1));
        assert(octets_value(a) / pow2(shift) == x * 2 + bit(a, before as int));
        assert(octets_value(b) / pow2(shift) == y * 2 + bit(b, before as int));
        assert(x == y <==> agree(a, b, before as int));
        let (u, w) = (bit(a, before as int), bit(b, before as int));
        assert(u < 2 && w < 2);
        lemma_two_digits(x, u, y, w);
        assert(octets_value(a) / pow2(shift) == octets_value(b) / pow2(shift) <==> x == y && u
            == w);
        assert((8 * b.len() - len) as nat == shift);
        assert(agree(a, b, len as int) <==> agree(a, b, before as int) && bit(a, before as int)
            == bit(b, before as int)) by {
            if agree(a, b, before as int) && bit(a, before as int) == bit(b, before as int) {
                assert forall|i: int| 0 <= i < len implies #[trigger] bit(a, i) == bit(b, i) by {}
            }
        }
    }
}

/// An address lies under a prefix if and only if it agrees with it in as many of its
/// bits as the prefix is long.
pub proof fn law_prefixes_are_leading_bits(addr: Seq<u8>, prefix: Seq<u8>, prefix_len: u8)
    requires
        addr.len() == 16,
        prefix.len() == 16,
    ensures
        prefix_len <= 128 ==> (in_prefix(addr, prefix, prefix_len) <==> agree(
            addr,
            prefix,
            prefix_len as int,
        )),
        prefix_len >= 128 ==> (in_prefix(addr, prefix, prefix_len) <==> agree(addr, prefix, 128)),
{
    let len: nat = if prefix_len > 128 {
        128
    } else {
        prefix_len as nat
    };
    law_ipv6_bits_are_the_octets(addr);
    law_ipv6_bits_are_the_octets(prefix);
    law_leading_bits_agree(addr, prefix, len);
}

/// Of two prefixes of one address, the longer one holds no more addresses.
pub proof fn law_longer_prefixes_hold_fewer(addr: Seq<u8>, prefix: Seq<u8>, short: u8, long: u8)
    requires
        addr.len() == 16,
        prefix.len() == 16,
        short <= long,
        in_prefix(addr, prefix, long),
    ensures
        in_prefix(addr, prefix, short),
{
    law_prefixes_are_leading_bits(addr, prefix, short);
    law_prefixes_are_leading_bits(addr, prefix, long);
}

/// The sixteen octets of an address of which only the first two can differ from zero.
pub open spec fn beginning_with(first: u8, second: u8) -> Seq<u8> {
    Seq::new(
        16,
        |i: int|
            if i == 0 {
                first
            } else if i == 1 {
                second
            } else {
                0
            },
    )
}

proof fn lemma_first_bits(o: Seq<u8>)
    requires
        o.len() == 16,
    ensures
        bit(o, 0) == o[0] / 128 % 2,
        bit(o, 1) == o[0] / 64 % 2,
        bit(o, 2) == o[0] / 32 % 2,
        bit(o, 3) == o[0] / 16 % 2,
        bit(o, 4) == o[0] / 8 % 2,
        bit(o, 5) == o[0] / 4 % 2,
        bit(o, 6) == o[0] / 2 % 2,
        bit(o, 7) == o[0] % 2,
        bit(o, 8) == o[1] / 128 % 2,
        bit(o, 9) == o[1] / 64 % 2,
{
    lemma2_to64();
    assert(o[0] as nat / 1 == o[0]);
}

/// An address is of the kind of the range that it lies in: 2000::/3 for global
/// unicast, fc00::/7 for unique local and fe80::/10 for link-local addresses.
pub proof fn law_kinds_are_ranges(addr: Seq<u8>)
    requires
        addr.len() == 16,
    ensures
        ipv6_type(addr) == Ipv6AddressType::GlobalUnicast <==> in_prefix(
            addr,
            beginning_with(0x20, 0),
            3,
        ),
        ipv6_type(addr) == Ipv6AddressType::UniqueLocal <==> in_prefix(
            addr,
            beginning_with(0xfc, 0),
            7,
        ),
        ipv6_type(addr) == Ipv6AddressType::LinkLocal <==> in_prefix(
            addr,
            beginning_with(0xfe, 0x80),
            10,
        ),
{
    let global = beginning_with(0x20, 0);
    let unique = beginning_with(0xfc, 0);
    let link = beginning_with(0xfe, 0x80);
    law_prefixes_are_leading_bits(addr, global, 3);
    law_prefixes_are_leading_bits(addr, unique, 7);
    law_prefixes_are_leading_bits(addr, link, 10);
    lemma_first_bits(addr);
    lemma_first_bits(global);
    lemma_first_bits(unique);
    lemma_first_bits(link);
    let (x, y) = (addr[0], addr[1]);
    assert(0x20 <= x <= 0x3f <==> x / 128 % 2 == 0 && x / 64 % 2 == 0 && x / 32 % 2 == 1)
        by (bit_vector);
    assert(0xfc <= x <= 0xfd <==> x / 128 % 2 == 1 && x / 64 % 2 == 1 && x / 32 % 2 == 1 && x / 16
        % 2 == 1 && x / 8 % 2 == 1 && x / 4 % 2 == 1 && x / 2 % 2 == 0) by (bit_vector);
    assert(x == 0xfe <==> x / 128 % 2 == 1 && x / 64 % 2 == 1 && x / 32 % 2 == 1 && x / 16 % 2 == 1
        && x / 8 % 2 == 1 && x / 4 % 2 == 1 && x / 2 % 2 == 1 && x % 2 == 0) by (bit_vector);
    assert(0x80 <= y <= 0xbf <==> y / 128 % 2 == 1 && y / 64 % 2 == 0) by (bit_vector);
    lemma_agree_in_ten(addr, global);
    lemma_agree_in_ten(addr, unique);
    lemma_agree_in_ten(addr, link);
}

proof fn lemma_agree_in_ten(a: Seq<u8>, b: Seq<u8>)
    ensures
        agree(a, b, 3) <==> bit(a, 0) == bit(b, 0) && bit(a, 1) == bit(b, 1) && bit(a, 2) == bit(
            b,
            2,
        ),
        agree(a, b, 7) <==> agree(a, b, 3) && bit(a, 3) == bit(b, 3) && bit(a, 4) == bit(b, 4)
            && bit(a, 5) == bit(b, 5) && bit(a, 6) == bit(b, 6),
        agree(a, b, 10) <==> agree(a, b, 7) && bit(a, 7) == bit(b, 7) && bit(a, 8) == bit(b, 8)
            && bit(a, 9) == bit(b, 9),
{
    if bit(a, 0) == bit(b, 0) && bit(a, 1) == bit(b, 1) && bit(a, 2) == bit(b, 2) {
        assert forall|i: int| 0 <= i < 3 implies #[trigger] bit(a, i) == bit(b, i) by {
            assert(i == 0 || i == 1 || i == 2);
        }
    }
    if agree(a, b, 3) && bit(a, 3) == bit(b, 3) && bit(a, 4) == bit(b, 4) && bit(a, 5) == bit(b, 5)
        && bit(a, 6) == bit(b, 6) {
        assert forall|i: int| 0 <= i < 7 implies #[trigger] bit(a, i) == bit(b, i) by {
            assert(i < 3 || i == 3 || i == 4 || i == 5 || i == 6);
        }
    }
    if agree(a, b, 7) && bit(a, 7) == bit(b, 7) && bit(a, 8) == bit(b, 8) && bit(a, 9) == bit(
        b,
        9,
    ) {
        assert forall|i: int| 0 <= i < 10 implies #[trigger] bit(a, i) == bit(b, i) by {
            assert(i < 7 || i == 7 || i == 8 || i == 9);
        }
    }
}

/// The prefixes that lie in 2000::/3 or in fc00::/7.
pub open spec fn of_a_network() -> spec_fn(([u8; 16], u8)) -> bool {
    |p: ([u8; 16], u8)|
        in_prefix(p.0@, beginning_with(0x20, 0), 3) || in_prefix(
            p.0@,
            beginning_with(0xfc, 0),
            7,
        )
}

/// Of an interface's addresses those in 2000::/3 and in fc00::/7 are kept as the
/// prefixes of the local network, in their order, and no others.
pub proof fn law_lan_prefixes_are_ranges(interface_ipv6: Seq<([u8; 16], u8)>)
    ensures
        interface_ipv6.filter(is_lan_prefix()) == interface_ipv6.filter(of_a_network()),
        forall|i: int|
            0 <= i < interface_ipv6.len() && (in_prefix(
                (#[trigger] interface_ipv6[i]).0@,
                beginning_with(0x20, 0),
                3,
            ) || in_prefix(interface_ipv6[i].0@, beginning_with(0xfc, 0), 7))
                ==> interface_ipv6.filter(is_lan_prefix()).contains(interface_ipv6[i]),
{
    assert forall|p: ([u8; 16], u8)| #[trigger] is_lan_prefix()(p) == of_a_network()(p) by {
        law_kinds_are_ranges(p.0@);
    }
    assert(is_lan_prefix() =~= of_a_network());
    assert forall|i: int|
        0 <= i < interface_ipv6.len() && of_a_network()(
            #[trigger] interface_ipv6[i],
        ) implies interface_ipv6.filter(is_lan_prefix()).contains(interface_ipv6[i]) by {
        interface_ipv6.lemma_filter_contains(is_lan_prefix(), i);
    }
}

/// How many bits of an address a prefix of that length holds. An address has 128.
pub open spec fn bits_held(prefix_len: u8) -> int {
    if prefix_len < 128 {
        prefix_len as int
    } else {
        128
    }
}

/// An address is local if and only if it agrees with one of the prefixes in as many
/// bits as that prefix holds.
pub proof fn law_local_addresses_agree_with_a_prefix(
    addr: [u8; 16],
    prefixes: Seq<([u8; 16], u8)>,
)
    ensures
        in_any_prefix(addr, prefixes) <==> exists|i: int|
            0 <= i < prefixes.len() && agree(
                addr@,
                (#[trigger] prefixes[i]).0@,
                bits_held(prefixes[i].1),
            ),
{
    assert forall|i: int| 0 <= i < prefixes.len() implies (in_prefix(
        addr@,
        (#[trigger] prefixes[i]).0@,
        prefixes[i].1,
    ) <==> agree(addr@, prefixes[i].0@, bits_held(prefixes[i].1))) by {
        law_prefixes_are_leading_bits(addr@, prefixes[i].0@, prefixes[i].1);
    }
}

proof fn lemma_masked_octet(x: u8, y: u8, m: u8)
    ensures
        x & m == y & m <==> (m / 128 % 2 == 1 ==> x / 128 % 2 == y / 128 % 2) && (m / 64 % 2 == 1
            ==> x / 64 % 2 == y / 64 % 2) && (m / 32 % 2 == 1 ==> x / 32 % 2 == y / 32 % 2) && (m
            / 16 % 2 == 1 ==> x / 16 % 2 == y / 16 % 2) && (m / 8 % 2 == 1 ==> x / 8 % 2 == y / 8
            % 2) && (m / 4 % 2 == 1 ==> x / 4 % 2 == y / 4 % 2) && (m / 2 % 2 == 1 ==> x / 2 % 2
            == y / 2 % 2) && (m % 2 == 1 ==> x % 2 == y % 2),
{
    assert(x & m == y & m <==> (m / 128 % 2 == 1 ==> x / 128 % 2 == y / 128 % 2) && (m / 64 % 2 == 1
        ==> x / 64 % 2 == y / 64 % 2) && (m / 32 % 2 == 1 ==> x / 32 % 2 == y / 32 % 2) && (m / 16
        % 2 == 1 ==> x / 16 % 2 == y / 16 % 2) && (m / 8 % 2 == 1 ==> x / 8 % 2 == y / 8 % 2) && (m
        / 4 % 2 == 1 ==> x / 4 % 2 == y / 4 % 2) && (m / 2 % 2 == 1 ==> x / 2 % 2 == y / 2 % 2) && (
    m % 2 == 1 ==> x % 2 == y % 2)) by (bit_vector);
}

proof fn lemma_octet_bits(o: Seq<u8>, k: int)
    requires
        0 <= k < o.len(),
    ensures
        bit(o, 8 * k) == o[k] / 128 % 2,
        bit(o, 8 * k + 1) == o[k] / 64 % 2,
        bit(o, 8 * k + 2) == o[k] / 32 % 2,
        bit(o, 8 * k + 3) == o[k] / 16 % 2,
        bit(o, 8 * k + 4) == o[k] / 8 % 2,
        bit(o, 8 * k + 5) == o[k] / 4 % 2,
        bit(o, 8 * k + 6) == o[k] / 2 % 2,
        bit(o, 8 * k + 7) == o[k] % 2,
{
    lemma2_to64();
    assert(o[k] as nat / 1 == o[k]);
    assert((8 * k) / 8 == k && (8 * k) % 8 == 0);
    assert((8 * k + 1) / 8 == k && (8 * k + 1) % 8 == 1);
    assert((8 * k + 2) / 8 == k && (8 * k + 2) % 8 == 2);
    assert((8 * k + 3) / 8 == k && (8 * k + 3) % 8 == 3);
    assert((8 * k + 4) / 8 == k && (8 * k + 4) % 8 == 4);
    assert((8 * k + 5) / 8 == k && (8 * k + 5) % 8 == 5);
    assert((8 * k + 6) / 8 == k && (8 * k + 6) % 8 == 6);
    assert((8 * k + 7) / 8 == k && (8 * k + 7) % 8 == 7);
}

/// Do two addresses agree in every bit that is one in the mask?
pub open spec fn agree_under(a: Seq<u8>, b: Seq<u8>, mask: Seq<u8>) -> bool {
    forall|i: int| 0 <= i < 32 && bit(mask, i) == 1 ==> #[trigger] bit(a, i) == bit(b, i)
}

/// An address lies in the interface's subnet if and only if it agrees with the
/// interface's in every bit that is one in the mask.
pub proof fn law_subnets_are_bits(ip: Seq<u8>, interface_ip: Seq<u8>, mask: Seq<u8>)
    requires
        ip.len() == 4,
        interface_ip.len() == 4,
        mask.len() == 4,
    ensures
        in_subnet(ip, interface_ip, mask) <==> agree_under(ip, interface_ip, mask),
{
    assert forall|k: int| 0 <= k < 4 implies (#[trigger] ip[k] & mask[k] == interface_ip[k]
        & mask[k] <==> forall|i: int|
        8 * k <= i < 8 * k + 8 && bit(mask, i) == 1 ==> #[trigger] bit(ip, i) == bit(
            interface_ip,
            i,
        )) by {
        lemma_masked_octet(ip[k], interface_ip[k], mask[k]);
        lemma_octet_bits(ip, k);
        lemma_octet_bits(interface_ip, k);
        lemma_octet_bits(mask, k);
        if ip[k] & mask[k] == interface_ip[k] & mask[k] {
            assert forall|i: int| 8 * k <= i < 8 * k + 8 && bit(mask, i) == 1 implies #[trigger] bit(
                ip,
                i,
            ) == bit(interface_ip, i) by {
                let j = i - 8 * k;
                assert(j == 0 || j == 1 || j == 2 || j == 3 || j == 4 || j == 5 || j == 6 || j
                    == 7);
            }
        }
    }
    if in_subnet(ip, interface_ip, mask) {
        assert forall|i: int| 0 <= i < 32 && bit(mask, i) == 1 implies #[trigger] bit(ip, i) == bit(
            interface_ip,
            i,
        ) by {
            let k = i / 8;
            assert(ip[k] & mask[k] == interface_ip[k] & mask[k]);
            assert(8 * k <= i < 8 * k + 8);
        }
    }
    if agree_under(ip, interface_ip, mask) {
        assert forall|k: int| 0 <= k < 4 implies #[trigger] ip[k] & mask[k] == interface_ip[k]
            & mask[k] by {
            assert forall|i: int| 8 * k <= i < 8 * k + 8 && bit(mask, i) == 1 implies #[trigger] bit(
                ip,
                i,
            ) == bit(interface_ip, i) by {}
        }
    }
}

/// Are the first `len` bits of the mask its ones?
pub open spec fn is_prefix_mask(mask: Seq<u8>, len: int) -> bool {
    mask.len() == 4 && 0 <= len <= 32 && forall|i: int|
        0 <= i < 32 ==> (#[trigger] bit(mask, i) == 1 <==> i < len)
}

/// Under a mask whose first `len` bits are its ones, an address lies in the subnet if
/// and only if its first `len` bits write the number that the interface's do.
pub proof fn law_subnet_of_a_prefix(
    ip: Seq<u8>,
    interface_ip: Seq<u8>,
    mask: Seq<u8>,
    len: nat,
)
    requires
        ip.len() == 4,
        interface_ip.len() == 4,
        is_prefix_mask(mask, len as int),
    ensures
        in_subnet(ip, interface_ip, mask) <==> ipv4_bits(ip) as nat / pow2((32 - len) as nat)
            == ipv4_bits(interface_ip) as nat / pow2((32 - len) as nat),
{
    law_subnets_are_bits(ip, interface_ip, mask);
    law_ipv4_bits_are_the_octets(ip);
    law_ipv4_bits_are_the_octets(interface_ip);
    law_leading_bits_agree(ip, interface_ip, len);
    if agree(ip, interface_ip, len as int) {
        assert forall|i: int| 0 <= i < 32 && bit(mask, i) == 1 implies #[trigger] bit(ip, i) == bit(
            interface_ip,
            i,
        ) by {}
    }
    if agree_under(ip, interface_ip, mask) {
        assert forall|i: int| 0 <= i < len implies #[trigger] bit(ip, i) == bit(
            interface_ip,
            i,
        ) by {
            assert(bit(mask, i) == 1);
        }
    }
}

/// Under the mask 255.255.255.0 an address lies in the subnet if and only if its
/// first three octets are the interface's.
pub proof fn law_subnet_of_three_octets(ip: Seq<u8>, interface_ip: Seq<u8>)
    requires
        ip.len() == 4,
        interface_ip.len() == 4,
    ensures
        in_subnet(ip, interface_ip, seq![255u8, 255u8, 255u8, 0u8]) <==> ip[0] == interface_ip[0]
            && ip[1] == interface_ip[1] && ip[2] == interface_ip[2],
{
    let mask = seq![255u8, 255u8, 255u8, 0u8];
    assert forall|x: u8| #[trigger] (x & 255u8) == x by {
        assert(x & 255u8 == x) by (bit_vector);
    }
    assert forall|x: u8| #[trigger] (x & 0u8) == 0 by {
        assert(x & 0u8 == 0) by (bit_vector);
    }
    if in_subnet(ip, interface_ip, mask) {
        assert(ip[0] & mask[0] == interface_ip[0] & mask[0]);
        assert(ip[1] & mask[1] == interface_ip[1] & mask[1]);
        assert(ip[2] & mask[2] == interface_ip[2] & mask[2]);
    }
}

/// The ones of an octet are the sum of its bits, and those of a mask the sum over
/// its octets.
pub proof fn law_ones_are_bits(mask: Seq<u8>)
    requires
        mask.len() == 4,
    ensures
        mask_ones(mask) == ones(mask[0]) + ones(mask[1]) + ones(mask[2]) + ones(mask[3]),
        forall|k: int|
            0 <= k < 4 ==> ones(#[trigger] mask[k]) == bit(mask, 8 * k) + bit(mask, 8 * k + 1)
                + bit(mask, 8 * k + 2) + bit(mask, 8 * k + 3) + bit(mask, 8 * k + 4) + bit(
                mask,
                8 * k + 5,
            ) + bit(mask, 8 * k + 6) + bit(mask, 8 * k + 7),
{
    assert forall|k: int| 0 <= k < 4 implies ones(#[trigger] mask[k]) == bit(mask, 8 * k) + bit(
        mask,
        8 * k + 1,
    ) + bit(mask, 8 * k + 2) + bit(mask, 8 * k + 3) + bit(mask, 8 * k + 4) + bit(mask, 8 * k + 5)
        + bit(mask, 8 * k + 6) + bit(mask, 8 * k + 7) by {
        lemma_octet_bits(mask, k);
        lemma_ones_of_an_octet(mask[k]);
    }
}

proof fn lemma_ones_of_an_octet(b: u8)
    ensures
        ones(b) == b % 2 + b / 2 % 2 + b / 4 % 2 + b / 8 % 2 + b / 16 % 2 + b / 32 % 2 + b / 64 % 2
            + b / 128 % 2,
{
    reveal_with_fuel(ones, 9);
    assert(b / 2 / 2 == b / 4 && b / 4 / 2 == b / 8 && b / 8 / 2 == b / 16 && b / 16 / 2 == b / 32
        && b / 32 / 2 == b / 64 && b / 64 / 2 == b / 128 && b / 128 / 2 == 0);
}

} // verus!
