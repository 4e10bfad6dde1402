//! IP addresses and the text that writes them.

use crate::number::{all_digits, decimal_value, is_digit};
use crate::text::{
    find_text, first_stands_at, lemma_pieces_non_empty, occurs, only, pieces, split_on, stands_at,
    texts,
};
use vstd::prelude::*;
use vstd::slice::slice_subrange;

verus! {

/// An IP address, as the number that its octets write in network order.
#[derive(Clone, Copy, Debug, PartialEq, Eq, Hash, Structural)]
pub enum IpAddress {
    V4(u32),
    V6(u128),
}

/// The number that four octets write.
pub open spec fn ipv4_bits(o: Seq<u8>) -> u32 {
    (o[0] * 0x100_0000 + o[1] * 0x1_0000 + o[2] * 0x100 + o[3]) as u32
}

/// The number that four 16-bit groups write.
pub open spec fn quad_bits(g: Seq<u16>) -> u64 {
    (g[0] * 0x1_0000_0000_0000 + g[1] * 0x1_0000_0000 + g[2] * 0x1_0000 + g[3]) as u64
}

/// The number that eight 16-bit groups write.
pub open spec fn ipv6_bits(g: Seq<u16>) -> u128 {
    (quad_bits(g.take(4)) * 0x1_0000_0000_0000_0000 + quad_bits(g.skip(4))) as u128
}

/// The eight groups that sixteen octets make.
pub open spec fn octet_groups(o: Seq<u8>) -> Seq<u16> {
    Seq::new(8, |i: int| (o[2 * i] * 0x100 + o[2 * i + 1]) as u16)
}

/// The number that an octet's text writes: one to three digits, with no zero in
/// front of another digit.
pub open spec fn octet(s: Seq<char>) -> Option<u8> {
    if 1 <= s.len() <= 3 && all_digits(s) && (s.len() == 1 || s[0] != '0') && decimal_value(s)
        <= 255 {
        Some(decimal_value(s) as u8)
    } else {
        None
    }
}

/// The IPv4 address that `s` writes: four octets with dots between them.
pub open spec fn ipv4(s: Seq<char>) -> Option<u32> {
    let p = pieces(s, only('.'));
    if p.len() == 4 && octet(p[0]) is Some && octet(p[1]) is Some && octet(p[2]) is Some && octet(
        p[3],
    ) is Some {
        Some(
            ipv4_bits(
                seq![octet(p[0])->0, octet(p[1])->0, octet(p[2])->0, octet(p[3])->0],
            ),
        )
    } else {
        None
    }
}

pub open spec fn is_hex_digit(c: char) -> bool {
    ('0' <= c && c <= '9') || ('a' <= c && c <= 'f') || ('A' <= c && c <= 'F')
}

pub open spec fn hex_digit_value(c: char) -> nat {
    if '0' <= c && c <= '9' {
        (c as u32 - '0' as u32) as nat
    } else if 'a' <= c && c <= 'f' {
        (c as u32 - 'a' as u32 + 10) as nat
    } else {
        (c as u32 - 'A' as u32 + 10) as nat
    }
}

/// The number that a row of hexadecimal digits writes.
pub open spec fn hex_value(s: Seq<char>) -> nat
    decreases s.len(),
{
    if s.len() == 0 {
        0
    } else {
        hex_value(s.drop_last()) * 16 + hex_digit_value(s.last())
    }
}

/// The 16-bit group that `s` writes: one to four hexadecimal digits.
pub open spec fn hex_group(s: Seq<char>) -> Option<u16> {
    if 1 <= s.len() <= 4 && forall|i: int| 0 <= i < s.len() ==> is_hex_digit(#[trigger] s[i]) {
        Some(hex_value(s) as u16)
    } else {
        None
    }
}

/// The groups that the last piece of a group list stands for: its own group,
/// or two for an IPv4 address where one may stand.
pub open spec fn last_groups(s: Seq<char>, ipv4_may_end: bool) -> Option<Seq<u16>> {
    match hex_group(s) {
        Some(g) => Some(seq![g]),
        None => match ipv4(s) {
            Some(v) if ipv4_may_end => Some(seq![(v / 0x1_0000) as u16, (v % 0x1_0000) as u16]),
            _ => None,
        },
    }
}

/// The groups that `s` lists with colons between them; none, where it is empty.
pub open spec fn group_list(s: Seq<char>, ipv4_may_end: bool) -> Option<Seq<u16>> {
    let p = pieces(s, only(':'));
    let front = p.drop_last();
    if s.len() == 0 {
        Some(Seq::empty())
    } else if (forall|i: int| 0 <= i < front.len() ==> hex_group(#[trigger] front[i]) is Some)
        && last_groups(p.last(), ipv4_may_end) is Some {
        Some(
            Seq::new(front.len(), |i: int| hex_group(front[i])->0) + last_groups(
                p.last(),
                ipv4_may_end,
            )->0,
        )
    } else {
        None
    }
}

/// The eight groups of an address whose double colon stands for the groups
/// between `head` and `tail`, which are zero. It stands for at least one.
pub open spec fn filled(head: Seq<u16>, tail: Seq<u16>) -> Option<Seq<u16>> {
    if head.len() + tail.len() <= 7 {
        Some(head + Seq::new((8 - head.len() - tail.len()) as nat, |i: int| 0u16) + tail)
    } else {
        None
    }
}

/// The groups of an address with its first double colon at `i`.
pub open spec fn compressed_groups(s: Seq<char>, i: int) -> Option<Seq<u16>> {
    match (group_list(s.take(i), false), group_list(s.skip(i + 2), true)) {
        (Some(head), Some(tail)) => filled(head, tail),
        _ => None,
    }
}

/// The groups of the IPv6 address that `s` writes: all eight, or fewer on the two
/// sides of a double colon. The last two may be written as an IPv4 address.
pub open spec fn ipv6_groups(s: Seq<char>) -> Option<Seq<u16>> {
    if occurs(s, "::"@) {
        compressed_groups(s, choose|i: int| first_stands_at(s, "::"@, i))
    } else {
        match group_list(s, true) {
            Some(g) if g.len() == 8 => Some(g),
            _ => None,
        }
    }
}

/// The IP address that `s` writes.
pub open spec fn ip_address(s: Seq<char>) -> Option<IpAddress> {
    match ipv4(s) {
        Some(v) => Some(IpAddress::V4(v)),
        None => match ipv6_groups(s) {
            Some(g) => Some(IpAddress::V6(ipv6_bits(g))),
            None => None,
        },
    }
}

/// The octet that `text` writes.
fn parse_octet(text: &[char]) -> (r: Option<u8>)
    ensures
        r == octet(text@),
{
    if text.len() == 0 || text.len() > 3 || (text.len() > 1 && text[0] == '0') {
        return None;
    }
    let mut value: u32 = 0;
    let mut k: usize = 0;
    assert(text@.take(0) =~= Seq::<char>::empty());
    while k < text.len()
        invariant
            k <= text@.len() <= 3,
            value == decimal_value(text@.take(k as int)),
            k == 0 ==> value == 0,
            k == 1 ==> value <= 9,
            k == 2 ==> value <= 99,
            k == 3 ==> value <= 999,
            forall|j: int| 0 <= j < k ==> is_digit(#[trigger] text@[j]),
        decreases text@.len() - k,
    {
        let c: char = text[k];
        if !('0' <= c && c <= '9') {
            return None;
        }
        assert(text@.take(k + 1).drop_last() =~= text@.take(k as int));
        value = value * 10 + (c as u32 - '0' as u32);
        k = k + 1;
    }
    assert(text@.take(k as int) =~= text@);
    if value <= 255 {
        Some(value as u8)
    } else {
        None
    }
}

/// The IPv4 address that `text` writes.
fn parse_ipv4(text: &[char]) -> (r: Option<u32>)
    ensures
        r == ipv4(text@),
{
    let p: Vec<&[char]> = split_on(text, '.');
    proof {
        let spec_p = pieces(text@, only('.'));
        assert forall|i: int| 0 <= i < p@.len() implies #[trigger] spec_p[i] == p@[i]@ by {
            assert(texts(p@)[i] == p@[i]@);
        }
    }
    if p.len() != 4 {
        return None;
    }
    match (parse_octet(p[0]), parse_octet(p[1]), parse_octet(p[2]), parse_octet(p[3])) {
        (Some(a), Some(b), Some(c), Some(d)) => Some(
            a as u32 * 0x100_0000 + b as u32 * 0x1_0000 + c as u32 * 0x100 + d as u32,
        ),
        _ => None,
    }
}

/// The value of a hexadecimal digit.
fn parse_hex_digit(c: char) -> (r: Option<u32>)
    ensures
        match r {
            Some(v) => is_hex_digit(c) && v == hex_digit_value(c) && v < 16,
            None => !is_hex_digit(c),
        },
{
    if '0' <= c && c <= '9' {
        Some(c as u32 - '0' as u32)
    } else if 'a' <= c && c <= 'f' {
        Some(c as u32 - 'a' as u32 + 10)
    } else if 'A' <= c && c <= 'F' {
        Some(c as u32 - 'A' as u32 + 10)
    } else {
        None
    }
}

/// The 16-bit group that `text` writes.
fn parse_hex_group(text: &[char]) -> (r: Option<u16>)
    ensures
        r == hex_group(text@),
{
    if text.len() == 0 || text.len() > 4 {
        return None;
    }
    let mut value: u32 = 0;
    let mut k: usize = 0;
    assert(text@.take(0) =~= Seq::<char>::empty());
    while k < text.len()
        invariant
            k <= text@.len() <= 4,
            value == hex_value(text@.take(k as int)),
            k == 0 ==> value == 0,
            k == 1 ==> value <= 0xf,
            k == 2 ==> value <= 0xff,
            k == 3 ==> value <= 0xfff,
            k == 4 ==> value <= 0xffff,
            forall|j: int| 0 <= j < k ==> is_hex_digit(#[trigger] text@[j]),
        decreases text@.len() - k,
    {
        match parse_hex_digit(text[k]) {
            Some(d) => {
                assert(text@.take(k + 1).drop_last() =~= text@.take(k as int));
                value = value * 16 + d;
            },
            None => {
                return None;
            },
        }
        k = k + 1;
    }
    assert(text@.take(k as int) =~= text@);
    Some(value as u16)
}

/// The groups that `text` lists with colons between them.
fn parse_group_list(text: &[char], ipv4_may_end: bool) -> (r: Option<Vec<u16>>)
    ensures
        match r {
            Some(g) => group_list(text@, ipv4_may_end) == Some(g@),
            None => group_list(text@, ipv4_may_end) is None,
        },
{
    let mut groups: Vec<u16> = Vec::new();
    if text.len() == 0 {
        return Some(groups);
    }
    let p: Vec<&[char]> = split_on(text, ':');
    let ghost spec_p = pieces(text@, only(':'));
    let ghost front = spec_p.drop_last();
    proof {
        lemma_pieces_non_empty(text@, only(':'));
        assert forall|i: int| 0 <= i < p@.len() implies #[trigger] spec_p[i] == p@[i]@ by {
            assert(texts(p@)[i] == p@[i]@);
        }
    }
    let last: usize = p.len() - 1;
    let mut k: usize = 0;
    while k < last
        invariant
            k <= last,
            last == p@.len() - 1,
            text@.len() > 0,
            spec_p == pieces(text@, only(':')),
            spec_p.len() == p@.len(),
            forall|i: int| 0 <= i < p@.len() ==> #[trigger] spec_p[i] == p@[i]@,
            front == spec_p.drop_last(),
            groups@.len() == k,
            forall|j: int|
                0 <= j < k ==> hex_group(#[trigger] front[j]) == Some(groups@[j]),
        decreases last - k,
    {
        match parse_hex_group(p[k]) {
            Some(g) => {
                groups.push(g);
            },
            None => {
                assert(hex_group(front[k as int]) is None);
                return None;
            },
        }
        k = k + 1;
    }
    let ghost first_groups = groups@;
    assert(first_groups =~= Seq::new(front.len(), |i: int| hex_group(front[i])->0));
    match parse_hex_group(p[last]) {
        Some(g) => {
            groups.push(g);
            assert(groups@ =~= first_groups + seq![g]);
            Some(groups)
        },
        None => {
            if !ipv4_may_end {
                return None;
            }
            match parse_ipv4(p[last]) {
                Some(v) => {
                    groups.push((v / 0x1_0000) as u16);
                    groups.push((v % 0x1_0000) as u16);
                    assert(groups@ =~= first_groups + seq![
                        (v / 0x1_0000) as u16,
                        (v % 0x1_0000) as u16,
                    ]);
                    Some(groups)
                },
                None => None,
            }
        },
    }
}

/// The eight groups around a double colon.
fn fill(head: Vec<u16>, tail: Vec<u16>) -> (r: Option<Vec<u16>>)
    ensures
        match r {
            Some(g) => filled(head@, tail@) == Some(g@),
            None => filled(head@, tail@) is None,
        },
{
    if head.len() > 7 || tail.len() > 7 - head.len() {
        return None;
    }
    let zeros: usize = 8 - head.len() - tail.len();
    let mut groups: Vec<u16> = head;
    let mut k: usize = 0;
    while k < zeros
        invariant
            k <= zeros,
            groups@ == head@ + Seq::new(k as nat, |i: int| 0u16),
        decreases zeros - k,
    {
        groups.push(0);
        k = k + 1;
        assert(groups@ =~= head@ + Seq::new(k as nat, |i: int| 0u16));
    }
    let mut rest: Vec<u16> = tail;
    groups.append(&mut rest);
    Some(groups)
}

/// The groups of the IPv6 address that `text` writes.
fn parse_ipv6_groups(text: &[char]) -> (r: Option<Vec<u16>>)
    ensures
        match r {
            Some(g) => ipv6_groups(text@) == Some(g@) && g@.len() == 8,
            None => ipv6_groups(text@) is None,
        },
{
    match find_text(text, "::") {
        Some(i) => {
            proof {
                reveal_strlit("::");
                assert(stands_at(text@, "::"@, i as int));
                let first = choose|j: int| first_stands_at(text@, "::"@, j);
                assert(first == i);
                assert(i + 2 <= text.len());
            }
            let head_text: &[char] = slice_subrange(text, 0, i);
            let tail_text: &[char] = slice_subrange(text, i + 2, text.len());
            assert(head_text@ =~= text@.take(i as int));
            assert(tail_text@ =~= text@.skip(i + 2));
            match (parse_group_list(head_text, false), parse_group_list(tail_text, true)) {
                (Some(head), Some(tail)) => fill(head, tail),
                _ => None,
            }
        },
        None => {
            match parse_group_list(text, true) {
                Some(groups) => {
                    if groups.len() == 8 {
                        Some(groups)
                    } else {
                        None
                    }
                },
                None => None,
            }
        },
    }
}

/// The number that four groups write.
fn quad(a: u16, b: u16, c: u16, d: u16) -> (r: u64)
    ensures
        r == quad_bits(seq![a, b, c, d]),
{
    a as u64 * 0x1_0000_0000_0000 + b as u64 * 0x1_0000_0000 + c as u64 * 0x1_0000 + d as u64
}

/// The number that eight groups write.
fn pack_groups(g: &Vec<u16>) -> (r: u128)
    requires
        g@.len() == 8,
    ensures
        r == ipv6_bits(g@),
{
    let high: u64 = quad(g[0], g[1], g[2], g[3]);
    let low: u64 = quad(g[4], g[5], g[6], g[7]);
    assert(g@.take(4) =~= seq![g@[0], g@[1], g@[2], g@[3]]);
    assert(g@.skip(4) =~= seq![g@[4], g@[5], g@[6], g@[7]]);
    high as u128 * 0x1_0000_0000_0000_0000 + low as u128
}

/// The IP address that `text` writes.
pub fn parse_ip_address(text: &[char]) -> (r: Option<IpAddress>)
    ensures
        r == ip_address(text@),
{
    match parse_ipv4(text) {
        Some(v) => Some(IpAddress::V4(v)),
        None => match parse_ipv6_groups(text) {
            Some(g) => Some(IpAddress::V6(pack_groups(&g))),
            None => None,
        },
    }
}

/// The number that four octets write.
pub fn pack_ipv4(octets: [u8; 4]) -> (r: u32)
    ensures
        r == ipv4_bits(octets@),
{
    octets[0] as u32 * 0x100_0000 + octets[1] as u32 * 0x1_0000 + octets[2] as u32 * 0x100
        + octets[3] as u32
}

/// The number that sixteen octets write.
pub fn pack_ipv6(octets: [u8; 16]) -> (r: u128)
    ensures
        r == ipv6_bits(octet_groups(octets@)),
{
    let mut groups: Vec<u16> = Vec::new();
    let mut k: usize = 0;
    while k < 8
        invariant
            k <= 8,
            groups@ == octet_groups(octets@).take(k as int),
        decreases 8 - k,
    {
        groups.push(octets[2 * k] as u16 * 0x100 + octets[2 * k + 1] as u16);
        k = k + 1;
        assert(groups@ =~= octet_groups(octets@).take(k as int));
    }
    assert(groups@ =~= octet_groups(octets@));
    pack_groups(&groups)
}

proof fn lemma_low_digit(base: int, high1: int, low1: int, high2: int, low2: int)
    requires
        base == 0x100 || base == 0x1_0000 || base == 0x1_0000_0000_0000_0000,
        high1 * base + low1 == high2 * base + low2,
        0 <= low1 < base,
        0 <= low2 < base,
    ensures
        high1 == high2,
        low1 == low2,
{
}

/// IPv4 addresses with one number have the same octets.
pub proof fn law_ipv4_bits_tell_addresses_apart(a: [u8; 4], b: [u8; 4])
    requires
        ipv4_bits(a@) == ipv4_bits(b@),
    ensures
        a == b,
{
    let a1 = a@[0] * 0x100 + a@[1];
    let b1 = b@[0] * 0x100 + b@[1];
    let a2 = a1 * 0x100 + a@[2];
    let b2 = b1 * 0x100 + b@[2];
    lemma_low_digit(0x100, a2, a@[3] as int, b2, b@[3] as int);
    lemma_low_digit(0x100, a1, a@[2] as int, b1, b@[2] as int);
    lemma_low_digit(0x100, a@[0] as int, a@[1] as int, b@[0] as int, b@[1] as int);
    assert(a@ =~= b@);
    assert(a =~= b);
}

/// Four groups that write one number are the same.
proof fn lemma_quad_bits_tell_apart(a: Seq<u16>, b: Seq<u16>)
    requires
        quad_bits(a) == quad_bits(b),
    ensures
        a[0] == b[0],
        a[1] == b[1],
        a[2] == b[2],
        a[3] == b[3],
{
    let a1 = a[0] * 0x1_0000 + a[1];
    let b1 = b[0] * 0x1_0000 + b[1];
    let a2 = a1 * 0x1_0000 + a[2];
    let b2 = b1 * 0x1_0000 + b[2];
    lemma_low_digit(0x1_0000, a2, a[3] as int, b2, b[3] as int);
    lemma_low_digit(0x1_0000, a1, a[2] as int, b1, b[2] as int);
    lemma_low_digit(0x1_0000, a[0] as int, a[1] as int, b[0] as int, b[1] as int);
}

/// IPv6 addresses with one number have the same octets.
pub proof fn law_ipv6_bits_tell_addresses_apart(a: [u8; 16], b: [u8; 16])
    requires
        ipv6_bits(octet_groups(a@)) == ipv6_bits(octet_groups(b@)),
    ensures
        a == b,
{
    let g = octet_groups(a@);
    let h = octet_groups(b@);
    lemma_low_digit(
        0x1_0000_0000_0000_0000,
        quad_bits(g.take(4)) as int,
        quad_bits(g.skip(4)) as int,
        quad_bits(h.take(4)) as int,
        quad_bits(h.skip(4)) as int,
    );
    lemma_quad_bits_tell_apart(g.take(4), h.take(4));
    lemma_quad_bits_tell_apart(g.skip(4), h.skip(4));
    assert forall|i: int| 0 <= i < 8 implies #[trigger] g[i] == h[i] by {
        if i < 4 {
            assert(g.take(4)[i] == h.take(4)[i]);
        } else {
            assert(g.skip(4)[i - 4] == h.skip(4)[i - 4]);
        }
    }
    assert forall|k: int| 0 <= k < 16 implies #[trigger] a@[k] == b@[k] by {
        let i = k / 2;
        assert(g[i] == h[i]);
        lemma_low_digit(
            0x100,
            a@[2 * i] as int,
            a@[2 * i + 1] as int,
            b@[2 * i] as int,
            b@[2 * i + 1] as int,
        );
    }
    assert(a@ =~= b@);
    assert(a =~= b);
}

} // verus!
