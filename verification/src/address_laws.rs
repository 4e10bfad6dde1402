//! What reading an address amounts to, in terms of writing one.

use crate::address::{
    filled, group_list, hex_digit_value, hex_group, hex_value, ip_address, ipv4, ipv4_bits,
    ipv6_bits, ipv6_groups, is_hex_digit, last_groups, octet, octet_groups, IpAddress,
};
use crate::number::{all_digits, is_digit};
use crate::text::{first_stands_at, occurs, only, pieces, stands_at};
use crate::text_laws::{
    digits_of, free_of, joined, law_pieces_join_back, law_pieces_of_joined_parts,
    lemma_digits_are_written, lemma_digits_of, zeros,
};
use vstd::prelude::*;

verus! {

/// The octets of a number that four octets write, the first one first.
pub proof fn law_ipv4_bits_keep_octets(o: Seq<u8>)
    requires
        o.len() == 4,
    ensures
        ipv4_bits(o) / 0x100_0000 == o[0],
        ipv4_bits(o) / 0x1_0000 % 0x100 == o[1],
        ipv4_bits(o) / 0x100 % 0x100 == o[2],
        ipv4_bits(o) % 0x100 == o[3],
{
    let n = ipv4_bits(o) as int;
    let (a, b, c, d) = (o[0] as int, o[1] as int, o[2] as int, o[3] as int);
    assert(n == a * 0x100_0000 + b * 0x1_0000 + c * 0x100 + d);
    lemma_octets_of_a_number(n, a, b, c, d);
}

proof fn lemma_octets_of_a_number(n: int, a: int, b: int, c: int, d: int)
    requires
        n == a * 0x100_0000 + b * 0x1_0000 + c * 0x100 + d,
        0 <= a < 0x100,
        0 <= b < 0x100,
        0 <= c < 0x100,
        0 <= d < 0x100,
    ensures
        n / 0x100_0000 == a,
        n / 0x1_0000 % 0x100 == b,
        n / 0x100 % 0x100 == c,
        n % 0x100 == d,
{
    let two = a * 0x100 + b;
    let three = two * 0x100 + c;
    assert(n / 0x100 == three);
    assert(n / 0x1_0000 == two);
    assert(n / 0x100_0000 == a);
}

/// An octet reads from its own digits, and from no other text.
pub proof fn law_octets_read_as_written(s: Seq<char>, v: u8)
    ensures
        octet(s) == Some(v) <==> s == digits_of(v as nat),
{
    lemma_digits_of(v as nat);
    reveal_with_fuel(digits_of, 4);
    if octet(s) == Some(v) {
        lemma_digits_are_written(s);
        let k = choose|k: nat| s == #[trigger] zeros(k) + digits_of(v as nat);
        if k > 0 {
            assert(s[0] == '0');
        }
        assert(s =~= digits_of(v as nat));
    }
}

/// The text of an IPv4 address: its four octets, with dots between them.
pub open spec fn ipv4_text(v: u32) -> Seq<char> {
    joined(ipv4_parts(v), '.')
}

/// The texts of the four octets of an IPv4 address.
pub open spec fn ipv4_parts(v: u32) -> Seq<Seq<char>> {
    seq![
        digits_of((v / 0x100_0000) as nat),
        digits_of((v / 0x1_0000 % 0x100) as nat),
        digits_of((v / 0x100 % 0x100) as nat),
        digits_of((v % 0x100) as nat),
    ]
}

proof fn lemma_ipv4_parts(v: u32)
    ensures
        free_of(ipv4_parts(v), '.'),
        forall|i: int| 0 <= i < 4 ==> all_digits(#[trigger] ipv4_parts(v)[i]),
        forall|i: int| 0 <= i < 4 ==> (#[trigger] ipv4_parts(v)[i]).len() > 0,
{
    lemma_digits_of((v / 0x100_0000) as nat);
    lemma_digits_of((v / 0x1_0000 % 0x100) as nat);
    lemma_digits_of((v / 0x100 % 0x100) as nat);
    lemma_digits_of((v % 0x100) as nat);
    assert forall|i: int| 0 <= i < 4 implies !(#[trigger] ipv4_parts(v)[i]).contains('.') by {
        let p = ipv4_parts(v)[i];
        assert(all_digits(p));
        if p.contains('.') {
            let k = choose|k: int| 0 <= k < p.len() && p[k] == '.';
            assert(is_digit(p[k]));
        }
    }
}

/// An IPv4 address reads from its own text, and from no other.
pub proof fn law_ipv4_reads_as_written(s: Seq<char>, v: u32)
    ensures
        ipv4(s) == Some(v) <==> s == ipv4_text(v),
{
    let p = pieces(s, only('.'));
    law_pieces_join_back(s, '.');
    if ipv4(s) == Some(v) {
        let o = seq![octet(p[0])->0, octet(p[1])->0, octet(p[2])->0, octet(p[3])->0];
        law_ipv4_bits_keep_octets(o);
        law_octets_read_as_written(p[0], o[0]);
        law_octets_read_as_written(p[1], o[1]);
        law_octets_read_as_written(p[2], o[2]);
        law_octets_read_as_written(p[3], o[3]);
        assert(p =~= ipv4_parts(v));
    }
    if s == ipv4_text(v) {
        lemma_ipv4_parts(v);
        law_pieces_of_joined_parts(ipv4_parts(v), '.');
        let o = seq![
            (v / 0x100_0000) as u8,
            (v / 0x1_0000 % 0x100) as u8,
            (v / 0x100 % 0x100) as u8,
            (v % 0x100) as u8,
        ];
        law_octets_read_as_written(p[0], o[0]);
        law_octets_read_as_written(p[1], o[1]);
        law_octets_read_as_written(p[2], o[2]);
        law_octets_read_as_written(p[3], o[3]);
        assert(seq![octet(p[0])->0, octet(p[1])->0, octet(p[2])->0, octet(p[3])->0] =~= o);
    }
}

/// The hexadecimal digit of a value below sixteen.
pub open spec fn hex_char(d: nat) -> char {
    seq!['0', '1', '2', '3', '4', '5', '6', '7', '8', '9', 'a', 'b', 'c', 'd', 'e', 'f'][d as int]
}

/// The hexadecimal digits that write a number, with no needless zero.
pub open spec fn hex_of(n: nat) -> Seq<char>
    decreases n,
{
    if n < 16 {
        seq![hex_char(n)]
    } else {
        hex_of(n / 16).push(hex_char(n % 16))
    }
}

/// The small letter for a capital one among the first six.
pub open spec fn small(c: char) -> char {
    if c == 'A' {
        'a'
    } else if c == 'B' {
        'b'
    } else if c == 'C' {
        'c'
    } else if c == 'D' {
        'd'
    } else if c == 'E' {
        'e'
    } else if c == 'F' {
        'f'
    } else {
        c
    }
}

/// The text with small letters.
pub open spec fn lowered(s: Seq<char>) -> Seq<char> {
    Seq::new(s.len(), |i: int| small(s[i]))
}

/// Does `s` write the group `g`: its hexadecimal digits in letters of either size,
/// behind any zeros, but no more than four characters?
pub open spec fn writes_group(s: Seq<char>, g: nat) -> bool {
    s.len() <= 4 && exists|k: nat| lowered(s) == #[trigger] zeros(k) + hex_of(g)
}

proof fn lemma_hex_char(d: nat)
    requires
        d < 16,
    ensures
        is_hex_digit(hex_char(d)),
        hex_digit_value(hex_char(d)) == d,
        small(hex_char(d)) == hex_char(d),
{
}

proof fn lemma_hex_char_of(c: char)
    requires
        is_hex_digit(c),
    ensures
        hex_digit_value(c) < 16,
        hex_char(hex_digit_value(c)) == small(c),
{
}

proof fn lemma_small(c: char)
    ensures
        is_hex_digit(small(c)) == is_hex_digit(c),
        is_hex_digit(c) ==> hex_digit_value(small(c)) == hex_digit_value(c),
        is_hex_digit(c) ==> c != ':' && c != '.',
{
}

/// Is every character a hexadecimal digit?
pub open spec fn all_hex(s: Seq<char>) -> bool {
    forall|i: int| 0 <= i < s.len() ==> is_hex_digit(#[trigger] s[i])
}

proof fn lemma_hex_of(n: nat)
    ensures
        hex_of(n).len() > 0,
        all_hex(hex_of(n)),
        hex_value(hex_of(n)) == n,
    decreases n,
{
    let s = hex_of(n);
    if n < 16 {
        lemma_hex_char(n);
        assert(s.drop_last() =~= Seq::<char>::empty());
        reveal_with_fuel(hex_value, 2);
    } else {
        lemma_hex_of(n / 16);
        lemma_hex_char(n % 16);
        assert(s.drop_last() =~= hex_of(n / 16));
    }
}

proof fn lemma_hex_behind_zeros(k: nat, s: Seq<char>)
    ensures
        hex_value(zeros(k) + s) == hex_value(s),
    decreases s.len(), k,
{
    let t = zeros(k) + s;
    if s.len() > 0 {
        assert(t.drop_last() =~= zeros(k) + s.drop_last());
        lemma_hex_behind_zeros(k, s.drop_last());
    } else if k > 0 {
        assert(t.drop_last() =~= zeros((k - 1) as nat) + s);
        lemma_hex_behind_zeros((k - 1) as nat, s);
    } else {
        assert(t =~= s);
    }
}

proof fn lemma_hex_is_written(s: Seq<char>)
    requires
        s.len() > 0,
        all_hex(s),
    ensures
        exists|k: nat| lowered(s) == #[trigger] zeros(k) + hex_of(hex_value(s)),
    decreases s.len(),
{
    let t = s.drop_last();
    let c = s.last();
    assert(is_hex_digit(s[s.len() - 1]));
    lemma_hex_char_of(c);
    let d = hex_digit_value(c);
    assert(hex_of(d) =~= seq![small(c)]);
    assert(lowered(s) =~= lowered(t).push(small(c)));
    if t.len() == 0 {
        reveal_with_fuel(hex_value, 2);
        assert(lowered(s) =~= zeros(0) + hex_of(d));
    } else {
        assert forall|i: int| 0 <= i < t.len() implies is_hex_digit(#[trigger] t[i]) by {
            assert(t[i] == s[i]);
        }
        lemma_hex_is_written(t);
        let v = hex_value(t);
        let k = choose|k: nat| lowered(t) == #[trigger] zeros(k) + hex_of(v);
        if v == 0 {
            assert(hex_of(0) =~= seq!['0']);
            assert(lowered(s) =~= zeros((k + 1) as nat) + hex_of(d));
        } else {
            assert((v * 16 + d) / 16 == v && (v * 16 + d) % 16 == d);
            assert(hex_of(v * 16 + d) == hex_of(v).push(small(c)));
            assert(lowered(s) =~= zeros(k) + hex_of(v * 16 + d));
        }
    }
}

proof fn lemma_lowered_value(s: Seq<char>)
    requires
        all_hex(s),
    ensures
        hex_value(lowered(s)) == hex_value(s),
    decreases s.len(),
{
    if s.len() > 0 {
        let t = s.drop_last();
        assert forall|i: int| 0 <= i < t.len() implies is_hex_digit(#[trigger] t[i]) by {
            assert(t[i] == s[i]);
        }
        lemma_lowered_value(t);
        assert(lowered(s).drop_last() =~= lowered(t));
        assert(is_hex_digit(s[s.len() - 1]));
        lemma_small(s.last());
    } else {
        assert(lowered(s) =~= s);
    }
}

proof fn lemma_four_hex_digits(s: Seq<char>)
    requires
        s.len() <= 4,
        all_hex(s),
    ensures
        hex_value(s) <= 0xffff,
{
    reveal_with_fuel(hex_value, 5);
    assert forall|i: int| 0 <= i < s.len() implies hex_digit_value(#[trigger] s[i]) < 16 by {
        lemma_hex_char_of(s[i]);
    }
}

/// A group reads from the texts that write it, and from no others.
pub proof fn law_groups_read_as_written(s: Seq<char>, g: u16)
    ensures
        hex_group(s) == Some(g) <==> writes_group(s, g as nat),
{
    if hex_group(s) == Some(g) {
        assert(all_hex(s));
        lemma_four_hex_digits(s);
        lemma_hex_is_written(s);
    }
    if writes_group(s, g as nat) {
        let k = choose|k: nat| lowered(s) == #[trigger] zeros(k) + hex_of(g as nat);
        lemma_hex_of(g as nat);
        lemma_hex_behind_zeros(k, hex_of(g as nat));
        assert forall|i: int| 0 <= i < s.len() implies is_hex_digit(#[trigger] s[i]) by {
            assert(lowered(s)[i] == small(s[i]));
            if i >= k {
                assert(lowered(s)[i] == hex_of(g as nat)[i - k]);
            } else {
                assert(lowered(s)[i] == '0');
            }
            lemma_small(s[i]);
        }
        assert(lowered(s).len() == s.len());
        lemma_lowered_value(s);
    }
}

/// Do the parts write the groups, one each?
pub open spec fn lists(parts: Seq<Seq<char>>, g: Seq<u16>) -> bool {
    parts.len() == g.len() && forall|i: int|
        0 <= i < parts.len() ==> writes_group(#[trigger] parts[i], g[i] as nat)
}

/// Does `s` write the groups, with colons between them?
pub open spec fn writes_hex_list(s: Seq<char>, g: Seq<u16>) -> bool {
    exists|parts: Seq<Seq<char>>| s == joined(parts, ':') && #[trigger] lists(parts, g)
}

/// Does `s` write the groups, the last two of them as an IPv4 address?
pub open spec fn writes_mixed_list(s: Seq<char>, g: Seq<u16>) -> bool {
    g.len() >= 2 && exists|parts: Seq<Seq<char>>|
        s == joined(
            parts.push(ipv4_text((g[g.len() - 2] * 0x1_0000 + g[g.len() - 1]) as u32)),
            ':',
        ) && #[trigger] lists(parts, g.take(g.len() - 2))
}

/// Does `s` write the groups, where the last two may be written as an IPv4 address?
pub open spec fn writes_list(s: Seq<char>, g: Seq<u16>, ipv4_may_end: bool) -> bool {
    writes_hex_list(s, g) || (ipv4_may_end && writes_mixed_list(s, g))
}

/// Is no part empty, and `x` in none?
pub open spec fn solid(parts: Seq<Seq<char>>, x: char) -> bool {
    free_of(parts, x) && forall|i: int| 0 <= i < parts.len() ==> (#[trigger] parts[i]).len() > 0
}

proof fn lemma_writes_group_solid(s: Seq<char>, g: u16)
    requires
        writes_group(s, g as nat),
    ensures
        hex_group(s) == Some(g),
        s.len() > 0,
        !s.contains(':'),
{
    law_groups_read_as_written(s, g);
    if s.contains(':') {
        let k = choose|k: int| 0 <= k < s.len() && s[k] == ':';
        assert(is_hex_digit(s[k]));
    }
}

proof fn lemma_lists_solid(parts: Seq<Seq<char>>, g: Seq<u16>)
    requires
        lists(parts, g),
    ensures
        solid(parts, ':'),
        forall|i: int| 0 <= i < parts.len() ==> hex_group(#[trigger] parts[i]) == Some(g[i]),
{
    assert forall|i: int| 0 <= i < parts.len() implies hex_group(#[trigger] parts[i]) == Some(g[i])
        && parts[i].len() > 0 && !parts[i].contains(':') by {
        lemma_writes_group_solid(parts[i], g[i]);
    }
}

proof fn lemma_joined_chars(parts: Seq<Seq<char>>, x: char, c: char)
    requires
        joined(parts, x).contains(c),
    ensures
        c == x || exists|i: int| 0 <= i < parts.len() && (#[trigger] parts[i]).contains(c),
    decreases parts.len(),
{
    let s = joined(parts, x);
    let k = choose|k: int| 0 <= k < s.len() && s[k] == c;
    if parts.len() == 1 {
        assert(parts[0].contains(c));
    } else if parts.len() > 1 {
        let before = joined(parts.drop_last(), x);
        if k < before.len() {
            assert(before[k] == c);
            assert(before.contains(c));
            lemma_joined_chars(parts.drop_last(), x, c);
            if c != x {
                let i = choose|i: int|
                    0 <= i < parts.len() - 1 && (#[trigger] parts.drop_last()[i]).contains(c);
                assert(parts[i].contains(c));
            }
        } else if k > before.len() {
            assert(parts.last()[k - before.len() - 1] == c);
            assert(parts[parts.len() - 1].contains(c));
        }
    }
}

proof fn lemma_ipv4_text_chars(v: u32)
    ensures
        !ipv4_text(v).contains(':'),
        ipv4_text(v).contains('.'),
        ipv4_text(v).len() > 0,
        hex_group(ipv4_text(v)) is None,
{
    let s = ipv4_text(v);
    let parts = ipv4_parts(v);
    lemma_ipv4_parts(v);
    if s.contains(':') {
        lemma_joined_chars(parts, '.', ':');
        let i = choose|i: int| 0 <= i < parts.len() && (#[trigger] parts[i]).contains(':');
        let k = choose|k: int| 0 <= k < parts[i].len() && parts[i][k] == ':';
        assert(is_digit(parts[i][k]));
    }
    let before = joined(parts.drop_last(), '.');
    assert(s[before.len() as int] == '.');
    assert(!is_hex_digit(s[before.len() as int]));
}

/// Parts that are not empty, and without the separator, are joined to a text in
/// which no two separators meet, and none stands at an end.
proof fn lemma_joined_solid(parts: Seq<Seq<char>>, x: char)
    requires
        solid(parts, x),
    ensures
        parts.len() > 0 ==> joined(parts, x).len() > 0 && joined(parts, x)[0] != x && joined(
            parts,
            x,
        ).last() != x,
        parts.len() > 1 ==> joined(parts, x).contains(x),
        forall|j: int|
            0 <= j < joined(parts, x).len() - 1 && #[trigger] joined(parts, x)[j] == x ==> joined(
                parts,
                x,
            )[j + 1] != x,
    decreases parts.len(),
{
    let s = joined(parts, x);
    if parts.len() == 1 {
        assert forall|j: int| 0 <= j < s.len() implies #[trigger] s[j] != x by {
            assert(!parts[0].contains(x));
        }
    } else if parts.len() > 1 {
        let rest = parts.drop_last();
        let last = parts[parts.len() - 1];
        let before = joined(rest, x);
        assert forall|i: int| 0 <= i < rest.len() implies !(#[trigger] rest[i]).contains(x)
            && rest[i].len() > 0 by {
            assert(rest[i] == parts[i]);
        }
        lemma_joined_solid(rest, x);
        assert(last.len() > 0 && !last.contains(x));
        assert(s == before.push(x) + last);
        assert(s[0] == before[0]);
        assert(s.last() == last[last.len() - 1]);
        assert(s[before.len() as int] == x);
        assert forall|j: int| 0 <= j < s.len() - 1 && #[trigger] s[j] == x implies s[j + 1]
            != x by {
            if j + 1 < before.len() {
                assert(before[j] == x);
            } else if j + 1 == before.len() {
                assert(before[j] == x);
                assert(before.last() != x);
            } else if j == before.len() {
                assert(s[j + 1] == last[0]);
            } else {
                assert(s[j] == last[j - before.len() - 1]);
            }
        }
    }
}

proof fn lemma_writes_list_solid(s: Seq<char>, g: Seq<u16>, ipv4_may_end: bool)
    requires
        writes_list(s, g, ipv4_may_end),
    ensures
        exists|parts: Seq<Seq<char>>| #[trigger] solid(parts, ':') && s == joined(parts, ':') && (
        parts.len() == 0 ==> g.len() == 0) && (g.len() > 2 ==> parts.len() > 1),
{
    if writes_hex_list(s, g) {
        let parts = choose|parts: Seq<Seq<char>>|
            s == joined(parts, ':') && #[trigger] lists(parts, g);
        lemma_lists_solid(parts, g);
        assert(solid(parts, ':'));
    } else {
        let v = (g[g.len() - 2] * 0x1_0000 + g[g.len() - 1]) as u32;
        let parts = choose|parts: Seq<Seq<char>>|
            s == joined(parts.push(ipv4_text(v)), ':') && #[trigger] lists(
                parts,
                g.take(g.len() - 2),
            );
        lemma_lists_solid(parts, g.take(g.len() - 2));
        lemma_ipv4_text_chars(v);
        let more = parts.push(ipv4_text(v));
        assert forall|i: int| 0 <= i < more.len() implies !(#[trigger] more[i]).contains(':')
            && more[i].len() > 0 by {
            if i < parts.len() {
                assert(more[i] == parts[i]);
            }
        }
        assert(solid(more, ':'));
    }
}

/// A list of groups reads from the texts that write it, and from no others.
pub proof fn law_group_lists_read_as_written(s: Seq<char>, ipv4_may_end: bool, g: Seq<u16>)
    ensures
        group_list(s, ipv4_may_end) == Some(g) <==> writes_list(s, g, ipv4_may_end),
{
    if group_list(s, ipv4_may_end) == Some(g) {
        lemma_group_list_is_written(s, ipv4_may_end);
    }
    if writes_hex_list(s, g) {
        lemma_hex_list_reads(s, ipv4_may_end, g);
    } else if ipv4_may_end && writes_mixed_list(s, g) {
        lemma_mixed_list_reads(s, g);
    }
}

proof fn lemma_group_list_is_written(s: Seq<char>, ipv4_may_end: bool)
    requires
        group_list(s, ipv4_may_end) is Some,
    ensures
        writes_list(s, group_list(s, ipv4_may_end)->0, ipv4_may_end),
{
    let g = group_list(s, ipv4_may_end)->0;
    let p = pieces(s, only(':'));
    let front = p.drop_last();
    if s.len() == 0 {
        let none = Seq::<Seq<char>>::empty();
        assert(joined(none, ':') =~= s);
        assert(lists(none, g));
    } else {
        law_pieces_join_back(s, ':');
        assert(front.push(p.last()) =~= p);
        assert forall|i: int| 0 <= i < front.len() implies writes_group(
            #[trigger] front[i],
            g[i] as nat,
        ) by {
            law_groups_read_as_written(front[i], g[i]);
        }
        match hex_group(p.last()) {
            Some(x) => {
                law_groups_read_as_written(p.last(), x);
                assert forall|i: int| 0 <= i < p.len() implies writes_group(
                    #[trigger] p[i],
                    g[i] as nat,
                ) by {
                    if i < front.len() {
                        assert(p[i] == front[i]);
                    }
                }
                assert(lists(p, g));
            },
            None => {
                let v = ipv4(p.last())->0;
                law_ipv4_reads_as_written(p.last(), v);
                assert(g[g.len() - 2] == (v / 0x1_0000) as u16);
                assert(g[g.len() - 1] == (v % 0x1_0000) as u16);
                assert((g[g.len() - 2] * 0x1_0000 + g[g.len() - 1]) as u32 == v);
                assert(lists(front, g.take(g.len() - 2)));
            },
        }
    }
}

proof fn lemma_hex_list_reads(s: Seq<char>, ipv4_may_end: bool, g: Seq<u16>)
    requires
        writes_hex_list(s, g),
    ensures
        group_list(s, ipv4_may_end) == Some(g),
{
    let parts = choose|parts: Seq<Seq<char>>| s == joined(parts, ':') && #[trigger] lists(parts, g);
    lemma_lists_solid(parts, g);
    if parts.len() == 0 {
        assert(g =~= Seq::<u16>::empty());
    } else {
        lemma_joined_solid(parts, ':');
        law_pieces_of_joined_parts(parts, ':');
        let front = parts.drop_last();
        assert forall|i: int| 0 <= i < front.len() implies hex_group(#[trigger] front[i]) == Some(
            g[i],
        ) by {
            assert(front[i] == parts[i]);
        }
        assert(hex_group(parts[parts.len() - 1]) == Some(g[parts.len() - 1]));
        assert(Seq::new(front.len(), |i: int| hex_group(front[i])->0) + seq![g[parts.len() - 1]]
            =~= g);
    }
}

proof fn lemma_mixed_list_reads(s: Seq<char>, g: Seq<u16>)
    requires
        writes_mixed_list(s, g),
    ensures
        group_list(s, true) == Some(g),
{
    let v = (g[g.len() - 2] * 0x1_0000 + g[g.len() - 1]) as u32;
    let parts = choose|parts: Seq<Seq<char>>|
        s == joined(parts.push(ipv4_text(v)), ':') && #[trigger] lists(parts, g.take(g.len() - 2));
    lemma_lists_solid(parts, g.take(g.len() - 2));
    lemma_ipv4_text_chars(v);
    law_ipv4_reads_as_written(ipv4_text(v), v);
    let more = parts.push(ipv4_text(v));
    assert forall|i: int| 0 <= i < more.len() implies !(#[trigger] more[i]).contains(':')
        && more[i].len() > 0 by {
        if i < parts.len() {
            assert(more[i] == parts[i]);
        }
    }
    lemma_joined_solid(more, ':');
    law_pieces_of_joined_parts(more, ':');
    assert(more.drop_last() =~= parts);
    assert(more.last() == ipv4_text(v));
    assert(v / 0x1_0000 == g[g.len() - 2]);
    assert(v % 0x1_0000 == g[g.len() - 1]);
    assert forall|i: int| 0 <= i < parts.len() implies hex_group(#[trigger] parts[i]) == Some(
        g[i],
    ) by {
        assert(g.take(g.len() - 2)[i] == g[i]);
    }
    assert(Seq::new(parts.len(), |i: int| hex_group(parts[i])->0) + last_groups(
        ipv4_text(v),
        true,
    )->0 =~= g);
}

/// Are these the eight groups that begin with `head`, end with `tail`, and are zero
/// between?
pub open spec fn gapped(g: Seq<u16>, head: Seq<u16>, tail: Seq<u16>) -> bool {
    &&& g.len() == 8
    &&& head.len() + tail.len() <= 7
    &&& forall|i: int| 0 <= i < head.len() ==> #[trigger] g[i] == head[i]
    &&& forall|j: int| 0 <= j < tail.len() ==> g[8 - tail.len() + j] == #[trigger] tail[j]
    &&& forall|i: int| head.len() <= i < 8 - tail.len() ==> #[trigger] g[i] == 0
}

/// A gap is filled with zeros between what stands before it and what stands behind
/// it, where there is room for at least one.
pub proof fn law_gaps_are_filled_with_zeros(head: Seq<u16>, tail: Seq<u16>)
    ensures
        filled(head, tail) is Some <==> head.len() + tail.len() <= 7,
        filled(head, tail) matches Some(g) ==> gapped(g, head, tail),
{
}

/// Does `s` write the head and the tail with a double colon between them?
pub open spec fn writes_gapped(
    s: Seq<char>,
    before: Seq<char>,
    behind: Seq<char>,
    head: Seq<u16>,
    tail: Seq<u16>,
) -> bool {
    s == before + seq![':', ':'] + behind && writes_list(before, head, false) && writes_list(
        behind,
        tail,
        true,
    )
}

/// Does `s` write the eight groups of an IPv6 address: all of them, or those on the
/// two sides of a double colon that stands for zeros?
pub open spec fn writes_ipv6(s: Seq<char>, g: Seq<u16>) -> bool {
    ||| g.len() == 8 && writes_list(s, g, true)
    ||| exists|before: Seq<char>, behind: Seq<char>, head: Seq<u16>, tail: Seq<u16>| #[trigger]
        writes_gapped(s, before, behind, head, tail) && gapped(g, head, tail)
}

proof fn lemma_double_colon(s: Seq<char>, i: int)
    ensures
        "::"@ == seq![':', ':'],
        stands_at(s, "::"@, i) <==> 0 <= i < s.len() - 1 && s[i] == ':' && s[i + 1] == ':',
{
    reveal_strlit("::");
    assert("::"@ =~= seq![':', ':']);
    if 0 <= i < s.len() - 1 {
        let here = s.subrange(i, i + 2);
        assert(here[0] == s[i] && here[1] == s[i + 1]);
        if s[i] == ':' && s[i + 1] == ':' {
            assert(here =~= "::"@);
        }
    }
}

proof fn lemma_list_has_no_double_colon(s: Seq<char>, g: Seq<u16>, ipv4_may_end: bool)
    requires
        writes_list(s, g, ipv4_may_end),
    ensures
        !occurs(s, "::"@),
        s.len() > 0 ==> s.last() != ':',
        g.len() > 2 ==> s.contains(':'),
{
    lemma_writes_list_solid(s, g, ipv4_may_end);
    let parts = choose|parts: Seq<Seq<char>>| #[trigger]
        solid(parts, ':') && s == joined(parts, ':') && (parts.len() == 0 ==> g.len() == 0) && (
        g.len() > 2 ==> parts.len() > 1);
    lemma_joined_solid(parts, ':');
    assert forall|i: int| !stands_at(s, "::"@, i) by {
        lemma_double_colon(s, i);
    }
}

/// An IPv6 address reads from the texts that write it, and from no others.
pub proof fn law_ipv6_reads_as_written(s: Seq<char>, g: Seq<u16>)
    ensures
        ipv6_groups(s) == Some(g) <==> writes_ipv6(s, g),
{
    lemma_double_colon(s, 0);
    if ipv6_groups(s) == Some(g) {
        if occurs(s, "::"@) {
            lemma_first_double_colon(s);
            let i = choose|i: int| first_stands_at(s, "::"@, i);
            lemma_double_colon(s, i);
            let before = s.take(i);
            let behind = s.skip(i + 2);
            let head = group_list(before, false)->0;
            let tail = group_list(behind, true)->0;
            law_group_lists_read_as_written(before, false, head);
            law_group_lists_read_as_written(behind, true, tail);
            assert(s =~= before + seq![':', ':'] + behind);
            law_gaps_are_filled_with_zeros(head, tail);
            assert(writes_gapped(s, before, behind, head, tail) && gapped(g, head, tail));
        } else {
            law_group_lists_read_as_written(s, true, g);
        }
    }
    if g.len() == 8 && writes_list(s, g, true) {
        law_group_lists_read_as_written(s, true, g);
        lemma_list_has_no_double_colon(s, g, true);
    } else if writes_ipv6(s, g) {
        let (before, behind, head, tail) = choose|
            before: Seq<char>,
            behind: Seq<char>,
            head: Seq<u16>,
            tail: Seq<u16>,
        | #[trigger]
            writes_gapped(s, before, behind, head, tail) && gapped(g, head, tail);
        lemma_gapped_reads(s, before, behind, head, tail);
        law_gaps_are_filled_with_zeros(head, tail);
        assert(filled(head, tail)->0 =~= g) by {
            let f = filled(head, tail)->0;
            assert forall|i: int| 0 <= i < 8 implies f[i] == g[i] by {
                if i >= 8 - tail.len() {
                    let j = i - (8 - tail.len());
                    assert(f[8 - tail.len() + j] == tail[j]);
                }
            }
        }
    }
}

proof fn lemma_first_double_colon(s: Seq<char>)
    requires
        occurs(s, "::"@),
    ensures
        exists|i: int| first_stands_at(s, "::"@, i),
{
    let i = choose|i: int| stands_at(s, "::"@, i);
    lemma_first_from(s, i);
}

proof fn lemma_first_from(s: Seq<char>, i: int)
    requires
        stands_at(s, "::"@, i),
    ensures
        exists|k: int| first_stands_at(s, "::"@, k),
    decreases i,
{
    if exists|j: int| j < i && stands_at(s, "::"@, j) {
        let j = choose|j: int| j < i && stands_at(s, "::"@, j);
        lemma_first_from(s, j);
    } else {
        assert(first_stands_at(s, "::"@, i));
    }
}

proof fn lemma_gapped_reads(
    s: Seq<char>,
    before: Seq<char>,
    behind: Seq<char>,
    head: Seq<u16>,
    tail: Seq<u16>,
)
    requires
        writes_gapped(s, before, behind, head, tail),
    ensures
        ipv6_groups(s) == filled(head, tail),
{
    let n = before.len() as int;
    lemma_double_colon(s, n);
    assert(s[n] == ':' && s[n + 1] == ':');
    assert(stands_at(s, "::"@, n));
    lemma_list_has_no_double_colon(before, head, false);
    assert forall|j: int| j < n implies !stands_at(s, "::"@, j) by {
        lemma_double_colon(s, j);
        lemma_double_colon(before, j);
        if 0 <= j {
            assert(s[j] == before[j]);
            if j + 1 < n {
                assert(s[j + 1] == before[j + 1]);
                assert(!stands_at(before, "::"@, j));
            }
        }
    }
    assert(first_stands_at(s, "::"@, n));
    let i = choose|i: int| first_stands_at(s, "::"@, i);
    assert(i == n);
    assert(s.take(n) =~= before);
    assert(s.skip(n + 2) =~= behind);
    law_group_lists_read_as_written(before, false, head);
    law_group_lists_read_as_written(behind, true, tail);
}

/// A double colon reads as the zeros that it stands for, written out.
pub proof fn law_double_colon_stands_for_zeros(
    before: Seq<Seq<char>>,
    behind: Seq<Seq<char>>,
    head: Seq<u16>,
    tail: Seq<u16>,
)
    requires
        lists(before, head),
        lists(behind, tail),
        head.len() + tail.len() <= 7,
    ensures
        ({
            let out = Seq::new((8 - head.len() - tail.len()) as nat, |i: int| seq!['0']);
            let short = joined(before, ':') + seq![':', ':'] + joined(behind, ':');
            let long = joined(before + out + behind, ':');
            &&& ipv6_groups(short) is Some
            &&& ipv6_groups(short) == ipv6_groups(long)
            &&& ip_address(short) == ip_address(long)
        }),
{
    let k = (8 - head.len() - tail.len()) as nat;
    let out = Seq::new(k, |i: int| seq!['0']);
    let short = joined(before, ':') + seq![':', ':'] + joined(behind, ':');
    let all = before + out + behind;
    let long = joined(all, ':');
    let g = head + Seq::new(k, |i: int| 0u16) + tail;
    assert(writes_hex_list(joined(before, ':'), head));
    assert(writes_hex_list(joined(behind, ':'), tail));
    assert(writes_gapped(short, joined(before, ':'), joined(behind, ':'), head, tail));
    assert(gapped(g, head, tail));
    law_ipv6_reads_as_written(short, g);
    assert(hex_of(0) =~= seq!['0']);
    assert(lowered(seq!['0']) =~= zeros(0) + hex_of(0));
    assert(writes_group(seq!['0'], 0));
    assert forall|i: int| 0 <= i < all.len() implies writes_group(
        #[trigger] all[i],
        g[i] as nat,
    ) by {
        if i < before.len() {
            assert(all[i] == before[i]);
        } else if i < before.len() + k {
            assert(all[i] == seq!['0']);
        } else {
            assert(all[i] == behind[i - before.len() - k]);
        }
    }
    assert(lists(all, g));
    assert(writes_hex_list(long, g));
    law_ipv6_reads_as_written(long, g);
    lemma_ipv6_text_is_no_ipv4(short, g);
    lemma_ipv6_text_is_no_ipv4(long, g);
}

proof fn lemma_ipv6_text_is_no_ipv4(s: Seq<char>, g: Seq<u16>)
    requires
        writes_ipv6(s, g),
    ensures
        ipv4(s) is None,
{
    if g.len() == 8 && writes_list(s, g, true) {
        lemma_list_has_no_double_colon(s, g, true);
    } else {
        let (before, behind, head, tail) = choose|
            before: Seq<char>,
            behind: Seq<char>,
            head: Seq<u16>,
            tail: Seq<u16>,
        | #[trigger]
            writes_gapped(s, before, behind, head, tail) && gapped(g, head, tail);
        assert(s[before.len() as int] == ':');
    }
    assert(s.contains(':'));
    if ipv4(s) is Some {
        law_ipv4_reads_as_written(s, ipv4(s)->0);
        lemma_ipv4_text_chars(ipv4(s)->0);
    }
}

/// The number that eight groups write, the first one first.
pub open spec fn groups_value(g: Seq<u16>) -> int {
    g[0] * 0x1_0000_0000_0000_0000_0000_0000_0000 + g[1] * 0x1_0000_0000_0000_0000_0000_0000 + g[2]
        * 0x1_0000_0000_0000_0000_0000 + g[3] * 0x1_0000_0000_0000_0000 + g[4]
        * 0x1_0000_0000_0000 + g[5] * 0x1_0000_0000 + g[6] * 0x1_0000 + g[7]
}

/// The number of an IPv6 address is the one that its eight groups write.
pub proof fn law_ipv6_bits_keep_groups(g: Seq<u16>)
    requires
        g.len() == 8,
    ensures
        ipv6_bits(g) == groups_value(g),
{
}

/// A group is two octets, the first of them above the second.
pub proof fn law_groups_keep_octets(o: Seq<u8>, i: int)
    requires
        o.len() == 16,
        0 <= i < 8,
    ensures
        octet_groups(o).len() == 8,
        octet_groups(o)[i] / 0x100 == o[2 * i],
        octet_groups(o)[i] % 0x100 == o[2 * i + 1],
{
}

/// An IP address reads from the texts that write it, and from no others.
pub proof fn law_addresses_read_as_written(s: Seq<char>, v: u32, bits: u128)
    ensures
        ip_address(s) == Some(IpAddress::V4(v)) <==> s == ipv4_text(v),
        ip_address(s) == Some(IpAddress::V6(bits)) <==> exists|g: Seq<u16>| #[trigger]
            writes_ipv6(s, g) && bits == groups_value(g),
{
    law_ipv4_reads_as_written(s, v);
    if ip_address(s) == Some(IpAddress::V6(bits)) {
        let g = ipv6_groups(s)->0;
        law_ipv6_reads_as_written(s, g);
        law_ipv6_bits_keep_groups(g);
    }
    if exists|g: Seq<u16>| #[trigger] writes_ipv6(s, g) && bits == groups_value(g) {
        let g = choose|g: Seq<u16>| #[trigger] writes_ipv6(s, g) && bits == groups_value(g);
        law_ipv6_reads_as_written(s, g);
        lemma_ipv6_text_is_no_ipv4(s, g);
        law_ipv6_bits_keep_groups(g);
    }
}

} // verus!
