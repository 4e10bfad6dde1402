//! What a flow tells of the words of its entry.

use crate::address::IpAddress;
use crate::entry::{address_field, entry, number16_field, number64_field, tcp_state};
use crate::entry_laws::{
    first_given, first_two_given, law_address_fields, law_number16_fields, law_number64_fields,
    lemma_kept_from_first, lemma_nothing_kept, lemma_two_kept, lemma_two_kept_stand_somewhere,
    shows_address, shows_number, shows_some_address,
};
use crate::flows::{
    flow, flow_views, flows, is_flag, line_flow, ConnectionFlowDetail, FlowView,
};
use crate::laws::lemma_filter_map_add;
use crate::number::{all_digits, decimal_value};
use crate::text_laws::{
    free_of, joined, law_lines_of_joined_lines, lemma_digits_are_written, writes_number,
};
use vstd::prelude::*;

verus! {

/// Is the word the key with a number up to `max` behind it?
pub open spec fn shows_some_number(word: Seq<char>, key: Seq<char>, max: nat) -> bool {
    exists|n: nat| n <= max && #[trigger] shows_number(word, key, n)
}

/// Are the addresses behind the first two `key`s that have one `a`, in the word at
/// `i`, and `b`, in the word at `j`?
pub open spec fn addresses_at(
    words: Seq<Seq<char>>,
    key: Seq<char>,
    i: int,
    j: int,
    a: IpAddress,
    b: IpAddress,
) -> bool {
    &&& 0 <= i < j < words.len()
    &&& shows_address(words[i], key, a)
    &&& shows_address(words[j], key, b)
    &&& forall|k: int| 0 <= k < j && k != i ==> !shows_some_address(#[trigger] words[k], key)
}

/// Are the numbers up to `max` behind the first two `key`s that have one `m`, in the
/// word at `i`, and `n`, in the word at `j`?
pub open spec fn numbers_at(
    words: Seq<Seq<char>>,
    key: Seq<char>,
    max: nat,
    i: int,
    j: int,
    m: nat,
    n: nat,
) -> bool {
    &&& 0 <= i < j < words.len()
    &&& m <= max
    &&& n <= max
    &&& shows_number(words[i], key, m)
    &&& shows_number(words[j], key, n)
    &&& forall|k: int| 0 <= k < j && k != i ==> !shows_some_number(#[trigger] words[k], key, max)
}

proof fn lemma_addresses_at(
    words: Seq<Seq<char>>,
    key: Seq<char>,
    i: int,
    j: int,
    a: IpAddress,
    b: IpAddress,
)
    ensures
        addresses_at(words, key, i, j, a, b) <==> first_two_given(words, address_field(key), i, j)
            && address_field(key)(words[i]) == Some(a) && address_field(key)(words[j]) == Some(b),
{
    let f = address_field(key);
    assert forall|w: Seq<char>| f(w) is None <==> !(#[trigger] shows_some_address(w, key)) by {
        if f(w) is Some {
            law_address_fields(w, key, f(w)->0);
        }
        if shows_some_address(w, key) {
            let c = choose|c: IpAddress| shows_address(w, key, c);
            law_address_fields(w, key, c);
        }
    }
    law_address_fields(words[i], key, a);
    law_address_fields(words[j], key, b);
    if first_two_given(words, f, i, j) {
        assert forall|k: int| 0 <= k < j && k != i implies !shows_some_address(
            #[trigger] words[k],
            key,
        ) by {
            assert(f(words[k]) is None);
        }
    }
    if addresses_at(words, key, i, j, a, b) {
        assert forall|k: int| 0 <= k < j && k != i implies f(#[trigger] words[k]) is None by {
            assert(!shows_some_address(words[k], key));
        }
    }
}

proof fn lemma_no_number16(w: Seq<char>, key: Seq<char>)
    ensures
        number16_field(key)(w) is None <==> !shows_some_number(w, key, u16::MAX as nat),
{
    let f = number16_field(key);
    if f(w) is Some {
        law_number16_fields(w, key, f(w)->0);
    }
    if shows_some_number(w, key, u16::MAX as nat) {
        let n = choose|n: nat| n <= u16::MAX && #[trigger] shows_number(w, key, n);
        law_number16_fields(w, key, n as u16);
    }
}

proof fn lemma_no_number64(w: Seq<char>, key: Seq<char>)
    ensures
        number64_field(key)(w) is None <==> !shows_some_number(w, key, u64::MAX as nat),
{
    let f = number64_field(key);
    if f(w) is Some {
        law_number64_fields(w, key, f(w)->0);
    }
    if shows_some_number(w, key, u64::MAX as nat) {
        let n = choose|n: nat| n <= u64::MAX && #[trigger] shows_number(w, key, n);
        law_number64_fields(w, key, n as u64);
    }
}

proof fn lemma_numbers16_at(words: Seq<Seq<char>>, key: Seq<char>, i: int, j: int, m: u16, n: u16)
    ensures
        numbers_at(words, key, u16::MAX as nat, i, j, m as nat, n as nat) <==> first_two_given(
            words,
            number16_field(key),
            i,
            j,
        ) && number16_field(key)(words[i]) == Some(m) && number16_field(key)(words[j]) == Some(n),
{
    let f = number16_field(key);
    assert forall|w: Seq<char>|
        f(w) is None <==> !(#[trigger] shows_some_number(w, key, u16::MAX as nat)) by {
        lemma_no_number16(w, key);
    }
    law_number16_fields(words[i], key, m);
    law_number16_fields(words[j], key, n);
    if first_two_given(words, f, i, j) {
        assert forall|k: int| 0 <= k < j && k != i implies !shows_some_number(
            #[trigger] words[k],
            key,
            u16::MAX as nat,
        ) by {
            assert(f(words[k]) is None);
        }
    }
    if numbers_at(words, key, u16::MAX as nat, i, j, m as nat, n as nat) {
        assert forall|k: int| 0 <= k < j && k != i implies f(#[trigger] words[k]) is None by {
            assert(!shows_some_number(words[k], key, u16::MAX as nat));
        }
    }
}

/// The addresses of a flow are those behind the first two `src=` and the first two
/// `dst=` that have one: the originator's first, then the reply's.
pub proof fn law_flow_addresses(
    words: Seq<Seq<char>>,
    i: int,
    j: int,
    a: IpAddress,
    b: IpAddress,
    f: FlowView,
)
    requires
        flow(words) == Some(f),
    ensures
        addresses_at(words, "src="@, i, j, a, b) ==> f.orig_src == a && f.repl_src == b,
        addresses_at(words, "dst="@, i, j, a, b) ==> f.orig_dst == a && f.repl_dst == b,
{
    lemma_addresses_at(words, "src="@, i, j, a, b);
    lemma_addresses_at(words, "dst="@, i, j, a, b);
    if addresses_at(words, "src="@, i, j, a, b) {
        lemma_two_kept(words, address_field("src="@), i, j);
    }
    if addresses_at(words, "dst="@, i, j, a, b) {
        lemma_two_kept(words, address_field("dst="@), i, j);
    }
}

/// The ports of a flow are the numbers up to 65535 behind the first two `sport=` and
/// the first two `dport=` that have one: the originator's first, then the reply's.
pub proof fn law_flow_ports(
    words: Seq<Seq<char>>,
    i: int,
    j: int,
    m: u16,
    n: u16,
    f: FlowView,
)
    requires
        flow(words) == Some(f),
    ensures
        numbers_at(words, "sport="@, 65535, i, j, m as nat, n as nat) ==> f.orig_sport == m
            && f.repl_sport == n,
        numbers_at(words, "dport="@, 65535, i, j, m as nat, n as nat) ==> f.orig_dport == m
            && f.repl_dport == n,
{
    lemma_numbers16_at(words, "sport="@, i, j, m, n);
    lemma_numbers16_at(words, "dport="@, i, j, m, n);
    if numbers_at(words, "sport="@, 65535, i, j, m as nat, n as nat) {
        lemma_two_kept(words, number16_field("sport="@), i, j);
    }
    if numbers_at(words, "dport="@, 65535, i, j, m as nat, n as nat) {
        lemma_two_kept(words, number16_field("dport="@), i, j);
    }
}

proof fn lemma_numbers64_at(words: Seq<Seq<char>>, key: Seq<char>, i: int, j: int, m: u64, n: u64)
    requires
        numbers_at(words, key, u64::MAX as nat, i, j, m as nat, n as nat),
    ensures
        words.filter_map(number64_field(key)).len() >= 2,
        words.filter_map(number64_field(key))[0] == m,
        words.filter_map(number64_field(key))[1] == n,
{
    let f = number64_field(key);
    law_number64_fields(words[i], key, m);
    law_number64_fields(words[j], key, n);
    assert forall|k: int| 0 <= k < j && k != i implies f(#[trigger] words[k]) is None by {
        lemma_no_number64(words[k], key);
    }
    lemma_two_kept(words, f, i, j);
}

/// The packets and bytes of a flow are the numbers up to 18446744073709551615 behind
/// the first two `packets=` and the first two `bytes=` that have one: the
/// originator's first, then the reply's.
pub proof fn law_flow_counters(
    words: Seq<Seq<char>>,
    i: int,
    j: int,
    m: u64,
    n: u64,
    f: FlowView,
)
    requires
        flow(words) == Some(f),
    ensures
        numbers_at(words, "packets="@, 18446744073709551615, i, j, m as nat, n as nat)
            ==> f.orig_packets == m && f.repl_packets == n,
        numbers_at(words, "bytes="@, 18446744073709551615, i, j, m as nat, n as nat)
            ==> f.orig_bytes == m && f.repl_bytes == n,
{
    if numbers_at(words, "packets="@, 18446744073709551615, i, j, m as nat, n as nat) {
        lemma_numbers64_at(words, "packets="@, i, j, m, n);
    }
    if numbers_at(words, "bytes="@, 18446744073709551615, i, j, m as nat, n as nat) {
        lemma_numbers64_at(words, "bytes="@, i, j, m, n);
    }
}

/// Does the word at `i` alone have the number `m` behind the key?
pub open spec fn lone_number(words: Seq<Seq<char>>, key: Seq<char>, i: int, m: nat) -> bool {
    &&& 0 <= i < words.len()
    &&& shows_number(words[i], key, m)
    &&& forall|k: int|
        0 <= k < words.len() && k != i ==> !shows_some_number(
            #[trigger] words[k],
            key,
            18446744073709551615,
        )
}

/// Does no word have a number behind the key?
pub open spec fn no_number(words: Seq<Seq<char>>, key: Seq<char>) -> bool {
    forall|k: int|
        0 <= k < words.len() ==> !shows_some_number(#[trigger] words[k], key, 18446744073709551615)
}

proof fn lemma_lone_number(words: Seq<Seq<char>>, key: Seq<char>, i: int, m: u64)
    ensures
        lone_number(words, key, i, m as nat) ==> words.filter_map(number64_field(key)) == seq![m],
        no_number(words, key) ==> words.filter_map(number64_field(key)) == Seq::<u64>::empty(),
{
    let f = number64_field(key);
    assert forall|w: Seq<char>|
        f(w) is None <==> !(#[trigger] shows_some_number(w, key, 18446744073709551615)) by {
        lemma_no_number64(w, key);
    }
    if lone_number(words, key, i, m as nat) {
        law_number64_fields(words[i], key, m);
        let rest = words.skip(i + 1);
        assert forall|k: int| 0 <= k < rest.len() implies f(#[trigger] rest[k]) is None by {
            assert(rest[k] == words[k + i + 1]);
        }
        lemma_nothing_kept(rest, f);
        assert(first_given(words, f, i));
        lemma_kept_from_first(words, f, i);
    }
    if no_number(words, key) {
        assert forall|k: int| 0 <= k < words.len() implies f(#[trigger] words[k]) is None by {
            assert(!shows_some_number(words[k], key, 18446744073709551615));
        }
        lemma_nothing_kept(words, f);
    }
}

/// Packets and bytes that are counted for one direction only are the originator's,
/// and those that are not counted are zero.
pub proof fn law_flow_lone_counters(words: Seq<Seq<char>>, i: int, m: u64, f: FlowView)
    requires
        flow(words) == Some(f),
    ensures
        lone_number(words, "packets="@, i, m as nat) ==> f.orig_packets == m && f.repl_packets == 0,
        lone_number(words, "bytes="@, i, m as nat) ==> f.orig_bytes == m && f.repl_bytes == 0,
        no_number(words, "packets="@) ==> f.orig_packets == 0 && f.repl_packets == 0,
        no_number(words, "bytes="@) ==> f.orig_bytes == 0 && f.repl_bytes == 0,
{
    lemma_lone_number(words, "packets="@, i, m);
    lemma_lone_number(words, "bytes="@, i, m);
}

/// Digits behind a key are read as the number that they write, up to
/// 18446744073709551615.
pub proof fn law_rows_of_digits_are_read(key: Seq<char>, digits: Seq<char>)
    requires
        digits.len() > 0,
        all_digits(digits),
        decimal_value(digits) <= 18446744073709551615,
    ensures
        number64_field(key)(key + digits) == Some(decimal_value(digits) as u64),
{
    lemma_digits_are_written(digits);
    assert(writes_number(digits, decimal_value(digits)));
    assert(shows_number(key + digits, key, decimal_value(digits)));
    law_number64_fields(key + digits, key, decimal_value(digits) as u64);
}

/// An entry with exactly two `bytes=` words, or two `packets=` words, that hold
/// digits counts for its originator what the first of them writes, and for the reply
/// what the second writes.
pub proof fn law_flow_counts_what_is_written(
    words: Seq<Seq<char>>,
    key: Seq<char>,
    i: int,
    j: int,
    first: Seq<char>,
    second: Seq<char>,
    f: FlowView,
)
    requires
        flow(words) == Some(f),
        key == "bytes="@ || key == "packets="@,
        0 <= i < j < words.len(),
        words[i] == key + first,
        words[j] == key + second,
        forall|k: int, t: Seq<char>|
            0 <= k < words.len() && k != i && k != j ==> #[trigger] words[k] != #[trigger] (key
                + t),
        first.len() > 0,
        all_digits(first),
        decimal_value(first) <= 18446744073709551615,
        second.len() > 0,
        all_digits(second),
        decimal_value(second) <= 18446744073709551615,
    ensures
        key == "bytes="@ ==> f.orig_bytes == decimal_value(first) && f.repl_bytes == decimal_value(
            second,
        ),
        key == "packets="@ ==> f.orig_packets == decimal_value(first) && f.repl_packets
            == decimal_value(second),
{
    let g = number64_field(key);
    law_rows_of_digits_are_read(key, first);
    law_rows_of_digits_are_read(key, second);
    assert forall|k: int| 0 <= k < j && k != i implies g(#[trigger] words[k]) is None by {
        if g(words[k]) is Some {
            law_number64_fields(words[k], key, g(words[k])->0);
            let t = choose|t: Seq<char>|
                words[k] == #[trigger] (key + t) && writes_number(t, g(words[k])->0 as nat);
            assert(words[k] != key + t);
        }
    }
    lemma_two_kept(words, g, i, j);
}

/// An entry gives a flow if and only if it is of TCP or UDP, and has two addresses
/// each behind `src=` and `dst=` and two ports each behind `sport=` and `dport=`.
pub proof fn law_flow_needs_both_directions(words: Seq<Seq<char>>)
    ensures
        flow(words) is Some <==> {
            &&& words[0] == "tcp"@ || words[0] == "udp"@
            &&& exists|i: int, j: int, a: IpAddress, b: IpAddress|
                addresses_at(words, "src="@, i, j, a, b)
            &&& exists|i: int, j: int, a: IpAddress, b: IpAddress|
                addresses_at(words, "dst="@, i, j, a, b)
            &&& exists|i: int, j: int, m: nat, n: nat|
                numbers_at(words, "sport="@, 65535, i, j, m, n)
            &&& exists|i: int, j: int, m: nat, n: nat|
                numbers_at(words, "dport="@, 65535, i, j, m, n)
        },
{
    lemma_two_addresses(words, "src="@);
    lemma_two_addresses(words, "dst="@);
    lemma_two_ports(words, "sport="@);
    lemma_two_ports(words, "dport="@);
}

proof fn lemma_two_addresses(words: Seq<Seq<char>>, key: Seq<char>)
    ensures
        words.filter_map(address_field(key)).len() >= 2 <==> exists|
            i: int,
            j: int,
            a: IpAddress,
            b: IpAddress,
        |
            addresses_at(words, key, i, j, a, b),
{
    let f = address_field(key);
    if words.filter_map(f).len() >= 2 {
        lemma_two_kept_stand_somewhere(words, f);
        let (i, j) = choose|i: int, j: int| first_two_given(words, f, i, j);
        lemma_addresses_at(words, key, i, j, f(words[i])->0, f(words[j])->0);
    }
    if exists|i: int, j: int, a: IpAddress, b: IpAddress| addresses_at(words, key, i, j, a, b) {
        let (i, j, a, b) = choose|i: int, j: int, a: IpAddress, b: IpAddress|
            addresses_at(words, key, i, j, a, b);
        lemma_addresses_at(words, key, i, j, a, b);
        lemma_two_kept(words, f, i, j);
    }
}

proof fn lemma_two_ports(words: Seq<Seq<char>>, key: Seq<char>)
    ensures
        words.filter_map(number16_field(key)).len() >= 2 <==> exists|
            i: int,
            j: int,
            m: nat,
            n: nat,
        |
            numbers_at(words, key, 65535, i, j, m, n),
{
    let f = number16_field(key);
    if words.filter_map(f).len() >= 2 {
        lemma_two_kept_stand_somewhere(words, f);
        let (i, j) = choose|i: int, j: int| first_two_given(words, f, i, j);
        lemma_numbers16_at(words, key, i, j, f(words[i])->0, f(words[j])->0);
        assert(numbers_at(words, key, 65535, i, j, f(words[i])->0 as nat, f(words[j])->0 as nat));
    }
    if exists|i: int, j: int, m: nat, n: nat| numbers_at(words, key, 65535, i, j, m, n) {
        let (i, j, m, n) = choose|i: int, j: int, m: nat, n: nat|
            numbers_at(words, key, 65535, i, j, m, n);
        lemma_numbers16_at(words, key, i, j, m as u16, n as u16);
        lemma_two_kept(words, f, i, j);
    }
}

/// Does the word stand in square brackets?
pub open spec fn bracketed() -> spec_fn(Seq<char>) -> bool {
    |word: Seq<char>| word.len() > 0 && word[0] == '[' && word[word.len() - 1] == ']'
}

/// A flow has the protocol that its entry begins with, its state where that is TCP,
/// and all its words in square brackets, in their order.
pub proof fn law_flow_protocol_state_and_flags(words: Seq<Seq<char>>, f: FlowView)
    requires
        flow(words) == Some(f),
    ensures
        f.protocol == words[0],
        words[0] == "tcp"@ ==> f.state == tcp_state(words),
        words[0] == "udp"@ ==> f.state is None,
        f.flags == words.filter(bracketed()),
{
    reveal_strlit("tcp");
    reveal_strlit("udp");
    assert("tcp"@[0] != "udp"@[0]);
    assert(is_flag() =~= bracketed());
}

/// A dump has the flows of its lines, in their order, whatever lines without a flow
/// stand between them.
pub proof fn law_flows_of_joined_lines(parts: Seq<Seq<char>>)
    requires
        parts.len() > 0,
        free_of(parts, '\n'),
    ensures
        parts.len() == 1 ==> flows(joined(parts, '\n')) == match entry(parts[0]) {
            Some(w) => match flow(w) {
                Some(f) => seq![f],
                None => Seq::<FlowView>::empty(),
            },
            None => Seq::<FlowView>::empty(),
        },
        parts.len() > 1 ==> flows(joined(parts, '\n')) == flows(joined(parts.drop_last(), '\n'))
            + flows(parts.last()),
{
    let last = parts[parts.len() - 1];
    law_lines_of_joined_lines(parts);
    Seq::lemma_filter_map_singleton(last, line_flow());
    assert forall|i: int| 0 <= i < seq![last].len() implies !(#[trigger] seq![last][i]).contains(
        '\n',
    ) by {}
    law_lines_of_joined_lines(seq![last]);
    if parts.len() == 1 {
        assert(parts =~= seq![last]);
    } else {
        let rest = parts.drop_last();
        assert forall|i: int| 0 <= i < rest.len() implies !(#[trigger] rest[i]).contains('\n') by {
            assert(rest[i] == parts[i]);
        }
        law_lines_of_joined_lines(rest);
        lemma_filter_map_add(rest, seq![last], line_flow());
        assert(rest + seq![last] =~= parts);
    }
}

/// The view of a flow holds each of its fields, and that of a list each of its flows.
pub proof fn law_flow_views_keep_fields(list: Seq<ConnectionFlowDetail>, i: int)
    requires
        0 <= i < list.len(),
    ensures
        flow_views(list).len() == list.len(),
        ({
            let f = list[i];
            let v = flow_views(list)[i];
            &&& v.protocol == f.protocol@
            &&& v.state is Some <==> f.state is Some
            &&& f.state matches Some(state) ==> v.state == Some(state@)
            &&& v.orig_src == f.orig_src && v.orig_dst == f.orig_dst
            &&& v.orig_sport == f.orig_sport && v.orig_dport == f.orig_dport
            &&& v.repl_src == f.repl_src && v.repl_dst == f.repl_dst
            &&& v.repl_sport == f.repl_sport && v.repl_dport == f.repl_dport
            &&& v.orig_packets == f.orig_packets && v.orig_bytes == f.orig_bytes
            &&& v.repl_packets == f.repl_packets && v.repl_bytes == f.repl_bytes
            &&& v.flags.len() == f.flags@.len()
            &&& forall|k: int|
                0 <= k < f.flags@.len() ==> #[trigger] v.flags[k] == f.flags@[k]@
        }),
{
}

} // verus!
