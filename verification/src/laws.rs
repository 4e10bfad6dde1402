//! What holds of the library as a whole.

use crate::address::{
    ipv4_bits, ipv6_bits, law_ipv4_bits_tell_addresses_apart, law_ipv6_bits_tell_addresses_apart,
    octet_groups, IpAddress,
};
use crate::conntrack::dump_text;
use crate::devices::{
    arp_owners, in_any_prefix, is_lan_prefix, law_mac_bits_tell_devices_apart, mac_bits,
    shown_addresses, with_addresses, with_neighbors,
};
use crate::entry::{
    class, entry, is_summary, line_class, line_source, source, tcp_class, ConnectionClass,
};
use crate::flows::{flow, flows, line_flow, FlowView};
use crate::network::{in_subnet, ipv6_type, mask_ones, ones, Ipv6AddressType};
use crate::stats::{
    are_device_stats, counted, counted_tcp, counts_of, is_device_entry, lemma_counts_bound,
    lemma_counts_push, of_class, one_more, owned_by, Counts, DeviceConnectionStats,
};
use crate::text::{
    is_white_space, lemma_pieces_non_empty, lines, non_empty, only, pieces, stands_at, white_space,
    words,
};
use vstd::prelude::*;

verus! {

/// Does the text end where a line ends?
pub open spec fn ends_a_line(content: Seq<char>) -> bool {
    content.len() == 0 || content.last() == '\n'
}

/// The sum of two counts.
pub open spec fn sum(a: Counts, b: Counts) -> Counts {
    Counts {
        total: a.total + b.total,
        tcp: a.tcp + b.tcp,
        udp: a.udp + b.udp,
        established: a.established + b.established,
        time_wait: a.time_wait + b.time_wait,
        close_wait: a.close_wait + b.close_wait,
    }
}

/// A separator between two texts parts their pieces.
pub proof fn law_pieces_of_joined_texts(
    a: Seq<char>,
    x: char,
    b: Seq<char>,
    sep: spec_fn(char) -> bool,
)
    requires
        sep(x),
    ensures
        pieces(a.push(x) + b, sep) == pieces(a, sep) + pieces(b, sep),
    decreases b.len(),
{
    let s = a.push(x) + b;
    if b.len() == 0 {
        assert(s =~= a.push(x));
        assert(s.drop_last() =~= a);
        assert(pieces(a, sep).push(Seq::<char>::empty()) =~= pieces(a, sep) + pieces(b, sep));
    } else {
        law_pieces_of_joined_texts(a, x, b.drop_last(), sep);
        lemma_pieces_non_empty(b.drop_last(), sep);
        assert(s.drop_last() =~= a.push(x) + b.drop_last());
        assert(s.last() == b.last());
        assert(pieces(s, sep) =~= pieces(a, sep) + pieces(b, sep));
    }
}

/// The empty text has no words.
pub proof fn lemma_no_words()
    ensures
        words(Seq::<char>::empty()) == Seq::<Seq<char>>::empty(),
{
    let e = Seq::<char>::empty();
    assert(pieces(e, white_space()) =~= Seq::<Seq<char>>::empty().push(e));
    Seq::<Seq<char>>::empty().lemma_filter_push(e, non_empty());
    Seq::<Seq<char>>::empty().lemma_filter_len(non_empty());
    assert(words(e) =~= Seq::<Seq<char>>::empty());
}

/// An empty line carries no entry.
proof fn lemma_empty_line()
    ensures
        entry(Seq::<char>::empty()) is None,
{
    lemma_no_words();
}

/// A filter-map over two lists gives what it gives over each.
pub proof fn lemma_filter_map_add<A, B>(a: Seq<A>, b: Seq<A>, f: spec_fn(A) -> Option<B>)
    ensures
        (a + b).filter_map(f) == a.filter_map(f) + b.filter_map(f),
    decreases b.len(),
{
    if b.len() == 0 {
        assert(a + b =~= a);
        assert(a.filter_map(f) + b.filter_map(f) =~= a.filter_map(f));
    } else {
        lemma_filter_map_add(a, b.drop_last(), f);
        assert((a + b).drop_last() =~= a + b.drop_last());
        assert((a + b).filter_map(f) =~= a.filter_map(f) + b.filter_map(f));
    }
}

/// Counts over two lists of lines add up.
pub proof fn law_counts_of_joined_lines(a: Seq<Seq<char>>, b: Seq<Seq<char>>)
    ensures
        counts_of(a + b) == sum(counts_of(a), counts_of(b)),
{
    Seq::filter_distributes_over_add(a, b, counted());
    Seq::filter_distributes_over_add(a, b, counted_tcp());
    Seq::filter_distributes_over_add(a, b, of_class(ConnectionClass::Udp));
    Seq::filter_distributes_over_add(a, b, of_class(ConnectionClass::Established));
    Seq::filter_distributes_over_add(a, b, of_class(ConnectionClass::TimeWait));
    Seq::filter_distributes_over_add(a, b, of_class(ConnectionClass::CloseWait));
}

/// Where the IPv4 table ends with a line's end, the lines of a dump are those of the
/// two tables, but for an empty one between them.
proof fn lemma_lines_of_both_tables(ipv4: Seq<char>, ipv6: Seq<char>)
    requires
        ipv4.len() > 0,
        ipv4.last() == '\n',
    ensures
        lines(ipv4 + ipv6) == lines(ipv4.drop_last()) + lines(ipv6),
        lines(ipv4) == lines(ipv4.drop_last()).push(Seq::<char>::empty()),
{
    let a = ipv4.drop_last();
    assert(a.push('\n') =~= ipv4);
    law_pieces_of_joined_texts(a, '\n', ipv6, only('\n'));
}

/// The flows of a dump are those of its IPv4 table and then those of its IPv6 table.
pub proof fn law_flows_of_both_tables(ipv4: Seq<char>, ipv6: Seq<char>)
    requires
        ends_a_line(ipv4),
    ensures
        flows(dump_text(ipv4, Some(ipv6))) == flows(ipv4) + flows(ipv6),
{
    let e = Seq::<char>::empty();
    lemma_empty_line();
    if ipv4.len() == 0 {
        assert(ipv4 + ipv6 =~= ipv6);
        assert(lines(ipv4) =~= seq![e]);
        Seq::lemma_filter_map_singleton(e, line_flow());
        assert(flows(ipv4) + flows(ipv6) =~= flows(ipv6));
    } else {
        lemma_lines_of_both_tables(ipv4, ipv6);
        lemma_filter_map_add(lines(ipv4.drop_last()), lines(ipv6), line_flow());
        assert(lines(ipv4).drop_last() =~= lines(ipv4.drop_last()));
    }
}

/// The counts of a dump, over all and for each device, are the sums of those of its
/// two tables.
pub proof fn law_counts_of_both_tables(
    ipv4: Seq<char>,
    ipv6: Seq<char>,
    owners: Map<IpAddress, [u8; 6]>,
    key: u64,
)
    requires
        ends_a_line(ipv4),
    ensures
        counts_of(lines(dump_text(ipv4, Some(ipv6)))) == sum(
            counts_of(lines(ipv4)),
            counts_of(lines(ipv6)),
        ),
        counts_of(lines(dump_text(ipv4, Some(ipv6))).filter(owned_by(owners, key))) == sum(
            counts_of(lines(ipv4).filter(owned_by(owners, key))),
            counts_of(lines(ipv6).filter(owned_by(owners, key))),
        ),
{
    let e = Seq::<char>::empty();
    let p = owned_by(owners, key);
    lemma_empty_line();
    let front = if ipv4.len() == 0 {
        Seq::<Seq<char>>::empty()
    } else {
        lines(ipv4.drop_last())
    };
    if ipv4.len() == 0 {
        assert(ipv4 + ipv6 =~= ipv6);
        assert(lines(ipv4) =~= front.push(e));
        assert(front + lines(ipv6) =~= lines(ipv6));
    } else {
        lemma_lines_of_both_tables(ipv4, ipv6);
    }
    assert(lines(ipv4 + ipv6) == front + lines(ipv6));
    assert(lines(ipv4) == front.push(e));
    lemma_counts_push(front, e);
    law_counts_of_joined_lines(front, lines(ipv6));
    front.lemma_filter_push(e, p);
    Seq::filter_distributes_over_add(front, lines(ipv6), p);
    law_counts_of_joined_lines(front.filter(p), lines(ipv6).filter(p));
}

/// A missing IPv6 table leaves what the IPv4 table gives as it is.
pub proof fn law_missing_ipv6_table(ipv4: Seq<char>)
    ensures
        flows(dump_text(ipv4, None)) == flows(ipv4),
        counts_of(lines(dump_text(ipv4, None))) == counts_of(lines(ipv4)),
{
}

/// The lines of a text that ends where a line ends, without the empty one behind it.
pub open spec fn closed_lines(content: Seq<char>) -> Seq<Seq<char>> {
    if content.len() == 0 {
        Seq::empty()
    } else {
        lines(content.drop_last())
    }
}

/// A line put into a dump is one line more.
proof fn lemma_line_put_in(before: Seq<char>, line: Seq<char>, after: Seq<char>)
    requires
        ends_a_line(before),
        !line.contains('\n'),
    ensures
        lines(before + line.push('\n') + after) == closed_lines(before).push(line) + lines(after),
        lines(before + after) == closed_lines(before) + lines(after),
{
    let with = before + line.push('\n') + after;
    let without = before + after;
    lemma_one_piece(line, '\n');
    law_pieces_of_joined_texts(line, '\n', after, only('\n'));
    assert(with =~= before + (line.push('\n') + after));
    if before.len() == 0 {
        assert(with =~= line.push('\n') + after);
        assert(without =~= after);
        assert(lines(without) =~= closed_lines(before) + lines(after));
    } else {
        lemma_lines_of_both_tables(before, line.push('\n') + after);
        lemma_lines_of_both_tables(before, after);
    }
    assert(lines(with) =~= closed_lines(before).push(line) + lines(after));
}

/// A line without a flow changes no flow.
pub proof fn law_lines_without_flow(before: Seq<char>, line: Seq<char>, after: Seq<char>)
    requires
        ends_a_line(before),
        !line.contains('\n'),
        line_flow()(line) is None,
    ensures
        flows(before + line.push('\n') + after) == flows(before + after),
{
    let front = closed_lines(before);
    lemma_line_put_in(before, line, after);
    lemma_filter_map_add(front.push(line), lines(after), line_flow());
    lemma_filter_map_add(front, lines(after), line_flow());
    assert(front.push(line).drop_last() =~= front);
}

/// A line that is not counted changes no count, over all and for each device.
pub proof fn law_lines_without_class(
    before: Seq<char>,
    line: Seq<char>,
    after: Seq<char>,
    owners: Map<IpAddress, [u8; 6]>,
    key: u64,
)
    requires
        ends_a_line(before),
        !line.contains('\n'),
        line_class(line) is None,
    ensures
        counts_of(lines(before + line.push('\n') + after)) == counts_of(lines(before + after)),
        counts_of(lines(before + line.push('\n') + after).filter(owned_by(owners, key)))
            == counts_of(lines(before + after).filter(owned_by(owners, key))),
{
    let p = owned_by(owners, key);
    let front = closed_lines(before);
    let back = lines(after);
    lemma_line_put_in(before, line, after);
    law_counts_of_joined_lines(front.push(line), back);
    law_counts_of_joined_lines(front, back);
    lemma_counts_push(front, line);
    Seq::filter_distributes_over_add(front.push(line), back, p);
    Seq::filter_distributes_over_add(front, back, p);
    front.lemma_filter_push(line, p);
    law_counts_of_joined_lines(front.push(line).filter(p), back.filter(p));
    law_counts_of_joined_lines(front.filter(p), back.filter(p));
    lemma_counts_push(front.filter(p), line);
}

/// A line without an entry, such as an empty one or the summary, changes neither the
/// flows, nor the counts, nor which devices are counted.
pub proof fn law_lines_without_entry(
    before: Seq<char>,
    line: Seq<char>,
    after: Seq<char>,
    owners: Map<IpAddress, [u8; 6]>,
    key: u64,
)
    requires
        ends_a_line(before),
        !line.contains('\n'),
        entry(line) is None,
    ensures
        ({
            let with = before + line.push('\n') + after;
            let without = before + after;
            &&& flows(with) == flows(without)
            &&& counts_of(lines(with)) == counts_of(lines(without))
            &&& lines(with).filter(owned_by(owners, key)) == lines(without).filter(
                owned_by(owners, key),
            )
        }),
{
    let p = owned_by(owners, key);
    let front = closed_lines(before);
    law_lines_without_flow(before, line, after);
    law_lines_without_class(before, line, after, owners, key);
    lemma_line_put_in(before, line, after);
    Seq::filter_distributes_over_add(front.push(line), lines(after), p);
    Seq::filter_distributes_over_add(front, lines(after), p);
    front.lemma_filter_push(line, p);
}

/// An entry of a protocol that is neither TCP nor UDP changes neither the flows nor
/// the counts, over all and for each device.
pub proof fn law_lines_of_other_protocols(
    before: Seq<char>,
    line: Seq<char>,
    after: Seq<char>,
    owners: Map<IpAddress, [u8; 6]>,
    key: u64,
)
    requires
        ends_a_line(before),
        !line.contains('\n'),
        entry(line) is Some,
        (entry(line)->0)[0] != "tcp"@,
        (entry(line)->0)[0] != "udp"@,
    ensures
        ({
            let with = before + line.push('\n') + after;
            let without = before + after;
            &&& flows(with) == flows(without)
            &&& counts_of(lines(with)) == counts_of(lines(without))
            &&& counts_of(lines(with).filter(owned_by(owners, key))) == counts_of(
                lines(without).filter(owned_by(owners, key)),
            )
        }),
{
    law_lines_without_flow(before, line, after);
    law_lines_without_class(before, line, after, owners, key);
}

/// Is the text white space alone?
pub open spec fn all_white_space(s: Seq<char>) -> bool {
    forall|i: int| 0 <= i < s.len() ==> is_white_space(#[trigger] s[i])
}

proof fn lemma_words_before_spaces(s: Seq<char>, right: Seq<char>)
    requires
        all_white_space(right),
    ensures
        words(s + right) == words(s),
    decreases right.len(),
{
    if right.len() == 0 {
        assert(s + right =~= s);
    } else {
        let t = s + right;
        assert(t.drop_last() =~= s + right.drop_last());
        assert(t.last() == right[right.len() - 1]);
        lemma_words_before_spaces(s, right.drop_last());
        pieces(t.drop_last(), white_space()).lemma_filter_push(
            Seq::<char>::empty(),
            non_empty(),
        );
    }
}

proof fn lemma_words_behind_spaces(left: Seq<char>, s: Seq<char>)
    requires
        all_white_space(left),
    ensures
        words(left + s) == words(s),
{
    if left.len() == 0 {
        assert(left + s =~= s);
    } else {
        let front = left.drop_last();
        let e = Seq::<char>::empty();
        assert(front.push(left.last()) =~= left);
        assert(left.last() == left[left.len() - 1]);
        law_pieces_of_joined_texts(front, left.last(), s, white_space());
        Seq::filter_distributes_over_add(
            pieces(front, white_space()),
            pieces(s, white_space()),
            non_empty(),
        );
        assert(e + front =~= front);
        lemma_words_before_spaces(e, front);
        lemma_no_words();
        assert(words(front) + words(s) =~= words(s));
    }
}

/// Spaces around a line do not make it a summary, nor hide one.
proof fn lemma_summary_between_spaces(left: Seq<char>, line: Seq<char>, right: Seq<char>)
    requires
        all_white_space(left),
        all_white_space(right),
    ensures
        is_summary(left + line + right) == is_summary(line),
{
    let phrase = "flow entries have been shown"@;
    let t = left + line + right;
    let n = left.len() as int;
    reveal_strlit("flow entries have been shown");
    if is_summary(line) {
        let i = choose|i: int| stands_at(line, phrase, i);
        assert(t.subrange(n + i, n + i + phrase.len()) =~= line.subrange(i, i + phrase.len()));
        assert(stands_at(t, phrase, n + i));
    }
    if is_summary(t) {
        let i = choose|i: int| stands_at(t, phrase, i);
        let last = phrase.len() - 1;
        assert(t.subrange(i, i + phrase.len())[0] == t[i]);
        assert(t.subrange(i, i + phrase.len())[last] == t[i + last]);
        assert(phrase[0] == 'f' && phrase[last] == 'n');
        assert(i >= n) by {
            if i < n {
                assert(t[i] == left[i]);
            }
        }
        assert(i + last < n + line.len()) by {
            if i + last >= n + line.len() {
                assert(t[i + last] == right[i + last - n - line.len()]);
            }
        }
        assert(line.subrange(i - n, i - n + phrase.len()) =~= t.subrange(i, i + phrase.len()));
        assert(stands_at(line, phrase, i - n));
    }
}

/// Spaces around a line change neither the flows nor the counts, over all and for
/// each device, nor which devices are counted.
pub proof fn law_spaces_around_a_line(
    before: Seq<char>,
    left: Seq<char>,
    line: Seq<char>,
    right: Seq<char>,
    after: Seq<char>,
    owners: Map<IpAddress, [u8; 6]>,
    key: u64,
)
    requires
        ends_a_line(before),
        all_white_space(left),
        all_white_space(right),
        !left.contains('\n'),
        !line.contains('\n'),
        !right.contains('\n'),
    ensures
        ({
            let p = owned_by(owners, key);
            let spaced = before + (left + line + right).push('\n') + after;
            let plain = before + line.push('\n') + after;
            &&& flows(spaced) == flows(plain)
            &&& counts_of(lines(spaced)) == counts_of(lines(plain))
            &&& counts_of(lines(spaced).filter(p)) == counts_of(lines(plain).filter(p))
            &&& lines(spaced).filter(p).len() == lines(plain).filter(p).len()
        }),
{
    let t = left + line + right;
    let p = owned_by(owners, key);
    let front = closed_lines(before);
    let back = lines(after);
    assert(!t.contains('\n')) by {
        assert forall|i: int| 0 <= i < t.len() implies t[i] != '\n' by {
            if i < left.len() {
                assert(t[i] == left[i]);
            } else if i < left.len() + line.len() {
                assert(t[i] == line[i - left.len()]);
            } else {
                assert(t[i] == right[i - left.len() - line.len()]);
            }
        }
    }
    lemma_words_before_spaces(left + line, right);
    lemma_words_behind_spaces(left, line);
    lemma_summary_between_spaces(left, line, right);
    assert(entry(t) == entry(line));
    lemma_line_put_in(before, t, after);
    lemma_line_put_in(before, line, after);
    lemma_filter_map_add(front.push(t), back, line_flow());
    lemma_filter_map_add(front.push(line), back, line_flow());
    assert(front.push(t).drop_last() =~= front);
    assert(front.push(line).drop_last() =~= front);
    law_counts_of_joined_lines(front.push(t), back);
    law_counts_of_joined_lines(front.push(line), back);
    lemma_counts_push(front, t);
    lemma_counts_push(front, line);
    Seq::filter_distributes_over_add(front.push(t), back, p);
    Seq::filter_distributes_over_add(front.push(line), back, p);
    front.lemma_filter_push(t, p);
    front.lemma_filter_push(line, p);
    assert(p(t) == p(line));
    law_counts_of_joined_lines(front.push(t).filter(p), back.filter(p));
    law_counts_of_joined_lines(front.push(line).filter(p), back.filter(p));
    lemma_counts_push(front.filter(p), t);
    lemma_counts_push(front.filter(p), line);
}

/// Text without the separator is one piece.
proof fn lemma_one_piece(s: Seq<char>, x: char)
    requires
        !s.contains(x),
    ensures
        pieces(s, only(x)) == seq![s],
    decreases s.len(),
{
    if s.len() == 0 {
        assert(s =~= Seq::<char>::empty());
    } else {
        assert(s[s.len() - 1] != x);
        assert forall|i: int| 0 <= i < s.drop_last().len() implies s.drop_last()[i] != x by {
            assert(s[i] != x);
        }
        lemma_one_piece(s.drop_last(), x);
        assert(s.drop_last().push(s.last()) =~= s);
        assert(pieces(s, only(x)) =~= seq![s]);
    }
}

/// All connections are TCP or UDP ones. A TCP connection is established, on its way
/// out, waits for its end to close, or is in a state that has no count of its own.
/// This holds of all lines and of those of one device alike.
pub proof fn law_counts_add_up(all: Seq<Seq<char>>)
    ensures
        counts_of(all).total == counts_of(all).tcp + counts_of(all).udp,
        counts_of(all).tcp == counts_of(all).established + counts_of(all).time_wait + counts_of(
            all,
        ).close_wait + all.filter(of_class(ConnectionClass::OtherTcp)).len(),
    decreases all.len(),
{
    let other = of_class(ConnectionClass::OtherTcp);
    if all.len() == 0 {
        lemma_counts_bound(all);
        all.lemma_filter_len(other);
    } else {
        law_counts_add_up(all.drop_last());
        assert(all.drop_last().push(all.last()) =~= all);
        lemma_counts_push(all.drop_last(), all.last());
        all.drop_last().lemma_filter_push(all.last(), other);
    }
}

/// The counts by state cover no more than the TCP connections, and all of them where
/// none is in a state without a count of its own.
pub proof fn law_states_within_tcp(all: Seq<Seq<char>>)
    ensures
        counts_of(all).established + counts_of(all).time_wait + counts_of(all).close_wait
            <= counts_of(all).tcp,
        (forall|i: int|
            0 <= i < all.len() ==> line_class(#[trigger] all[i]) != Some(
                ConnectionClass::OtherTcp,
            )) ==> counts_of(all).established + counts_of(all).time_wait + counts_of(all).close_wait
            == counts_of(all).tcp,
{
    law_counts_add_up(all);
    if forall|i: int|
        0 <= i < all.len() ==> line_class(#[trigger] all[i]) != Some(ConnectionClass::OtherTcp) {
        all.lemma_all_neg_filter_empty(of_class(ConnectionClass::OtherTcp));
    }
}

/// No count of `a` is above that of `b`.
pub open spec fn at_most(a: Counts, b: Counts) -> bool {
    &&& a.total <= b.total
    &&& a.tcp <= b.tcp
    &&& a.udp <= b.udp
    &&& a.established <= b.established
    &&& a.time_wait <= b.time_wait
    &&& a.close_wait <= b.close_wait
}

/// The counts of the devices in a list, together.
pub open spec fn devices_counts(
    all: Seq<Seq<char>>,
    owners: Map<IpAddress, [u8; 6]>,
    keys: Seq<u64>,
) -> Counts
    decreases keys.len(),
{
    if keys.len() == 0 {
        counts_of(Seq::empty())
    } else {
        sum(
            devices_counts(all, owners, keys.drop_last()),
            counts_of(all.filter(owned_by(owners, keys.last()))),
        )
    }
}

/// Is one of the devices the source of the entry on `line`?
pub open spec fn owned_by_any(
    owners: Map<IpAddress, [u8; 6]>,
    keys: Seq<u64>,
    line: Seq<char>,
) -> bool {
    exists|i: int| 0 <= i < keys.len() && owned_by(owners, #[trigger] keys[i])(line)
}

proof fn lemma_devices_counts_push(
    all: Seq<Seq<char>>,
    line: Seq<char>,
    owners: Map<IpAddress, [u8; 6]>,
    keys: Seq<u64>,
)
    requires
        keys.no_duplicates(),
    ensures
        devices_counts(all.push(line), owners, keys) == match line_class(line) {
            Some(c) if owned_by_any(owners, keys, line) => one_more(
                devices_counts(all, owners, keys),
                c,
            ),
            _ => devices_counts(all, owners, keys),
        },
    decreases keys.len(),
{
    if keys.len() > 0 {
        let rest = keys.drop_last();
        let key = keys.last();
        let p = owned_by(owners, key);
        lemma_devices_counts_push(all, line, owners, rest);
        all.lemma_filter_push(line, p);
        lemma_counts_push(all.filter(p), line);
        if p(line) {
            assert(keys[keys.len() - 1] == key);
            assert forall|i: int| 0 <= i < rest.len() implies !owned_by(
                owners,
                #[trigger] rest[i],
            )(line) by {
                assert(keys[i] != keys[keys.len() - 1]);
            }
        } else {
            if owned_by_any(owners, keys, line) {
                let i = choose|i: int|
                    0 <= i < keys.len() && owned_by(owners, #[trigger] keys[i])(line);
                assert(rest[i] == keys[i]);
            }
            if owned_by_any(owners, rest, line) {
                let i = choose|i: int|
                    0 <= i < rest.len() && owned_by(owners, #[trigger] rest[i])(line);
                assert(keys[i] == rest[i]);
            }
        }
    }
}

proof fn lemma_devices_counts_of_nothing(
    all: Seq<Seq<char>>,
    owners: Map<IpAddress, [u8; 6]>,
    keys: Seq<u64>,
)
    requires
        all.len() == 0,
    ensures
        devices_counts(all, owners, keys) == counts_of(Seq::empty()),
    decreases keys.len(),
{
    if keys.len() > 0 {
        lemma_devices_counts_of_nothing(all, owners, keys.drop_last());
        all.lemma_filter_len(owned_by(owners, keys.last()));
        assert(all.filter(owned_by(owners, keys.last())) =~= Seq::empty());
        lemma_counts_bound(Seq::empty());
    }
}

/// No connection is counted for two devices: different devices are together counted
/// with no more connections of any kind than there are.
pub proof fn law_devices_share_no_connection(
    all: Seq<Seq<char>>,
    owners: Map<IpAddress, [u8; 6]>,
    keys: Seq<u64>,
)
    requires
        keys.no_duplicates(),
    ensures
        at_most(devices_counts(all, owners, keys), counts_of(all)),
    decreases all.len(),
{
    if all.len() == 0 {
        lemma_devices_counts_of_nothing(all, owners, keys);
        lemma_counts_bound(Seq::empty());
    } else {
        let before = all.drop_last();
        law_devices_share_no_connection(before, owners, keys);
        assert(before.push(all.last()) =~= all);
        lemma_devices_counts_push(before, all.last(), owners, keys);
        lemma_counts_push(before, all.last());
    }
}

/// The devices that a dump counts are those that one of its two tables counts.
pub proof fn law_devices_of_both_tables(
    ipv4: Seq<char>,
    ipv6: Seq<char>,
    owners: Map<IpAddress, [u8; 6]>,
    shown: Map<u64, [u8; 4]>,
    timestamp: u64,
    of_ipv4: Map<u64, DeviceConnectionStats>,
    of_ipv6: Map<u64, DeviceConnectionStats>,
    of_both: Map<u64, DeviceConnectionStats>,
)
    requires
        ends_a_line(ipv4),
        are_device_stats(of_ipv4, lines(ipv4), owners, shown, timestamp),
        are_device_stats(of_ipv6, lines(ipv6), owners, shown, timestamp),
        are_device_stats(
            of_both,
            lines(dump_text(ipv4, Some(ipv6))),
            owners,
            shown,
            timestamp,
        ),
    ensures
        of_both.dom() == of_ipv4.dom().union(of_ipv6.dom()),
{
    let e = Seq::<char>::empty();
    let front = closed_lines(ipv4);
    lemma_empty_line();
    if ipv4.len() == 0 {
        assert(ipv4 + ipv6 =~= ipv6);
        assert(lines(ipv4) =~= front.push(e));
        assert(front + lines(ipv6) =~= lines(ipv6));
    } else {
        lemma_lines_of_both_tables(ipv4, ipv6);
    }
    assert forall|key: u64| of_both.dom().contains(key) == of_ipv4.dom().union(
        of_ipv6.dom(),
    ).contains(key) by {
        let p = owned_by(owners, key);
        front.lemma_filter_push(e, p);
        Seq::filter_distributes_over_add(front, lines(ipv6), p);
        assert(of_both.contains_key(key) == (lines(ipv4 + ipv6).filter(p).len() > 0));
        assert(of_ipv4.contains_key(key) == (lines(ipv4).filter(p).len() > 0));
        assert(of_ipv6.contains_key(key) == (lines(ipv6).filter(p).len() > 0));
    }
    assert(of_both.dom() =~= of_ipv4.dom().union(of_ipv6.dom()));
}

/// The statistics of the devices are determined: no two maps satisfy what is said of
/// them.
pub proof fn law_device_stats_are_determined(
    a: Map<u64, DeviceConnectionStats>,
    b: Map<u64, DeviceConnectionStats>,
    all: Seq<Seq<char>>,
    owners: Map<IpAddress, [u8; 6]>,
    shown: Map<u64, [u8; 4]>,
    timestamp: u64,
)
    requires
        are_device_stats(a, all, owners, shown, timestamp),
        are_device_stats(b, all, owners, shown, timestamp),
    ensures
        a == b,
{
    assert forall|key: u64| #[trigger] a.contains_key(key) implies b.contains_key(key) && a[key]
        == b[key] by {
        assert(b.contains_key(key));
        assert(is_device_entry(a[key], key, all, owners, shown, timestamp));
        assert(is_device_entry(b[key], key, all, owners, shown, timestamp));
        law_mac_bits_tell_devices_apart(a[key].mac_address, b[key].mac_address);
        assert(a[key].ip_address =~= b[key].ip_address);
        assert(a[key].counts() == b[key].counts());
    }
    assert forall|key: u64| #[trigger] b.contains_key(key) implies a.contains_key(key) by {
        assert(b.contains_key(key));
    }
    assert(a =~= b);
}

/// Every device in the statistics owns an address.
pub proof fn law_counted_devices_own_an_address(
    stats: Map<u64, DeviceConnectionStats>,
    all: Seq<Seq<char>>,
    owners: Map<IpAddress, [u8; 6]>,
    shown: Map<u64, [u8; 4]>,
    timestamp: u64,
    key: u64,
)
    requires
        are_device_stats(stats, all, owners, shown, timestamp),
        stats.contains_key(key),
    ensures
        exists|a: IpAddress| #[trigger]
            owners.contains_key(a) && owners[a] == stats[key].mac_address,
{
    let owned = all.filter(owned_by(owners, key));
    all.lemma_filter_pred(owned_by(owners, key), 0);
    let line = owned[0];
    let a = line_source(line)->0;
    assert(owners.contains_key(a));
    assert(mac_bits(owners[a]@) == key);
    assert(is_device_entry(stats[key], key, all, owners, shown, timestamp));
    law_mac_bits_tell_devices_apart(owners[a], stats[key].mac_address);
}

/// The class that a flow is counted in.
pub open spec fn flow_class(f: FlowView) -> ConnectionClass {
    if f.protocol == "tcp"@ {
        tcp_class(f.state)
    } else {
        ConnectionClass::Udp
    }
}

/// The flows and the statistics read an entry alike: a flow is a TCP or a UDP one, is
/// counted for its own source, and in the class of its own state.
pub proof fn law_flows_and_counts_agree(entry_words: Seq<Seq<char>>)
    requires
        flow(entry_words) is Some,
    ensures
        ({
            let f = flow(entry_words)->0;
            &&& f.protocol == "tcp"@ || f.protocol == "udp"@
            &&& source(entry_words) == Some(f.orig_src)
            &&& class(entry_words) == Some(flow_class(f))
            &&& f.protocol != "tcp"@ ==> f.state is None
        }),
{
}

/// The flows of class `c`.
pub open spec fn flow_of_class(c: ConnectionClass) -> spec_fn(FlowView) -> bool {
    |f: FlowView| flow_class(f) == c
}

/// The TCP flows.
pub open spec fn tcp_flow() -> spec_fn(FlowView) -> bool {
    |f: FlowView| flow_class(f) != ConnectionClass::Udp
}

/// How many flows there are of each class.
pub open spec fn flow_counts(list: Seq<FlowView>) -> Counts {
    Counts {
        total: list.len(),
        tcp: list.filter(tcp_flow()).len(),
        udp: list.filter(flow_of_class(ConnectionClass::Udp)).len(),
        established: list.filter(flow_of_class(ConnectionClass::Established)).len(),
        time_wait: list.filter(flow_of_class(ConnectionClass::TimeWait)).len(),
        close_wait: list.filter(flow_of_class(ConnectionClass::CloseWait)).len(),
    }
}

proof fn lemma_flow_counts_push(list: Seq<FlowView>, f: FlowView)
    ensures
        flow_counts(list.push(f)) == one_more(flow_counts(list), flow_class(f)),
{
    list.lemma_filter_push(f, tcp_flow());
    list.lemma_filter_push(f, flow_of_class(ConnectionClass::Udp));
    list.lemma_filter_push(f, flow_of_class(ConnectionClass::Established));
    list.lemma_filter_push(f, flow_of_class(ConnectionClass::TimeWait));
    list.lemma_filter_push(f, flow_of_class(ConnectionClass::CloseWait));
}

/// Does every TCP and every UDP entry on the lines give a flow?
pub open spec fn all_give_flows(all: Seq<Seq<char>>) -> bool {
    forall|i: int|
        0 <= i < all.len() && line_class(#[trigger] all[i]) is Some ==> line_flow()(all[i]) is Some
}

proof fn lemma_flows_within_counts(all: Seq<Seq<char>>)
    ensures
        at_most(flow_counts(all.filter_map(line_flow())), counts_of(all)),
        all_give_flows(all) ==> flow_counts(all.filter_map(line_flow())) == counts_of(all),
    decreases all.len(),
{
    let list = all.filter_map(line_flow());
    if all.len() == 0 {
        lemma_counts_bound(all);
        list.lemma_filter_len(tcp_flow());
        list.lemma_filter_len(flow_of_class(ConnectionClass::Udp));
        list.lemma_filter_len(flow_of_class(ConnectionClass::Established));
        list.lemma_filter_len(flow_of_class(ConnectionClass::TimeWait));
        list.lemma_filter_len(flow_of_class(ConnectionClass::CloseWait));
    } else {
        let rest = all.drop_last();
        let line = all.last();
        let before = rest.filter_map(line_flow());
        lemma_flows_within_counts(rest);
        assert(rest.push(line) =~= all);
        lemma_counts_push(rest, line);
        match line_flow()(line) {
            Some(f) => {
                law_flows_and_counts_agree(entry(line)->0);
                assert(list =~= before.push(f));
                lemma_flow_counts_push(before, f);
            },
            None => {},
        }
        if all_give_flows(all) {
            assert(all[all.len() - 1] == line);
            assert forall|i: int| 0 <= i < rest.len() && line_class(#[trigger] rest[i]) is Some
                implies line_flow()(rest[i]) is Some by {
                assert(rest[i] == all[i]);
            }
        }
    }
}

/// A dump has no more flows of any kind than its statistics count connections of that
/// kind, and as many where every TCP and every UDP entry gives a flow.
pub proof fn law_flows_within_counts(content: Seq<char>)
    ensures
        at_most(flow_counts(flows(content)), counts_of(lines(content))),
        all_give_flows(lines(content)) ==> flow_counts(flows(content)) == counts_of(
            lines(content),
        ),
{
    lemma_flows_within_counts(lines(content));
}

/// Does the pair say that an IPv4 address of the subnet belongs to the device?
pub open spec fn arp_says(
    pair: ([u8; 4], [u8; 6]),
    interface_ip: [u8; 4],
    subnet_mask: [u8; 4],
    bits: u32,
    mac: [u8; 6],
) -> bool {
    &&& in_subnet(pair.0@, interface_ip@, subnet_mask@)
    &&& ipv4_bits(pair.0@) == bits
    &&& pair.1 == mac
}

/// Does the neighbor's entry say that an IPv6 address under a prefix belongs to the
/// device?
pub open spec fn neighbor_says(
    neighbor: ([u8; 6], Vec<[u8; 16]>),
    prefixes: Seq<([u8; 16], u8)>,
    bits: u128,
    mac: [u8; 6],
) -> bool {
    &&& neighbor.0 == mac
    &&& exists|j: int|
        0 <= j < neighbor.1@.len() && in_any_prefix(#[trigger] neighbor.1@[j], prefixes)
            && ipv6_bits(octet_groups(neighbor.1@[j]@)) == bits
}

proof fn lemma_arp_owner(
    arp: Seq<([u8; 4], [u8; 6])>,
    interface_ip: [u8; 4],
    subnet_mask: [u8; 4],
    address: IpAddress,
)
    requires
        arp_owners(arp, interface_ip, subnet_mask).contains_key(address),
    ensures
        address matches IpAddress::V4(bits) && exists|i: int|
            0 <= i < arp.len() && arp_says(
                #[trigger] arp[i],
                interface_ip,
                subnet_mask,
                bits,
                arp_owners(arp, interface_ip, subnet_mask)[address],
            ),
    decreases arp.len(),
{
    if arp.len() > 0 {
        let (ip, mac) = arp.last();
        let rest = arp.drop_last();
        if in_subnet(ip@, interface_ip@, subnet_mask@) && address == IpAddress::V4(
            ipv4_bits(ip@),
        ) {
            assert(arp_says(arp[arp.len() - 1], interface_ip, subnet_mask, ipv4_bits(ip@), mac));
        } else {
            lemma_arp_owner(rest, interface_ip, subnet_mask, address);
            let bits = address->V4_0;
            let i = choose|i: int|
                0 <= i < rest.len() && arp_says(
                    #[trigger] rest[i],
                    interface_ip,
                    subnet_mask,
                    bits,
                    arp_owners(rest, interface_ip, subnet_mask)[address],
                );
            assert(arp[i] == rest[i]);
        }
    }
}

/// What the addresses of one device add to the owners.
pub proof fn lemma_with_addresses(
    owners: Map<IpAddress, [u8; 6]>,
    mac: [u8; 6],
    addresses: Seq<[u8; 16]>,
    prefixes: Seq<([u8; 16], u8)>,
    address: IpAddress,
)
    ensures
        ({
            let all = with_addresses(owners, mac, addresses, prefixes);
            let given = address matches IpAddress::V6(bits) && exists|j: int|
                0 <= j < addresses.len() && in_any_prefix(#[trigger] addresses[j], prefixes)
                    && ipv6_bits(octet_groups(addresses[j]@)) == bits;
            &&& all.contains_key(address) <==> given || owners.contains_key(address)
            &&& given ==> all[address] == mac
            &&& !given && owners.contains_key(address) ==> all[address] == owners[address]
        }),
    decreases addresses.len(),
{
    if addresses.len() > 0 {
        let rest = addresses.drop_last();
        lemma_with_addresses(owners, mac, rest, prefixes, address);
        if address is V6 {
            let bits = address->V6_0;
            if exists|j: int|
                0 <= j < rest.len() && in_any_prefix(#[trigger] rest[j], prefixes) && ipv6_bits(
                    octet_groups(rest[j]@),
                ) == bits {
                let j = choose|j: int|
                    0 <= j < rest.len() && in_any_prefix(#[trigger] rest[j], prefixes)
                        && ipv6_bits(octet_groups(rest[j]@)) == bits;
                assert(addresses[j] == rest[j]);
            }
            if exists|j: int|
                0 <= j < addresses.len() && in_any_prefix(#[trigger] addresses[j], prefixes)
                    && ipv6_bits(octet_groups(addresses[j]@)) == bits {
                let j = choose|j: int|
                    0 <= j < addresses.len() && in_any_prefix(#[trigger] addresses[j], prefixes)
                        && ipv6_bits(octet_groups(addresses[j]@)) == bits;
                if j < rest.len() {
                    assert(rest[j] == addresses[j]);
                }
            }
            assert(addresses[addresses.len() - 1] == addresses.last());
        }
    }
}

proof fn lemma_with_neighbors(
    owners: Map<IpAddress, [u8; 6]>,
    neighbors: Seq<([u8; 6], Vec<[u8; 16]>)>,
    prefixes: Seq<([u8; 16], u8)>,
    address: IpAddress,
)
    requires
        with_neighbors(owners, neighbors, prefixes).contains_key(address),
    ensures
        ({
            let all = with_neighbors(owners, neighbors, prefixes);
            ||| owners.contains_key(address) && all[address] == owners[address]
            ||| address matches IpAddress::V6(bits) && exists|i: int|
                0 <= i < neighbors.len() && neighbor_says(
                    #[trigger] neighbors[i],
                    prefixes,
                    bits,
                    all[address],
                )
        }),
    decreases neighbors.len(),
{
    if neighbors.len() > 0 {
        let rest = neighbors.drop_last();
        let before = with_neighbors(owners, rest, prefixes);
        let (mac, addresses) = neighbors.last();
        let all = with_neighbors(owners, neighbors, prefixes);
        lemma_with_addresses(before, mac, addresses@, prefixes, address);
        if address is V6 && neighbor_says(
            neighbors[neighbors.len() - 1],
            prefixes,
            address->V6_0,
            all[address],
        ) {
        } else {
            assert(before.contains_key(address) && all[address] == before[address]);
            lemma_with_neighbors(owners, rest, prefixes, address);
            if !(owners.contains_key(address) && before[address] == owners[address]) {
                let bits = address->V6_0;
                let i = choose|i: int|
                    0 <= i < rest.len() && neighbor_says(
                        #[trigger] rest[i],
                        prefixes,
                        bits,
                        before[address],
                    );
                assert(neighbors[i] == rest[i]);
            }
        }
    }
}

/// An address is given to a device only where a table says so: an IPv4 address that
/// lies in the subnet by the ARP table, an IPv6 address that lies under a prefix by
/// the neighbor table.
pub proof fn law_owned_addresses_are_local(
    arp: Seq<([u8; 4], [u8; 6])>,
    interface_ip: [u8; 4],
    subnet_mask: [u8; 4],
    neighbors: Seq<([u8; 6], Vec<[u8; 16]>)>,
    prefixes: Seq<([u8; 16], u8)>,
    address: IpAddress,
)
    requires
        with_neighbors(
            arp_owners(arp, interface_ip, subnet_mask),
            neighbors,
            prefixes,
        ).contains_key(address),
    ensures
        ({
            let owner = with_neighbors(
                arp_owners(arp, interface_ip, subnet_mask),
                neighbors,
                prefixes,
            )[address];
            match address {
                IpAddress::V4(bits) => exists|i: int|
                    0 <= i < arp.len() && arp_says(
                        #[trigger] arp[i],
                        interface_ip,
                        subnet_mask,
                        bits,
                        owner,
                    ),
                IpAddress::V6(bits) => exists|i: int|
                    0 <= i < neighbors.len() && neighbor_says(
                        #[trigger] neighbors[i],
                        prefixes,
                        bits,
                        owner,
                    ),
            }
        }),
{
    let base = arp_owners(arp, interface_ip, subnet_mask);
    lemma_with_neighbors(base, neighbors, prefixes, address);
    if base.contains_key(address) {
        lemma_arp_owner(arp, interface_ip, subnet_mask, address);
    }
}

/// An IPv4 address is owned only where the ARP table pairs that very address with its
/// owner and it lies in the subnet.
pub proof fn law_owned_ipv4_addresses_stand_in_the_arp_table(
    arp: Seq<([u8; 4], [u8; 6])>,
    interface_ip: [u8; 4],
    subnet_mask: [u8; 4],
    neighbors: Seq<([u8; 6], Vec<[u8; 16]>)>,
    prefixes: Seq<([u8; 16], u8)>,
    ip: [u8; 4],
)
    requires
        with_neighbors(
            arp_owners(arp, interface_ip, subnet_mask),
            neighbors,
            prefixes,
        ).contains_key(IpAddress::V4(ipv4_bits(ip@))),
    ensures
        in_subnet(ip@, interface_ip@, subnet_mask@),
        arp.contains(
            (
                ip,
                with_neighbors(
                    arp_owners(arp, interface_ip, subnet_mask),
                    neighbors,
                    prefixes,
                )[IpAddress::V4(ipv4_bits(ip@))],
            ),
        ),
{
    let address = IpAddress::V4(ipv4_bits(ip@));
    let owner = with_neighbors(
        arp_owners(arp, interface_ip, subnet_mask),
        neighbors,
        prefixes,
    )[address];
    law_owned_addresses_are_local(arp, interface_ip, subnet_mask, neighbors, prefixes, address);
    let i = choose|i: int|
        0 <= i < arp.len() && arp_says(
            #[trigger] arp[i],
            interface_ip,
            subnet_mask,
            ipv4_bits(ip@),
            owner,
        );
    law_ipv4_bits_tell_addresses_apart(arp[i].0, ip);
    assert(arp[i] == (ip, owner));
}

/// An IPv6 address is owned only where the neighbor table lists that very address for
/// its owner and it lies under a prefix.
pub proof fn law_owned_ipv6_addresses_stand_in_the_neighbor_table(
    arp: Seq<([u8; 4], [u8; 6])>,
    interface_ip: [u8; 4],
    subnet_mask: [u8; 4],
    neighbors: Seq<([u8; 6], Vec<[u8; 16]>)>,
    prefixes: Seq<([u8; 16], u8)>,
    addr: [u8; 16],
)
    requires
        with_neighbors(
            arp_owners(arp, interface_ip, subnet_mask),
            neighbors,
            prefixes,
        ).contains_key(IpAddress::V6(ipv6_bits(octet_groups(addr@)))),
    ensures
        in_any_prefix(addr, prefixes),
        exists|i: int|
            0 <= i < neighbors.len() && #[trigger] neighbors[i].1@.contains(addr)
                && neighbors[i].0 == with_neighbors(
                arp_owners(arp, interface_ip, subnet_mask),
                neighbors,
                prefixes,
            )[IpAddress::V6(ipv6_bits(octet_groups(addr@)))],
{
    let bits = ipv6_bits(octet_groups(addr@));
    let owner = with_neighbors(
        arp_owners(arp, interface_ip, subnet_mask),
        neighbors,
        prefixes,
    )[IpAddress::V6(bits)];
    law_owned_addresses_are_local(
        arp,
        interface_ip,
        subnet_mask,
        neighbors,
        prefixes,
        IpAddress::V6(bits),
    );
    let i = choose|i: int|
        0 <= i < neighbors.len() && neighbor_says(
            #[trigger] neighbors[i],
            prefixes,
            bits,
            owner,
        );
    let list = neighbors[i].1@;
    let j = choose|j: int|
        0 <= j < list.len() && in_any_prefix(#[trigger] list[j], prefixes) && ipv6_bits(
            octet_groups(list[j]@),
        ) == bits;
    law_ipv6_bits_tell_addresses_apart(list[j], addr);
    assert(neighbors[i].1@.contains(addr));
}

proof fn lemma_with_neighbors_keeps(
    owners: Map<IpAddress, [u8; 6]>,
    neighbors: Seq<([u8; 6], Vec<[u8; 16]>)>,
    prefixes: Seq<([u8; 16], u8)>,
    address: IpAddress,
)
    requires
        owners.contains_key(address),
    ensures
        with_neighbors(owners, neighbors, prefixes).contains_key(address),
        address is V4 ==> with_neighbors(owners, neighbors, prefixes)[address] == owners[address],
    decreases neighbors.len(),
{
    if neighbors.len() > 0 {
        let rest = neighbors.drop_last();
        lemma_with_neighbors_keeps(owners, rest, prefixes, address);
        lemma_with_addresses(
            with_neighbors(owners, rest, prefixes),
            neighbors.last().0,
            neighbors.last().1@,
            prefixes,
            address,
        );
    }
}

proof fn lemma_arp_owners_hold(
    arp: Seq<([u8; 4], [u8; 6])>,
    interface_ip: [u8; 4],
    subnet_mask: [u8; 4],
    i: int,
)
    requires
        0 <= i < arp.len(),
        in_subnet(arp[i].0@, interface_ip@, subnet_mask@),
    ensures
        arp_owners(arp, interface_ip, subnet_mask).contains_key(
            IpAddress::V4(ipv4_bits(arp[i].0@)),
        ),
    decreases arp.len(),
{
    if i < arp.len() - 1 {
        assert(arp.drop_last()[i] == arp[i]);
        lemma_arp_owners_hold(arp.drop_last(), interface_ip, subnet_mask, i);
    }
}

/// Every IPv4 address of the ARP table that lies in the subnet belongs to a device,
/// and the neighbor table does not change to which.
pub proof fn law_local_ipv4_addresses_are_owned(
    arp: Seq<([u8; 4], [u8; 6])>,
    interface_ip: [u8; 4],
    subnet_mask: [u8; 4],
    neighbors: Seq<([u8; 6], Vec<[u8; 16]>)>,
    prefixes: Seq<([u8; 16], u8)>,
    i: int,
)
    requires
        0 <= i < arp.len(),
        in_subnet(arp[i].0@, interface_ip@, subnet_mask@),
    ensures
        ({
            let address = IpAddress::V4(ipv4_bits(arp[i].0@));
            let base = arp_owners(arp, interface_ip, subnet_mask);
            let all = with_neighbors(base, neighbors, prefixes);
            all.contains_key(address) && all[address] == base[address]
        }),
{
    let base = arp_owners(arp, interface_ip, subnet_mask);
    lemma_arp_owners_hold(arp, interface_ip, subnet_mask, i);
    lemma_with_neighbors_keeps(base, neighbors, prefixes, IpAddress::V4(ipv4_bits(arp[i].0@)));
}

/// Every IPv6 address of the neighbor table that lies under a prefix belongs to a
/// device.
pub proof fn law_local_ipv6_addresses_are_owned(
    owners: Map<IpAddress, [u8; 6]>,
    neighbors: Seq<([u8; 6], Vec<[u8; 16]>)>,
    prefixes: Seq<([u8; 16], u8)>,
    i: int,
    j: int,
)
    requires
        0 <= i < neighbors.len(),
        0 <= j < neighbors[i].1@.len(),
        in_any_prefix(neighbors[i].1@[j], prefixes),
    ensures
        with_neighbors(owners, neighbors, prefixes).contains_key(
            IpAddress::V6(ipv6_bits(octet_groups(neighbors[i].1@[j]@))),
        ),
    decreases neighbors.len(),
{
    let address = IpAddress::V6(ipv6_bits(octet_groups(neighbors[i].1@[j]@)));
    let rest = neighbors.drop_last();
    if i < rest.len() {
        assert(rest[i] == neighbors[i]);
        law_local_ipv6_addresses_are_owned(owners, rest, prefixes, i, j);
    }
    lemma_with_addresses(
        with_neighbors(owners, rest, prefixes),
        neighbors.last().0,
        neighbors.last().1@,
        prefixes,
        address,
    );
}

proof fn lemma_no_prefix(
    owners: Map<IpAddress, [u8; 6]>,
    neighbors: Seq<([u8; 6], Vec<[u8; 16]>)>,
    prefixes: Seq<([u8; 16], u8)>,
)
    requires
        prefixes.len() == 0,
    ensures
        with_neighbors(owners, neighbors, prefixes) == owners,
    decreases neighbors.len(),
{
    if neighbors.len() > 0 {
        lemma_no_prefix(owners, neighbors.drop_last(), prefixes);
        lemma_no_prefix_of_one(owners, neighbors.last().0, neighbors.last().1@, prefixes);
    }
}

proof fn lemma_no_prefix_of_one(
    owners: Map<IpAddress, [u8; 6]>,
    mac: [u8; 6],
    addresses: Seq<[u8; 16]>,
    prefixes: Seq<([u8; 16], u8)>,
)
    requires
        prefixes.len() == 0,
    ensures
        with_addresses(owners, mac, addresses, prefixes) == owners,
    decreases addresses.len(),
{
    if addresses.len() > 0 {
        lemma_no_prefix_of_one(owners, mac, addresses.drop_last(), prefixes);
    }
}

/// An interface without a global or a unique local prefix, such as one with
/// link-local addresses alone, gives no device an IPv6 address: the neighbor table
/// need not be read.
pub proof fn law_link_local_prefixes_own_nothing(
    owners: Map<IpAddress, [u8; 6]>,
    neighbors: Seq<([u8; 6], Vec<[u8; 16]>)>,
    interface_ipv6: Seq<([u8; 16], u8)>,
)
    requires
        forall|i: int|
            0 <= i < interface_ipv6.len() ==> ipv6_type(#[trigger] interface_ipv6[i].0@)
                != Ipv6AddressType::GlobalUnicast && ipv6_type(interface_ipv6[i].0@)
                != Ipv6AddressType::UniqueLocal,
    ensures
        interface_ipv6.filter(is_lan_prefix()).len() == 0,
        with_neighbors(owners, neighbors, interface_ipv6.filter(is_lan_prefix())) == owners,
{
    assert forall|i: int| 0 <= i < interface_ipv6.len() implies !is_lan_prefix()(
        #[trigger] interface_ipv6[i],
    ) by {
        assert(ipv6_type(interface_ipv6[i].0@) != Ipv6AddressType::GlobalUnicast);
    }
    interface_ipv6.lemma_all_neg_filter_empty(is_lan_prefix());
    lemma_no_prefix(owners, neighbors, interface_ipv6.filter(is_lan_prefix()));
}

/// A device is shown with an IPv4 address if and only if one of its addresses in the
/// ARP table lies in the subnet, and then with the first of them.
pub proof fn law_devices_are_shown_with_their_first_address(
    arp: Seq<([u8; 4], [u8; 6])>,
    interface_ip: [u8; 4],
    subnet_mask: [u8; 4],
    key: u64,
)
    ensures
        ({
            let shown = shown_addresses(arp, interface_ip, subnet_mask);
            &&& shown.contains_key(key) ==> exists|i: int|
                {
                    &&& 0 <= i < arp.len()
                    &&& mac_bits(#[trigger] arp[i].1@) == key
                    &&& in_subnet(arp[i].0@, interface_ip@, subnet_mask@)
                    &&& shown[key] == arp[i].0
                    &&& forall|j: int|
                        0 <= j < i && mac_bits(#[trigger] arp[j].1@) == key ==> !in_subnet(
                            arp[j].0@,
                            interface_ip@,
                            subnet_mask@,
                        )
                }
            &&& !shown.contains_key(key) ==> forall|i: int|
                0 <= i < arp.len() && mac_bits(#[trigger] arp[i].1@) == key ==> !in_subnet(
                    arp[i].0@,
                    interface_ip@,
                    subnet_mask@,
                )
        }),
    decreases arp.len(),
{
    if arp.len() > 0 {
        let rest = arp.drop_last();
        let before = shown_addresses(rest, interface_ip, subnet_mask);
        law_devices_are_shown_with_their_first_address(rest, interface_ip, subnet_mask, key);
        assert forall|j: int| 0 <= j < rest.len() implies rest[j] == arp[j] by {}
        if before.contains_key(key) {
            let i = choose|i: int|
                {
                    &&& 0 <= i < rest.len()
                    &&& mac_bits(#[trigger] rest[i].1@) == key
                    &&& in_subnet(rest[i].0@, interface_ip@, subnet_mask@)
                    &&& before[key] == rest[i].0
                    &&& forall|j: int|
                        0 <= j < i && mac_bits(#[trigger] rest[j].1@) == key ==> !in_subnet(
                            rest[j].0@,
                            interface_ip@,
                            subnet_mask@,
                        )
                };
            assert(mac_bits(arp[i].1@) == key);
            assert forall|j: int| 0 <= j < i && mac_bits(#[trigger] arp[j].1@) == key implies
                !in_subnet(arp[j].0@, interface_ip@, subnet_mask@) by {
                assert(mac_bits(rest[j].1@) == key);
            }
        } else {
            assert forall|j: int|
                0 <= j < rest.len() && mac_bits(#[trigger] arp[j].1@) == key implies !in_subnet(
                arp[j].0@,
                interface_ip@,
                subnet_mask@,
            ) by {
                assert(mac_bits(rest[j].1@) == key);
            }
            let last = arp.len() - 1;
            if shown_addresses(arp, interface_ip, subnet_mask).contains_key(key) {
                assert(mac_bits(arp[last].1@) == key);
            }
        }
    }
}

/// A device with no address of the ARP table in the subnet, such as one with IPv6
/// alone, is shown with 0.0.0.0.
pub proof fn law_ipv6_devices_are_shown_with_zeros(
    stats: Map<u64, DeviceConnectionStats>,
    all: Seq<Seq<char>>,
    owners: Map<IpAddress, [u8; 6]>,
    arp: Seq<([u8; 4], [u8; 6])>,
    interface_ip: [u8; 4],
    subnet_mask: [u8; 4],
    timestamp: u64,
    key: u64,
)
    requires
        are_device_stats(
            stats,
            all,
            owners,
            shown_addresses(arp, interface_ip, subnet_mask),
            timestamp,
        ),
        stats.contains_key(key),
        forall|i: int|
            0 <= i < arp.len() && mac_bits(#[trigger] arp[i].1@) == key ==> !in_subnet(
                arp[i].0@,
                interface_ip@,
                subnet_mask@,
            ),
    ensures
        stats[key].ip_address@ == seq![0u8, 0u8, 0u8, 0u8],
{
    law_devices_are_shown_with_their_first_address(arp, interface_ip, subnet_mask, key);
}

/// The octet of a subnet mask of which the first `bits` bits are ones.
pub open spec fn mask_octet(bits: int) -> u8 {
    if bits <= 0 {
        0
    } else if bits == 1 {
        128
    } else if bits == 2 {
        192
    } else if bits == 3 {
        224
    } else if bits == 4 {
        240
    } else if bits == 5 {
        248
    } else if bits == 6 {
        252
    } else if bits == 7 {
        254
    } else {
        255
    }
}

proof fn lemma_mask_octet_ones(bits: int)
    ensures
        ones(mask_octet(bits)) == if bits <= 0 {
            0
        } else if bits >= 8 {
            8
        } else {
            bits
        },
{
    reveal_with_fuel(ones, 9);
}

/// A subnet mask whose first `len` bits are its ones stands for a prefix of that
/// length.
pub proof fn law_mask_of_a_prefix(mask: Seq<u8>, len: int)
    requires
        0 <= len <= 32,
        mask == seq![
            mask_octet(len),
            mask_octet(len - 8),
            mask_octet(len - 16),
            mask_octet(len - 24),
        ],
    ensures
        mask_ones(mask) == len,
{
    lemma_mask_octet_ones(len);
    lemma_mask_octet_ones(len - 8);
    lemma_mask_octet_ones(len - 16);
    lemma_mask_octet_ones(len - 24);
}

} // verus!
