//! What the statistics count, and for whom.

use crate::address::IpAddress;
use crate::devices::{law_mac_bits_tell_devices_apart, mac_bits, shown_addresses};
use crate::entry::{line_class, line_source, ConnectionClass};
use crate::laws::law_devices_are_shown_with_their_first_address;
use crate::network::in_subnet;
use crate::stats::{
    are_device_stats, counts_of, is_device_entry, lemma_counts_bound, lemma_counts_push, no_stats,
    owned_by, ConnectionStats, Counts, DeviceConnectionStats,
};
use vstd::prelude::*;

verus! {

/// The counts of one connection that is of TCP or not, and in one of three states or
/// in none of them.
pub open spec fn one_connection(
    tcp: bool,
    established: bool,
    time_wait: bool,
    close_wait: bool,
) -> Counts {
    Counts {
        total: 1,
        tcp: if tcp {
            1
        } else {
            0
        },
        udp: if tcp {
            0
        } else {
            1
        },
        established: if established {
            1
        } else {
            0
        },
        time_wait: if time_wait {
            1
        } else {
            0
        },
        close_wait: if close_wait {
            1
        } else {
            0
        },
    }
}

/// The counts of one line: one connection of its class, or nothing.
pub proof fn law_counts_of_one_line(line: Seq<char>)
    ensures
        counts_of(seq![line]) == match line_class(line) {
            Some(ConnectionClass::Established) => one_connection(true, true, false, false),
            Some(ConnectionClass::TimeWait) => one_connection(true, false, true, false),
            Some(ConnectionClass::CloseWait) => one_connection(true, false, false, true),
            Some(ConnectionClass::OtherTcp) => one_connection(true, false, false, false),
            Some(ConnectionClass::Udp) => one_connection(false, false, false, false),
            None => Counts {
                total: 0,
                tcp: 0,
                udp: 0,
                established: 0,
                time_wait: 0,
                close_wait: 0,
            },
        },
{
    let none = Seq::<Seq<char>>::empty();
    lemma_counts_bound(none);
    lemma_counts_push(none, line);
    assert(none.push(line) =~= seq![line]);
}

/// The counts of statistics are what their fields say.
pub proof fn law_counts_are_the_fields(s: ConnectionStats, d: DeviceConnectionStats)
    ensures
        s.counts().total == s.total_connections,
        s.counts().tcp == s.tcp_connections,
        s.counts().udp == s.udp_connections,
        s.counts().established == s.established_tcp,
        s.counts().time_wait == s.time_wait_tcp,
        s.counts().close_wait == s.close_wait_tcp,
        d.counts().total == d.total_connections,
        d.counts().tcp == d.tcp_connections,
        d.counts().udp == d.udp_connections,
        d.counts().established == d.established_tcp,
        d.counts().time_wait == d.time_wait_tcp,
        d.counts().close_wait == d.close_wait_tcp,
        no_stats().counts() == counts_of(Seq::empty()),
        no_stats().last_updated == 0,
{
    lemma_counts_bound(Seq::<Seq<char>>::empty());
}

/// Has the entry on `line` a source that belongs to the device `key`?
pub open spec fn comes_from(line: Seq<char>, owners: Map<IpAddress, [u8; 6]>, key: u64) -> bool {
    &&& line_source(line) is Some
    &&& owners.contains_key(line_source(line)->0)
    &&& mac_bits(owners[line_source(line)->0]@) == key
}

/// The lines that come from the device `key`.
pub open spec fn coming_from(
    owners: Map<IpAddress, [u8; 6]>,
    key: u64,
) -> spec_fn(Seq<char>) -> bool {
    |line: Seq<char>| comes_from(line, owners, key)
}

/// A line is counted for a device if and only if its source belongs to the device. A
/// line without a source, or with one that belongs to no device, is counted for none.
pub proof fn law_lines_are_counted_for_their_source(
    line: Seq<char>,
    owners: Map<IpAddress, [u8; 6]>,
    key: u64,
)
    ensures
        owned_by(owners, key)(line) <==> comes_from(line, owners, key),
        line_source(line) is None ==> !owned_by(owners, key)(line),
        line_source(line) matches Some(a) ==> !owners.contains_key(a) ==> !owned_by(owners, key)(
            line,
        ),
{
}

/// The statistics of a device count the lines whose source belongs to it, and no
/// others. A device that is the source of no line has none.
pub proof fn law_devices_are_counted_for_their_sources(
    stats: Map<u64, DeviceConnectionStats>,
    all: Seq<Seq<char>>,
    owners: Map<IpAddress, [u8; 6]>,
    shown: Map<u64, [u8; 4]>,
    timestamp: u64,
    key: u64,
)
    requires
        are_device_stats(stats, all, owners, shown, timestamp),
    ensures
        stats.contains_key(key) <==> exists|i: int|
            0 <= i < all.len() && comes_from(#[trigger] all[i], owners, key),
        stats.contains_key(key) ==> {
            &&& stats[key].counts() == counts_of(all.filter(coming_from(owners, key)))
            &&& mac_bits(stats[key].mac_address@) == key
            &&& stats[key].last_updated == timestamp
            &&& shown.contains_key(key) ==> stats[key].ip_address@ == shown[key]@
            &&& !shown.contains_key(key) ==> stats[key].ip_address@ == seq![0u8, 0u8, 0u8, 0u8]
        },
{
    assert(owned_by(owners, key) =~= coming_from(owners, key));
    let mine = all.filter(coming_from(owners, key));
    if mine.len() > 0 {
        all.lemma_filter_pred(coming_from(owners, key), 0);
        all.lemma_filter_contains_rev(coming_from(owners, key), mine[0]);
        let i = choose|i: int| 0 <= i < all.len() && all[i] == mine[0];
        assert(comes_from(all[i], owners, key));
    }
    if exists|i: int| 0 <= i < all.len() && comes_from(#[trigger] all[i], owners, key) {
        let i = choose|i: int| 0 <= i < all.len() && comes_from(#[trigger] all[i], owners, key);
        all.lemma_filter_contains(coming_from(owners, key), i);
    }
    if stats.contains_key(key) {
        assert(is_device_entry(stats[key], key, all, owners, shown, timestamp));
    }
}

proof fn lemma_same_counts(
    a: Seq<Seq<char>>,
    b: Seq<Seq<char>>,
    owners: Map<IpAddress, [u8; 6]>,
    key: u64,
)
    requires
        a.len() == b.len(),
        forall|i: int|
            0 <= i < a.len() ==> line_class(#[trigger] a[i]) == line_class(b[i]) && line_source(a[i])
                == line_source(b[i]),
    ensures
        counts_of(a) == counts_of(b),
        a.filter(owned_by(owners, key)).len() == b.filter(owned_by(owners, key)).len(),
        counts_of(a.filter(owned_by(owners, key))) == counts_of(b.filter(owned_by(owners, key))),
    decreases a.len(),
{
    let p = owned_by(owners, key);
    if a.len() == 0 {
        assert(a =~= b);
    } else {
        let (c, d) = (a.drop_last(), b.drop_last());
        let (x, y) = (a[a.len() - 1], b[b.len() - 1]);
        assert forall|i: int| 0 <= i < c.len() implies line_class(#[trigger] c[i]) == line_class(
            d[i],
        ) && line_source(c[i]) == line_source(d[i]) by {
            assert(c[i] == a[i] && d[i] == b[i]);
        }
        lemma_same_counts(c, d, owners, key);
        assert(c.push(x) =~= a);
        assert(d.push(y) =~= b);
        assert(line_class(x) == line_class(y) && line_source(x) == line_source(y));
        lemma_counts_push(c, x);
        lemma_counts_push(d, y);
        c.lemma_filter_push(x, p);
        d.lemma_filter_push(y, p);
        lemma_counts_push(c.filter(p), x);
        lemma_counts_push(d.filter(p), y);
    }
}

/// The statistics depend on the classes and the sources of the lines alone: lines
/// with other destinations, ports or counters give the same.
pub proof fn law_statistics_depend_on_class_and_source(
    stats: Map<u64, DeviceConnectionStats>,
    a: Seq<Seq<char>>,
    b: Seq<Seq<char>>,
    owners: Map<IpAddress, [u8; 6]>,
    shown: Map<u64, [u8; 4]>,
    timestamp: u64,
)
    requires
        a.len() == b.len(),
        forall|i: int|
            0 <= i < a.len() ==> line_class(#[trigger] a[i]) == line_class(b[i]) && line_source(a[i])
                == line_source(b[i]),
        are_device_stats(stats, a, owners, shown, timestamp),
    ensures
        counts_of(a) == counts_of(b),
        are_device_stats(stats, b, owners, shown, timestamp),
{
    lemma_same_counts(a, b, owners, 0);
    assert forall|key: u64|
        {
            &&& #[trigger] stats.contains_key(key) <==> b.filter(owned_by(owners, key)).len() > 0
            &&& stats.contains_key(key) ==> is_device_entry(
                stats[key],
                key,
                b,
                owners,
                shown,
                timestamp,
            )
        } by {
        lemma_same_counts(a, b, owners, key);
        if stats.contains_key(key) {
            assert(is_device_entry(stats[key], key, a, owners, shown, timestamp));
        }
    }
}

/// A device is shown with the address of its first pair in the ARP table that lies in
/// the subnet.
pub proof fn law_devices_are_listed_with_their_first_address(
    stats: Map<u64, DeviceConnectionStats>,
    all: Seq<Seq<char>>,
    owners: Map<IpAddress, [u8; 6]>,
    arp: Seq<([u8; 4], [u8; 6])>,
    interface_ip: [u8; 4],
    subnet_mask: [u8; 4],
    timestamp: u64,
    i: int,
)
    requires
        are_device_stats(
            stats,
            all,
            owners,
            shown_addresses(arp, interface_ip, subnet_mask),
            timestamp,
        ),
        0 <= i < arp.len(),
        in_subnet(arp[i].0@, interface_ip@, subnet_mask@),
        forall|j: int|
            0 <= j < i && (#[trigger] arp[j]).1 == arp[i].1 ==> !in_subnet(
                arp[j].0@,
                interface_ip@,
                subnet_mask@,
            ),
        stats.contains_key(mac_bits(arp[i].1@)),
    ensures
        stats[mac_bits(arp[i].1@)].ip_address == arp[i].0,
        stats[mac_bits(arp[i].1@)].mac_address == arp[i].1,
{
    let key = mac_bits(arp[i].1@);
    let shown = shown_addresses(arp, interface_ip, subnet_mask);
    assert(is_device_entry(stats[key], key, all, owners, shown, timestamp));
    law_mac_bits_tell_devices_apart(stats[key].mac_address, arp[i].1);
    law_devices_are_shown_with_their_first_address(arp, interface_ip, subnet_mask, key);
    if shown.contains_key(key) {
        let k = choose|k: int|
            {
                &&& 0 <= k < arp.len()
                &&& mac_bits(#[trigger] arp[k].1@) == key
                &&& in_subnet(arp[k].0@, interface_ip@, subnet_mask@)
                &&& shown[key] == arp[k].0
                &&& forall|j: int|
                    0 <= j < k && mac_bits(#[trigger] arp[j].1@) == key ==> !in_subnet(
                        arp[j].0@,
                        interface_ip@,
                        subnet_mask@,
                    )
            };
        law_mac_bits_tell_devices_apart(arp[k].1, arp[i].1);
        if k < i {
            assert(arp[k].1 == arp[i].1);
        } else if i < k {
            assert(mac_bits(arp[i].1@) == key);
        }
        assert(k == i);
        assert(stats[key].ip_address =~= arp[i].0);
    } else {
        assert(mac_bits(arp[i].1@) == key);
    }
}

} // verus!
