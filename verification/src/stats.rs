//! Connection counts, over all connections and for each local device.

use crate::address::IpAddress;
use crate::devices::{mac_bits, pack_mac, LocalDevices};
use crate::entry::{
    classify, find_source, line_class, line_source, parse_entry, ConnectionClass,
};
use crate::text::{lines, split_on, texts, to_chars};
use std::collections::HashMap;
use vstd::prelude::*;

verus! {

broadcast use vstd::std_specs::hash::group_hash_axioms;

/// Counts of connections, and when they were taken.
#[derive(Clone, Copy, Debug, PartialEq, Eq)]
pub struct ConnectionStats {
    pub total_connections: u64,
    pub tcp_connections: u64,
    pub udp_connections: u64,
    pub established_tcp: u64,
    pub time_wait_tcp: u64,
    pub close_wait_tcp: u64,
    pub last_updated: u64,
}

/// Counts of the connections that one device is the source of.
#[derive(Clone, Copy, Debug, PartialEq, Eq)]
pub struct DeviceConnectionStats {
    pub mac_address: [u8; 6],
    pub ip_address: [u8; 4],
    pub total_connections: u64,
    pub tcp_connections: u64,
    pub udp_connections: u64,
    pub established_tcp: u64,
    pub time_wait_tcp: u64,
    pub close_wait_tcp: u64,
    pub last_updated: u64,
}

/// The statistics of one dump.
#[derive(Clone, Debug)]
pub struct GlobalConnectionStats {
    /// Over all TCP and UDP connections, whatever their source and their state.
    pub total_stats: ConnectionStats,
    /// For each device of the local network, by the number that its MAC address
    /// writes.
    pub device_stats: HashMap<u64, DeviceConnectionStats>,
    pub last_updated: u64,
}

/// Numbers of connections, by class.
pub struct Counts {
    pub total: nat,
    pub tcp: nat,
    pub udp: nat,
    pub established: nat,
    pub time_wait: nat,
    pub close_wait: nat,
}

impl ConnectionStats {
    pub open spec fn counts(&self) -> Counts {
        Counts {
            total: self.total_connections as nat,
            tcp: self.tcp_connections as nat,
            udp: self.udp_connections as nat,
            established: self.established_tcp as nat,
            time_wait: self.time_wait_tcp as nat,
            close_wait: self.close_wait_tcp as nat,
        }
    }
}

impl DeviceConnectionStats {
    pub open spec fn counts(&self) -> Counts {
        Counts {
            total: self.total_connections as nat,
            tcp: self.tcp_connections as nat,
            udp: self.udp_connections as nat,
            established: self.established_tcp as nat,
            time_wait: self.time_wait_tcp as nat,
            close_wait: self.close_wait_tcp as nat,
        }
    }
}

/// The lines whose entry is of class `c`.
pub open spec fn of_class(c: ConnectionClass) -> spec_fn(Seq<char>) -> bool {
    |line: Seq<char>| line_class(line) == Some(c)
}

/// The lines with a TCP or a UDP entry.
pub open spec fn counted() -> spec_fn(Seq<char>) -> bool {
    |line: Seq<char>| line_class(line) is Some
}

/// The lines with a TCP entry.
pub open spec fn counted_tcp() -> spec_fn(Seq<char>) -> bool {
    |line: Seq<char>|
        line_class(line) is Some && line_class(line) != Some(ConnectionClass::Udp)
}

/// How many entries of each class stand on the lines.
pub open spec fn counts_of(lines: Seq<Seq<char>>) -> Counts {
    Counts {
        total: lines.filter(counted()).len(),
        tcp: lines.filter(counted_tcp()).len(),
        udp: lines.filter(of_class(ConnectionClass::Udp)).len(),
        established: lines.filter(of_class(ConnectionClass::Established)).len(),
        time_wait: lines.filter(of_class(ConnectionClass::TimeWait)).len(),
        close_wait: lines.filter(of_class(ConnectionClass::CloseWait)).len(),
    }
}

/// The device that is the source of the entry on `line`.
pub open spec fn line_owner(line: Seq<char>, owners: Map<IpAddress, [u8; 6]>) -> Option<[u8; 6]> {
    match line_source(line) {
        Some(address) if owners.contains_key(address) => Some(owners[address]),
        _ => None,
    }
}

/// The lines whose entry has the device `key` as its source.
pub open spec fn owned_by(owners: Map<IpAddress, [u8; 6]>, key: u64) -> spec_fn(Seq<char>) -> bool {
    |line: Seq<char>|
        line_owner(line, owners) matches Some(mac) && mac_bits(mac@) == key
}

/// Are these the statistics of the device `key`, which are taken over its lines
/// alone? A device without an IPv4 address is shown with 0.0.0.0.
pub open spec fn is_device_entry(
    d: DeviceConnectionStats,
    key: u64,
    lines: Seq<Seq<char>>,
    owners: Map<IpAddress, [u8; 6]>,
    shown: Map<u64, [u8; 4]>,
    timestamp: u64,
) -> bool {
    &&& mac_bits(d.mac_address@) == key
    &&& d.ip_address@ == if shown.contains_key(key) {
        shown[key]@
    } else {
        seq![0u8, 0u8, 0u8, 0u8]
    }
    &&& d.counts() == counts_of(lines.filter(owned_by(owners, key)))
    &&& d.last_updated == timestamp
}

/// Are these the statistics of all devices? Those that own a line have an entry,
/// and no others.
pub open spec fn are_device_stats(
    stats: Map<u64, DeviceConnectionStats>,
    lines: Seq<Seq<char>>,
    owners: Map<IpAddress, [u8; 6]>,
    shown: Map<u64, [u8; 4]>,
    timestamp: u64,
) -> bool {
    forall|key: u64|
        {
            &&& #[trigger] stats.contains_key(key) <==> lines.filter(owned_by(owners, key)).len()
                > 0
            &&& stats.contains_key(key) ==> is_device_entry(
                stats[key],
                key,
                lines,
                owners,
                shown,
                timestamp,
            )
        }
}

/// `c` with one more connection of the class.
pub open spec fn one_more(c: Counts, class: ConnectionClass) -> Counts {
    match class {
        ConnectionClass::Udp => Counts { total: c.total + 1, udp: c.udp + 1, ..c },
        ConnectionClass::Established => Counts {
            total: c.total + 1,
            tcp: c.tcp + 1,
            established: c.established + 1,
            ..c
        },
        ConnectionClass::TimeWait => Counts {
            total: c.total + 1,
            tcp: c.tcp + 1,
            time_wait: c.time_wait + 1,
            ..c
        },
        ConnectionClass::CloseWait => Counts {
            total: c.total + 1,
            tcp: c.tcp + 1,
            close_wait: c.close_wait + 1,
            ..c
        },
        ConnectionClass::OtherTcp => Counts { total: c.total + 1, tcp: c.tcp + 1, ..c },
    }
}

/// A line more adds its entry to the counts.
pub proof fn lemma_counts_push(lines: Seq<Seq<char>>, line: Seq<char>)
    ensures
        counts_of(lines.push(line)) == match line_class(line) {
            Some(class) => one_more(counts_of(lines), class),
            None => counts_of(lines),
        },
{
    lines.lemma_filter_push(line, counted());
    lines.lemma_filter_push(line, counted_tcp());
    lines.lemma_filter_push(line, of_class(ConnectionClass::Udp));
    lines.lemma_filter_push(line, of_class(ConnectionClass::Established));
    lines.lemma_filter_push(line, of_class(ConnectionClass::TimeWait));
    lines.lemma_filter_push(line, of_class(ConnectionClass::CloseWait));
}

/// There are no more entries than lines.
pub proof fn lemma_counts_bound(lines: Seq<Seq<char>>)
    ensures
        counts_of(lines).total <= lines.len(),
        counts_of(lines).tcp <= lines.len(),
        counts_of(lines).udp <= lines.len(),
        counts_of(lines).established <= lines.len(),
        counts_of(lines).time_wait <= lines.len(),
        counts_of(lines).close_wait <= lines.len(),
{
    lines.lemma_filter_len(counted());
    lines.lemma_filter_len(counted_tcp());
    lines.lemma_filter_len(of_class(ConnectionClass::Udp));
    lines.lemma_filter_len(of_class(ConnectionClass::Established));
    lines.lemma_filter_len(of_class(ConnectionClass::TimeWait));
    lines.lemma_filter_len(of_class(ConnectionClass::CloseWait));
}

proof fn lemma_counts_of_nothing()
    ensures
        counts_of(Seq::<Seq<char>>::empty()) == (Counts {
            total: 0,
            tcp: 0,
            udp: 0,
            established: 0,
            time_wait: 0,
            close_wait: 0,
        }),
{
    lemma_counts_bound(Seq::<Seq<char>>::empty());
}

/// Statistics without a connection, never updated.
pub open spec fn no_stats() -> ConnectionStats {
    ConnectionStats {
        total_connections: 0,
        tcp_connections: 0,
        udp_connections: 0,
        established_tcp: 0,
        time_wait_tcp: 0,
        close_wait_tcp: 0,
        last_updated: 0,
    }
}

impl Default for ConnectionStats {
    fn default() -> (s: Self)
        ensures
            s == no_stats(),
    {
        ConnectionStats {
            total_connections: 0,
            tcp_connections: 0,
            udp_connections: 0,
            established_tcp: 0,
            time_wait_tcp: 0,
            close_wait_tcp: 0,
            last_updated: 0,
        }
    }
}

impl Default for GlobalConnectionStats {
    fn default() -> (s: Self)
        ensures
            s.total_stats == no_stats(),
            s.device_stats@ == Map::<u64, DeviceConnectionStats>::empty(),
            s.last_updated == 0,
    {
        GlobalConnectionStats {
            total_stats: ConnectionStats::default(),
            device_stats: HashMap::new(),
            last_updated: 0,
        }
    }
}

impl ConnectionStats {
    /// Counts one more connection of the class.
    fn record(&mut self, class: ConnectionClass)
        requires
            old(self).counts().total < u64::MAX,
            old(self).counts().tcp < u64::MAX,
            old(self).counts().udp < u64::MAX,
            old(self).counts().established < u64::MAX,
            old(self).counts().time_wait < u64::MAX,
            old(self).counts().close_wait < u64::MAX,
        ensures
            final(self).counts() == one_more(old(self).counts(), class),
            final(self).last_updated == old(self).last_updated,
    {
        match class {
            ConnectionClass::Established => {
                self.tcp_connections = self.tcp_connections + 1;
                self.established_tcp = self.established_tcp + 1;
            },
            ConnectionClass::TimeWait => {
                self.tcp_connections = self.tcp_connections + 1;
                self.time_wait_tcp = self.time_wait_tcp + 1;
            },
            ConnectionClass::CloseWait => {
                self.tcp_connections = self.tcp_connections + 1;
                self.close_wait_tcp = self.close_wait_tcp + 1;
            },
            ConnectionClass::OtherTcp => {
                self.tcp_connections = self.tcp_connections + 1;
            },
            ConnectionClass::Udp => {
                self.udp_connections = self.udp_connections + 1;
            },
        }
        self.total_connections = self.total_connections + 1;
    }
}

impl DeviceConnectionStats {
    /// A device without connections.
    fn new(mac: [u8; 6], ip: [u8; 4], timestamp: u64) -> (d: Self)
        ensures
            d.mac_address == mac,
            d.ip_address == ip,
            d.counts() == counts_of(Seq::empty()),
            d.last_updated == timestamp,
    {
        proof {
            lemma_counts_of_nothing();
        }
        DeviceConnectionStats {
            mac_address: mac,
            ip_address: ip,
            total_connections: 0,
            tcp_connections: 0,
            udp_connections: 0,
            established_tcp: 0,
            time_wait_tcp: 0,
            close_wait_tcp: 0,
            last_updated: timestamp,
        }
    }

    /// Counts one more connection of the class.
    fn record(&mut self, class: ConnectionClass)
        requires
            old(self).counts().total < u64::MAX,
            old(self).counts().tcp < u64::MAX,
            old(self).counts().udp < u64::MAX,
            old(self).counts().established < u64::MAX,
            old(self).counts().time_wait < u64::MAX,
            old(self).counts().close_wait < u64::MAX,
        ensures
            final(self).counts() == one_more(old(self).counts(), class),
            final(self).mac_address == old(self).mac_address,
            final(self).ip_address == old(self).ip_address,
            final(self).last_updated == old(self).last_updated,
    {
        match class {
            ConnectionClass::Established => {
                self.tcp_connections = self.tcp_connections + 1;
                self.established_tcp = self.established_tcp + 1;
            },
            ConnectionClass::TimeWait => {
                self.tcp_connections = self.tcp_connections + 1;
                self.time_wait_tcp = self.time_wait_tcp + 1;
            },
            ConnectionClass::CloseWait => {
                self.tcp_connections = self.tcp_connections + 1;
                self.close_wait_tcp = self.close_wait_tcp + 1;
            },
            ConnectionClass::OtherTcp => {
                self.tcp_connections = self.tcp_connections + 1;
            },
            ConnectionClass::Udp => {
                self.udp_connections = self.udp_connections + 1;
            },
        }
        self.total_connections = self.total_connections + 1;
    }
}

/// Counts the entry of a line for the device that is its source, where it has one.
fn record_device(
    stats: &mut HashMap<u64, DeviceConnectionStats>,
    mac: [u8; 6],
    class: Option<ConnectionClass>,
    devices: &LocalDevices,
    timestamp: u64,
    Ghost(lines): Ghost<Seq<Seq<char>>>,
    Ghost(line): Ghost<Seq<char>>,
)
    requires
        lines.len() < u64::MAX,
        line_owner(line, devices.owners()) == Some(mac),
        line_class(line) == class,
        are_device_stats(old(stats)@, lines, devices.owners(), devices.shown(), timestamp),
    ensures
        are_device_stats(
            final(stats)@,
            lines.push(line),
            devices.owners(),
            devices.shown(),
            timestamp,
        ),
{
    let key: u64 = pack_mac(mac);
    let ghost owners = devices.owners();
    let ghost owned = lines.filter(owned_by(owners, key));
    let mut d: DeviceConnectionStats = match stats.get(&key) {
        Some(d) => *d,
        None => {
            let ip: [u8; 4] = match devices.shown_ipv4(mac) {
                Some(ip) => ip,
                None => [0, 0, 0, 0],
            };
            assert(owned =~= Seq::empty());
            DeviceConnectionStats::new(mac, ip, timestamp)
        },
    };
    proof {
        lines.lemma_filter_len(owned_by(owners, key));
        lemma_counts_bound(owned);
        lemma_counts_push(owned, line);
        assert forall|k: u64| #[trigger]
            lines.push(line).filter(owned_by(owners, k)) == if k == key {
                owned.push(line)
            } else {
                lines.filter(owned_by(owners, k))
            } by {
            lines.lemma_filter_push(line, owned_by(owners, k));
        }
    }
    assert(d.counts() == counts_of(owned));
    match class {
        Some(c) => {
            d.record(c);
        },
        None => {},
    }
    stats.insert(key, d);
    assert(is_device_entry(d, key, lines.push(line), owners, devices.shown(), timestamp));
}

/// Counts the connections of a dump, over all and for each local device.
pub fn parse_connection_stats(content: &str, devices: &LocalDevices, timestamp: u64) -> (r:
    GlobalConnectionStats)
    ensures
        r.total_stats.counts() == counts_of(lines(content@)),
        r.total_stats.last_updated == timestamp,
        are_device_stats(
            r.device_stats@,
            lines(content@),
            devices.owners(),
            devices.shown(),
            timestamp,
        ),
        r.last_updated == timestamp,
{
    let chars: Vec<char> = to_chars(content);
    let lines: Vec<&[char]> = split_on(chars.as_slice(), '\n');
    let ghost shown = texts(lines@);
    let ghost owners = devices.owners();
    let mut total: ConnectionStats = ConnectionStats::default();
    total.last_updated = timestamp;
    let mut device_stats: HashMap<u64, DeviceConnectionStats> = HashMap::new();
    let mut i: usize = 0;
    proof {
        lemma_counts_of_nothing();
        assert(shown.take(0) =~= Seq::empty());
        assert forall|k: u64| #[trigger] shown.take(0).filter(owned_by(owners, k)).len() == 0 by {
            shown.take(0).lemma_filter_len(owned_by(owners, k));
        }
    }
    while i < lines.len()
        invariant
            i <= lines@.len(),
            shown == texts(lines@),
            owners == devices.owners(),
            total.counts() == counts_of(shown.take(i as int)),
            total.last_updated == timestamp,
            are_device_stats(
                device_stats@,
                shown.take(i as int),
                owners,
                devices.shown(),
                timestamp,
            ),
        decreases lines@.len() - i,
    {
        let ghost before = shown.take(i as int);
        let ghost line = shown[i as int];
        proof {
            assert(line == lines@[i as int]@);
            assert(shown.take(i + 1) =~= before.push(line));
            lemma_counts_push(before, line);
            lemma_counts_bound(before);
        }
        let mut class: Option<ConnectionClass> = None;
        let mut owner: Option<[u8; 6]> = None;
        match parse_entry(lines[i]) {
            Some(words) => {
                class = classify(&words);
                match find_source(&words) {
                    Some(address) => {
                        owner = devices.owner(address);
                    },
                    None => {},
                }
            },
            None => {},
        }
        assert(class == line_class(line));
        assert(owner == line_owner(line, owners));
        match class {
            Some(c) => {
                total.record(c);
            },
            None => {},
        }
        match owner {
            Some(mac) => {
                record_device(
                    &mut device_stats,
                    mac,
                    class,
                    devices,
                    timestamp,
                    Ghost(before),
                    Ghost(line),
                );
            },
            None => {
                proof {
                    assert forall|k: u64| #[trigger]
                        before.push(line).filter(owned_by(owners, k)) == before.filter(
                            owned_by(owners, k),
                        ) by {
                        before.lemma_filter_push(line, owned_by(owners, k));
                    }
                }
                assert(are_device_stats(
                    device_stats@,
                    before.push(line),
                    owners,
                    devices.shown(),
                    timestamp,
                ));
            },
        }
        i = i + 1;
    }
    assert(shown.take(i as int) =~= shown);
    GlobalConnectionStats { total_stats: total, device_stats, last_updated: timestamp }
}

} // verus!
