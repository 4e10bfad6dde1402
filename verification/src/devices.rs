//! The devices of the local network and the addresses that they own.

use crate::address::{ipv4_bits, ipv6_bits, octet_groups, pack_ipv4, pack_ipv6, IpAddress};
use crate::network::{
    classify_ipv6_address, in_prefix, in_subnet, ipv6_type, is_ip_in_subnet, is_ipv6_in_prefix,
    Ipv6AddressType,
};
use std::collections::HashMap;
use vstd::prelude::*;

verus! {

broadcast use vstd::std_specs::hash::group_hash_axioms;

/// The number that the six octets of a MAC address write.
pub open spec fn mac_bits(mac: Seq<u8>) -> u64 {
    (mac[0] * 0x100_0000_0000 + mac[1] * 0x1_0000_0000 + mac[2] * 0x100_0000 + mac[3] * 0x1_0000
        + mac[4] * 0x100 + mac[5]) as u64
}

/// The number that a MAC address writes, by which devices are told apart.
pub fn pack_mac(mac: [u8; 6]) -> (r: u64)
    ensures
        r == mac_bits(mac@),
{
    mac[0] as u64 * 0x100_0000_0000 + mac[1] as u64 * 0x1_0000_0000 + mac[2] as u64 * 0x100_0000
        + mac[3] as u64 * 0x1_0000 + mac[4] as u64 * 0x100 + mac[5] as u64
}

proof fn lemma_low_octet(high1: int, low1: int, high2: int, low2: int)
    requires
        high1 * 0x100 + low1 == high2 * 0x100 + low2,
        0 <= low1 < 0x100,
        0 <= low2 < 0x100,
    ensures
        high1 == high2,
        low1 == low2,
{
}

/// Devices with one number have one MAC address.
pub proof fn law_mac_bits_tell_devices_apart(a: [u8; 6], b: [u8; 6])
    requires
        mac_bits(a@) == mac_bits(b@),
    ensures
        a == b,
{
    let a1 = a@[0] * 0x100 + a@[1];
    let b1 = b@[0] * 0x100 + b@[1];
    let a2 = a1 * 0x100 + a@[2];
    let b2 = b1 * 0x100 + b@[2];
    let a3 = a2 * 0x100 + a@[3];
    let b3 = b2 * 0x100 + b@[3];
    let a4 = a3 * 0x100 + a@[4];
    let b4 = b3 * 0x100 + b@[4];
    lemma_low_octet(a4, a@[5] as int, b4, b@[5] as int);
    lemma_low_octet(a3, a@[4] as int, b3, b@[4] as int);
    lemma_low_octet(a2, a@[3] as int, b2, b@[3] as int);
    lemma_low_octet(a1, a@[2] as int, b1, b@[2] as int);
    lemma_low_octet(a@[0] as int, a@[1] as int, b@[0] as int, b@[1] as int);
    assert(a@ =~= b@);
    assert(a =~= b);
}

/// The IPv4 addresses of the ARP table that lie in the subnet, each with the
/// device of its last pair.
pub open spec fn arp_owners(
    arp: Seq<([u8; 4], [u8; 6])>,
    interface_ip: [u8; 4],
    subnet_mask: [u8; 4],
) -> Map<IpAddress, [u8; 6]>
    decreases arp.len(),
{
    if arp.len() == 0 {
        Map::empty()
    } else {
        let before = arp_owners(arp.drop_last(), interface_ip, subnet_mask);
        let (ip, mac) = arp.last();
        if in_subnet(ip@, interface_ip@, subnet_mask@) {
            before.insert(IpAddress::V4(ipv4_bits(ip@)), mac)
        } else {
            before
        }
    }
}

/// The IPv4 address that each device is shown with: the first of its addresses
/// in the ARP table that lies in the subnet.
pub open spec fn shown_addresses(
    arp: Seq<([u8; 4], [u8; 6])>,
    interface_ip: [u8; 4],
    subnet_mask: [u8; 4],
) -> Map<u64, [u8; 4]>
    decreases arp.len(),
{
    if arp.len() == 0 {
        Map::empty()
    } else {
        let before = shown_addresses(arp.drop_last(), interface_ip, subnet_mask);
        let (ip, mac) = arp.last();
        if in_subnet(ip@, interface_ip@, subnet_mask@) && !before.contains_key(mac_bits(mac@)) {
            before.insert(mac_bits(mac@), ip)
        } else {
            before
        }
    }
}

/// Does the prefix tell the local network from others? Link-local prefixes, which
/// every interface has, do not.
pub open spec fn is_lan_prefix() -> spec_fn(([u8; 16], u8)) -> bool {
    |p: ([u8; 16], u8)|
        ipv6_type(p.0@) == Ipv6AddressType::GlobalUnicast || ipv6_type(p.0@)
            == Ipv6AddressType::UniqueLocal
}

/// Does `addr` lie under one of the prefixes?
pub open spec fn in_any_prefix(addr: [u8; 16], prefixes: Seq<([u8; 16], u8)>) -> bool {
    exists|i: int|
        0 <= i < prefixes.len() && in_prefix(addr@, #[trigger] prefixes[i].0@, prefixes[i].1)
}

/// `owners`, and the addresses of one device that lie under a prefix.
pub open spec fn with_addresses(
    owners: Map<IpAddress, [u8; 6]>,
    mac: [u8; 6],
    addresses: Seq<[u8; 16]>,
    prefixes: Seq<([u8; 16], u8)>,
) -> Map<IpAddress, [u8; 6]>
    decreases addresses.len(),
{
    if addresses.len() == 0 {
        owners
    } else {
        let before = with_addresses(owners, mac, addresses.drop_last(), prefixes);
        if in_any_prefix(addresses.last(), prefixes) {
            before.insert(IpAddress::V6(ipv6_bits(octet_groups(addresses.last()@))), mac)
        } else {
            before
        }
    }
}

/// `owners`, and the addresses of the neighbors that lie under a prefix.
pub open spec fn with_neighbors(
    owners: Map<IpAddress, [u8; 6]>,
    neighbors: Seq<([u8; 6], Vec<[u8; 16]>)>,
    prefixes: Seq<([u8; 16], u8)>,
) -> Map<IpAddress, [u8; 6]>
    decreases neighbors.len(),
{
    if neighbors.len() == 0 {
        owners
    } else {
        with_addresses(
            with_neighbors(owners, neighbors.drop_last(), prefixes),
            neighbors.last().0,
            neighbors.last().1@,
            prefixes,
        )
    }
}

/// The neighbors that were read; none, where they could not be read.
pub open spec fn known_neighbors(neighbors: Option<Vec<([u8; 6], Vec<[u8; 16]>)>>) -> Seq<
    ([u8; 6], Vec<[u8; 16]>),
> {
    match neighbors {
        Some(v) => v@,
        None => Seq::empty(),
    }
}

/// Which device of the local network owns an address, and which IPv4 address a
/// device is shown with.
pub struct LocalDevices {
    ipv4_owners: HashMap<u32, [u8; 6]>,
    ipv6_owners: HashMap<u128, [u8; 6]>,
    shown_ipv4: HashMap<u64, [u8; 4]>,
}

impl LocalDevices {
    /// The MAC address of the device that owns each address.
    pub closed spec fn owners(&self) -> Map<IpAddress, [u8; 6]> {
        Map::new(
            |a: IpAddress|
                match a {
                    IpAddress::V4(bits) => self.ipv4_owners@.contains_key(bits),
                    IpAddress::V6(bits) => self.ipv6_owners@.contains_key(bits),
                },
            |a: IpAddress|
                match a {
                    IpAddress::V4(bits) => self.ipv4_owners@[bits],
                    IpAddress::V6(bits) => self.ipv6_owners@[bits],
                },
        )
    }

    /// The IPv4 address that each device is shown with.
    pub closed spec fn shown(&self) -> Map<u64, [u8; 4]> {
        self.shown_ipv4@
    }

    /// No device.
    fn new() -> (d: Self)
        ensures
            d.owners() == Map::<IpAddress, [u8; 6]>::empty(),
            d.shown() == Map::<u64, [u8; 4]>::empty(),
    {
        let d = LocalDevices {
            ipv4_owners: HashMap::new(),
            ipv6_owners: HashMap::new(),
            shown_ipv4: HashMap::new(),
        };
        assert(d.owners() =~= Map::<IpAddress, [u8; 6]>::empty());
        d
    }

    /// Gives `address` to the device `mac`.
    fn give(&mut self, address: IpAddress, mac: [u8; 6])
        ensures
            final(self).owners() == old(self).owners().insert(address, mac),
            final(self).shown() == old(self).shown(),
    {
        match address {
            IpAddress::V4(bits) => {
                self.ipv4_owners.insert(bits, mac);
            },
            IpAddress::V6(bits) => {
                self.ipv6_owners.insert(bits, mac);
            },
        }
        assert(self.owners() =~= old(self).owners().insert(address, mac));
    }

    /// Shows the device `mac` with `ip`, unless it is shown with an address.
    fn show_first(&mut self, mac: [u8; 6], ip: [u8; 4])
        ensures
            final(self).owners() == old(self).owners(),
            final(self).shown() == if old(self).shown().contains_key(mac_bits(mac@)) {
                old(self).shown()
            } else {
                old(self).shown().insert(mac_bits(mac@), ip)
            },
    {
        let key: u64 = pack_mac(mac);
        if !self.shown_ipv4.contains_key(&key) {
            self.shown_ipv4.insert(key, ip);
        }
        assert(self.owners() =~= old(self).owners());
    }

    /// The device that owns `address`.
    pub fn owner(&self, address: IpAddress) -> (r: Option<[u8; 6]>)
        ensures
            r == if self.owners().contains_key(address) {
                Some(self.owners()[address])
            } else {
                None
            },
    {
        let found: Option<&[u8; 6]> = match address {
            IpAddress::V4(bits) => self.ipv4_owners.get(&bits),
            IpAddress::V6(bits) => self.ipv6_owners.get(&bits),
        };
        match found {
            Some(mac) => Some(*mac),
            None => None,
        }
    }

    /// The IPv4 address that a device is shown with.
    pub fn shown_ipv4(&self, mac: [u8; 6]) -> (r: Option<[u8; 4]>)
        ensures
            r == if self.shown().contains_key(mac_bits(mac@)) {
                Some(self.shown()[mac_bits(mac@)])
            } else {
                None
            },
    {
        let key: u64 = pack_mac(mac);
        match self.shown_ipv4.get(&key) {
            Some(ip) => Some(*ip),
            None => None,
        }
    }
}

/// The prefixes of an interface that tell the local network from others. The
/// neighbor table is worth reading only where there is one.
pub fn lan_prefixes(interface_ipv6: &Vec<([u8; 16], u8)>) -> (r: Vec<([u8; 16], u8)>)
    ensures
        r@ == interface_ipv6@.filter(is_lan_prefix()),
{
    let mut r: Vec<([u8; 16], u8)> = Vec::new();
    let mut i: usize = 0;
    assert(interface_ipv6@.take(0).filter(is_lan_prefix()) =~= Seq::empty()) by {
        reveal(Seq::filter);
    }
    while i < interface_ipv6.len()
        invariant
            i <= interface_ipv6@.len(),
            r@ == interface_ipv6@.take(i as int).filter(is_lan_prefix()),
        decreases interface_ipv6@.len() - i,
    {
        let p: ([u8; 16], u8) = interface_ipv6[i];
        proof {
            assert(interface_ipv6@.take(i + 1) =~= interface_ipv6@.take(i as int).push(p));
            interface_ipv6@.take(i as int).lemma_filter_push(p, is_lan_prefix());
        }
        let kind: Ipv6AddressType = classify_ipv6_address(&p.0);
        if kind == Ipv6AddressType::GlobalUnicast || kind == Ipv6AddressType::UniqueLocal {
            r.push(p);
        }
        i = i + 1;
    }
    assert(interface_ipv6@.take(i as int) =~= interface_ipv6@);
    r
}

/// Does `addr` lie under one of the prefixes?
fn is_in_any_prefix(addr: [u8; 16], prefixes: &Vec<([u8; 16], u8)>) -> (b: bool)
    ensures
        b == in_any_prefix(addr, prefixes@),
{
    let mut i: usize = 0;
    while i < prefixes.len()
        invariant
            i <= prefixes@.len(),
            forall|j: int|
                0 <= j < i ==> !in_prefix(addr@, #[trigger] prefixes@[j].0@, prefixes@[j].1),
        decreases prefixes@.len() - i,
    {
        if is_ipv6_in_prefix(&addr, &prefixes[i].0, prefixes[i].1) {
            return true;
        }
        i = i + 1;
    }
    false
}

/// Gives one device its addresses that lie under a prefix.
fn give_addresses(
    devices: &mut LocalDevices,
    mac: [u8; 6],
    addresses: &Vec<[u8; 16]>,
    prefixes: &Vec<([u8; 16], u8)>,
)
    ensures
        final(devices).owners() == with_addresses(
            old(devices).owners(),
            mac,
            addresses@,
            prefixes@,
        ),
        final(devices).shown() == old(devices).shown(),
{
    let mut i: usize = 0;
    let ghost start = devices.owners();
    while i < addresses.len()
        invariant
            i <= addresses@.len(),
            devices.owners() == with_addresses(start, mac, addresses@.take(i as int), prefixes@),
            devices.shown() == old(devices).shown(),
        decreases addresses@.len() - i,
    {
        assert(addresses@.take(i + 1).drop_last() =~= addresses@.take(i as int));
        if is_in_any_prefix(addresses[i], prefixes) {
            devices.give(IpAddress::V6(pack_ipv6(addresses[i])), mac);
        }
        i = i + 1;
    }
    assert(addresses@.take(i as int) =~= addresses@);
}

/// Finds the devices of the local network. IPv4 addresses are those of the ARP
/// table in the interface's subnet. IPv6 addresses are those of the neighbor table
/// under a prefix of the interface that tells the local network from others; a
/// neighbor table that could not be read gives none.
pub fn build_local_device_lookup(
    arp: &Vec<([u8; 4], [u8; 6])>,
    interface_ip: [u8; 4],
    subnet_mask: [u8; 4],
    interface_ipv6: &Vec<([u8; 16], u8)>,
    neighbors: &Option<Vec<([u8; 6], Vec<[u8; 16]>)>>,
) -> (d: LocalDevices)
    ensures
        d.owners() == with_neighbors(
            arp_owners(arp@, interface_ip, subnet_mask),
            known_neighbors(*neighbors),
            interface_ipv6@.filter(is_lan_prefix()),
        ),
        d.shown() == shown_addresses(arp@, interface_ip, subnet_mask),
{
    let mut devices: LocalDevices = LocalDevices::new();
    let mut i: usize = 0;
    while i < arp.len()
        invariant
            i <= arp@.len(),
            devices.owners() == arp_owners(arp@.take(i as int), interface_ip, subnet_mask),
            devices.shown() == shown_addresses(arp@.take(i as int), interface_ip, subnet_mask),
        decreases arp@.len() - i,
    {
        assert(arp@.take(i + 1).drop_last() =~= arp@.take(i as int));
        let (ip, mac): ([u8; 4], [u8; 6]) = arp[i];
        if is_ip_in_subnet(ip, interface_ip, subnet_mask) {
            devices.give(IpAddress::V4(pack_ipv4(ip)), mac);
            devices.show_first(mac, ip);
        }
        i = i + 1;
    }
    assert(arp@.take(i as int) =~= arp@);
    let prefixes: Vec<([u8; 16], u8)> = lan_prefixes(interface_ipv6);
    match neighbors {
        Some(table) => {
            let ghost start = devices.owners();
            let mut k: usize = 0;
            while k < table.len()
                invariant
                    k <= table@.len(),
                    devices.owners() == with_neighbors(start, table@.take(k as int), prefixes@),
                    devices.shown() == shown_addresses(arp@, interface_ip, subnet_mask),
                decreases table@.len() - k,
            {
                assert(table@.take(k + 1).drop_last() =~= table@.take(k as int));
                give_addresses(&mut devices, table[k].0, &table[k].1, &prefixes);
                k = k + 1;
            }
            assert(table@.take(k as int) =~= table@);
        },
        None => {},
    }
    devices
}

} // verus!
