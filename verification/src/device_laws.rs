//! Which device an address belongs to.

use crate::address::{
    ipv4_bits, ipv6_bits, law_ipv4_bits_tell_addresses_apart, law_ipv6_bits_tell_addresses_apart,
    octet_groups, IpAddress,
};
use crate::devices::{
    arp_owners, in_any_prefix, is_lan_prefix, known_neighbors, mac_bits, with_neighbors,
};
use crate::laws::{
    law_local_ipv4_addresses_are_owned, law_local_ipv6_addresses_are_owned, lemma_with_addresses,
};
use crate::network::{in_prefix, in_subnet};
use crate::network_laws::{
    agree, beginning_with, bits_held, law_lan_prefixes_are_ranges, law_prefixes_are_leading_bits,
};
use vstd::prelude::*;

verus! {

/// The octets of the number that a MAC address writes, the first one first.
pub proof fn law_mac_bits_keep_octets(mac: Seq<u8>)
    requires
        mac.len() == 6,
    ensures
        mac_bits(mac) == ((((mac[0] * 0x100 + mac[1]) * 0x100 + mac[2]) * 0x100 + mac[3]) * 0x100
            + mac[4]) * 0x100 + mac[5],
{
}

proof fn lemma_last_arp_pair(
    arp: Seq<([u8; 4], [u8; 6])>,
    interface_ip: [u8; 4],
    subnet_mask: [u8; 4],
    i: int,
)
    requires
        0 <= i < arp.len(),
        in_subnet(arp[i].0@, interface_ip@, subnet_mask@),
        forall|j: int| i < j < arp.len() ==> (#[trigger] arp[j]).0 != arp[i].0,
    ensures
        arp_owners(arp, interface_ip, subnet_mask)[IpAddress::V4(ipv4_bits(arp[i].0@))]
            == arp[i].1,
    decreases arp.len(),
{
    let rest = arp.drop_last();
    let last = arp[arp.len() - 1];
    if i < arp.len() - 1 {
        assert(rest[i] == arp[i]);
        assert forall|j: int| i < j < rest.len() implies (#[trigger] rest[j]).0 != rest[i].0 by {
            assert(rest[j] == arp[j]);
        }
        lemma_last_arp_pair(rest, interface_ip, subnet_mask, i);
        if ipv4_bits(last.0@) == ipv4_bits(arp[i].0@) {
            law_ipv4_bits_tell_addresses_apart(last.0, arp[i].0);
        }
    }
}

/// An IPv4 address of the subnet belongs to the device of the last pair that the ARP
/// table has for it.
pub proof fn law_ipv4_addresses_belong_to_their_last_pair(
    arp: Seq<([u8; 4], [u8; 6])>,
    interface_ip: [u8; 4],
    subnet_mask: [u8; 4],
    neighbors: Seq<([u8; 6], Vec<[u8; 16]>)>,
    prefixes: Seq<([u8; 16], u8)>,
    i: int,
)
    requires
        0 <= i < arp.len(),
        in_subnet(arp[i].0@, interface_ip@, subnet_mask@),
        forall|j: int| i < j < arp.len() ==> (#[trigger] arp[j]).0 != arp[i].0,
    ensures
        ({
            let address = IpAddress::V4(ipv4_bits(arp[i].0@));
            let all = with_neighbors(
                arp_owners(arp, interface_ip, subnet_mask),
                neighbors,
                prefixes,
            );
            all.contains_key(address) && all[address] == arp[i].1
        }),
{
    lemma_last_arp_pair(arp, interface_ip, subnet_mask, i);
    law_local_ipv4_addresses_are_owned(arp, interface_ip, subnet_mask, neighbors, prefixes, i);
}

/// An IPv6 address under a prefix belongs to the last neighbor that lists it.
pub proof fn law_ipv6_addresses_belong_to_their_last_neighbor(
    owners: Map<IpAddress, [u8; 6]>,
    neighbors: Seq<([u8; 6], Vec<[u8; 16]>)>,
    prefixes: Seq<([u8; 16], u8)>,
    i: int,
    j: int,
)
    requires
        0 <= i < neighbors.len(),
        0 <= j < neighbors[i].1@.len(),
        in_any_prefix(neighbors[i].1@[j], prefixes),
        forall|k: int|
            i < k < neighbors.len() ==> !(#[trigger] neighbors[k]).1@.contains(neighbors[i].1@[j]),
    ensures
        ({
            let address = IpAddress::V6(ipv6_bits(octet_groups(neighbors[i].1@[j]@)));
            let all = with_neighbors(owners, neighbors, prefixes);
            all.contains_key(address) && all[address] == neighbors[i].0
        }),
    decreases neighbors.len(),
{
    let rest = neighbors.drop_last();
    let last = neighbors[neighbors.len() - 1];
    let wanted = neighbors[i].1@[j];
    let address = IpAddress::V6(ipv6_bits(octet_groups(wanted@)));
    lemma_with_addresses(
        with_neighbors(owners, rest, prefixes),
        last.0,
        last.1@,
        prefixes,
        address,
    );
    if i < neighbors.len() - 1 {
        assert(rest[i] == neighbors[i]);
        assert forall|k: int| i < k < rest.len() implies !(#[trigger] rest[k]).1@.contains(
            rest[i].1@[j],
        ) by {
            assert(rest[k] == neighbors[k]);
        }
        law_ipv6_addresses_belong_to_their_last_neighbor(owners, rest, prefixes, i, j);
        assert forall|k: int| 0 <= k < last.1@.len() implies ipv6_bits(
            octet_groups((#[trigger] last.1@[k])@),
        ) != ipv6_bits(octet_groups(wanted@)) by {
            if ipv6_bits(octet_groups(last.1@[k]@)) == ipv6_bits(octet_groups(wanted@)) {
                law_ipv6_bits_tell_addresses_apart(last.1@[k], wanted);
                assert(last.1@.contains(wanted));
            }
        }
    }
}

/// A neighbor's address belongs to a device where the interface has an address in
/// 2000::/3 or in fc00::/7, and the neighbor's agrees with it in as many bits as the
/// interface's prefix holds.
pub proof fn law_neighbors_of_an_interface_address_are_local(
    owners: Map<IpAddress, [u8; 6]>,
    neighbors: Seq<([u8; 6], Vec<[u8; 16]>)>,
    interface_ipv6: Seq<([u8; 16], u8)>,
    i: int,
    j: int,
    k: int,
)
    requires
        0 <= i < neighbors.len(),
        0 <= j < neighbors[i].1@.len(),
        0 <= k < interface_ipv6.len(),
        in_prefix(interface_ipv6[k].0@, beginning_with(0x20, 0), 3) || in_prefix(
            interface_ipv6[k].0@,
            beginning_with(0xfc, 0),
            7,
        ),
        agree(neighbors[i].1@[j]@, interface_ipv6[k].0@, bits_held(interface_ipv6[k].1)),
    ensures
        with_neighbors(owners, neighbors, interface_ipv6.filter(is_lan_prefix())).contains_key(
            IpAddress::V6(ipv6_bits(octet_groups(neighbors[i].1@[j]@))),
        ),
{
    let kept = interface_ipv6.filter(is_lan_prefix());
    law_lan_prefixes_are_ranges(interface_ipv6);
    law_prefixes_are_leading_bits(
        neighbors[i].1@[j]@,
        interface_ipv6[k].0@,
        interface_ipv6[k].1,
    );
    assert(kept.contains(interface_ipv6[k]));
    let m = choose|m: int| 0 <= m < kept.len() && kept[m] == interface_ipv6[k];
    assert(in_prefix(neighbors[i].1@[j]@, kept[m].0@, kept[m].1));
    assert(in_any_prefix(neighbors[i].1@[j], kept));
    law_local_ipv6_addresses_are_owned(owners, neighbors, kept, i, j);
}

/// Neighbors that could not be read are none, and those that were read are all taken.
pub proof fn law_neighbors_that_were_read(neighbors: Vec<([u8; 6], Vec<[u8; 16]>)>)
    ensures
        known_neighbors(Some(neighbors)) == neighbors@,
        known_neighbors(None).len() == 0,
{
}

} // verus!
