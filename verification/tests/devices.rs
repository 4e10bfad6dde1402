use bandix_connection::address::{pack_ipv4, pack_ipv6, IpAddress};
use bandix_connection::devices::{build_local_device_lookup, lan_prefixes, pack_mac};
use bandix_connection::network::{
    classify_ipv6_address, is_ip_in_subnet, is_ipv6_in_prefix, subnet_mask_to_cidr, Ipv6AddressType,
};

const MAC_A: [u8; 6] = [2, 0, 0, 0, 0, 1];
const MAC_B: [u8; 6] = [2, 0, 0, 0, 0, 2];
const MASK: [u8; 4] = [255, 255, 255, 0];
const LAN: [u8; 4] = [192, 168, 1, 1];

fn addr(head: [u8; 4], last: u8) -> [u8; 16] {
    let mut a = [0u8; 16];
    a[0] = head[0];
    a[1] = head[1];
    a[2] = head[2];
    a[3] = head[3];
    a[15] = last;
    a
}

const GUA: [u8; 4] = [0x20, 0x01, 0x0d, 0xb8];
const ULA: [u8; 4] = [0xfd, 0x00, 0x00, 0x01];
const LINK_LOCAL: [u8; 4] = [0xfe, 0x80, 0, 0];

fn v4(octets: [u8; 4]) -> IpAddress {
    IpAddress::V4(pack_ipv4(octets))
}

fn v6(octets: [u8; 16]) -> IpAddress {
    IpAddress::V6(pack_ipv6(octets))
}

#[test]
fn cidr_of_masks() {
    assert_eq!(subnet_mask_to_cidr([0, 0, 0, 0]), 0);
    assert_eq!(subnet_mask_to_cidr([255, 255, 255, 0]), 24);
    assert_eq!(subnet_mask_to_cidr([255, 255, 240, 0]), 20);
    assert_eq!(subnet_mask_to_cidr([255, 255, 255, 255]), 32);
    assert_eq!(subnet_mask_to_cidr([1, 0, 0x55, 0]), 5);
}

#[test]
fn ones_are_those_of_the_standard_library() {
    for b in 0..=255u8 {
        assert_eq!(subnet_mask_to_cidr([b, 0, 0, 0]) as u32, b.count_ones());
    }
}

#[test]
fn subnets() {
    assert!(is_ip_in_subnet([192, 168, 1, 200], LAN, MASK));
    assert!(!is_ip_in_subnet([192, 168, 2, 200], LAN, MASK));
    assert!(is_ip_in_subnet([10, 1, 2, 3], LAN, [0, 0, 0, 0]));
    assert!(is_ip_in_subnet([10, 0, 31, 1], [10, 0, 16, 1], [255, 255, 240, 0]));
    assert!(!is_ip_in_subnet([10, 0, 32, 1], [10, 0, 16, 1], [255, 255, 240, 0]));
}

#[test]
fn kinds_of_ipv6_addresses() {
    assert_eq!(classify_ipv6_address(&addr(GUA, 1)), Ipv6AddressType::GlobalUnicast);
    assert_eq!(classify_ipv6_address(&addr([0x3f, 0xff, 0, 0], 1)), Ipv6AddressType::GlobalUnicast);
    assert_eq!(classify_ipv6_address(&addr(ULA, 1)), Ipv6AddressType::UniqueLocal);
    assert_eq!(classify_ipv6_address(&addr([0xfc, 0, 0, 0], 1)), Ipv6AddressType::UniqueLocal);
    assert_eq!(classify_ipv6_address(&addr(LINK_LOCAL, 1)), Ipv6AddressType::LinkLocal);
    assert_eq!(classify_ipv6_address(&addr([0xfe, 0xbf, 0, 0], 1)), Ipv6AddressType::LinkLocal);
    assert_eq!(classify_ipv6_address(&addr([0xfe, 0xc0, 0, 0], 1)), Ipv6AddressType::Other);
    assert_eq!(classify_ipv6_address(&addr([0xff, 2, 0, 0], 1)), Ipv6AddressType::Other);
    assert_eq!(classify_ipv6_address(&addr([0, 0, 0, 0], 1)), Ipv6AddressType::Other);
}

#[test]
fn ipv6_prefixes() {
    let p = addr(GUA, 1);
    assert!(is_ipv6_in_prefix(&addr(GUA, 9), &p, 64));
    assert!(!is_ipv6_in_prefix(&addr([0x20, 0x01, 0x0d, 0xb9], 9), &p, 32));
    assert!(is_ipv6_in_prefix(&addr([0x20, 0x01, 0x0d, 0xb9], 9), &p, 31));
    assert!(is_ipv6_in_prefix(&addr(LINK_LOCAL, 9), &p, 0));
    assert!(!is_ipv6_in_prefix(&addr(GUA, 2), &p, 128));
    assert!(is_ipv6_in_prefix(&addr(GUA, 1), &p, 128));
    assert!(!is_ipv6_in_prefix(&addr(GUA, 0), &p, 200));
    assert!(is_ipv6_in_prefix(&addr(GUA, 0), &p, 127));
}

#[test]
fn link_local_prefixes_are_left_out() {
    let info = vec![(addr(LINK_LOCAL, 1), 64), (addr(GUA, 1), 64), (addr(ULA, 1), 48)];
    assert_eq!(lan_prefixes(&info), vec![(addr(GUA, 1), 64), (addr(ULA, 1), 48)]);
    assert!(lan_prefixes(&vec![(addr(LINK_LOCAL, 1), 64)]).is_empty());
    assert!(lan_prefixes(&Vec::new()).is_empty());
}

#[test]
fn ipv4_devices_lie_in_the_subnet() {
    let arp = vec![
        ([192, 168, 1, 10], MAC_A),
        ([192, 168, 1, 11], MAC_A),
        ([10, 0, 0, 5], MAC_B),
        ([192, 168, 1, 12], MAC_B),
    ];
    let d = build_local_device_lookup(&arp, LAN, MASK, &Vec::new(), &None);
    assert_eq!(d.owner(v4([192, 168, 1, 10])), Some(MAC_A));
    assert_eq!(d.owner(v4([192, 168, 1, 11])), Some(MAC_A));
    assert_eq!(d.owner(v4([192, 168, 1, 12])), Some(MAC_B));
    assert_eq!(d.owner(v4([10, 0, 0, 5])), None);
    assert_eq!(d.shown_ipv4(MAC_A), Some([192, 168, 1, 10]));
    assert_eq!(d.shown_ipv4(MAC_B), Some([192, 168, 1, 12]));
    assert_eq!(d.shown_ipv4([0; 6]), None);
}

#[test]
fn the_last_pair_of_an_address_counts() {
    let arp = vec![([192, 168, 1, 10], MAC_A), ([192, 168, 1, 10], MAC_B)];
    let d = build_local_device_lookup(&arp, LAN, MASK, &Vec::new(), &None);
    assert_eq!(d.owner(v4([192, 168, 1, 10])), Some(MAC_B));
    assert_eq!(d.shown_ipv4(MAC_A), Some([192, 168, 1, 10]));
}

#[test]
fn ipv6_devices_lie_under_a_prefix() {
    let info = vec![(addr(LINK_LOCAL, 1), 64), (addr(GUA, 1), 64)];
    let other = addr([0x20, 0x01, 0x0d, 0xb9], 7);
    let neighbors = Some(vec![
        (MAC_A, vec![addr(GUA, 7), addr(LINK_LOCAL, 7), other]),
        (MAC_B, vec![addr(GUA, 8)]),
    ]);
    let arp = vec![([192, 168, 1, 10], MAC_A)];
    let d = build_local_device_lookup(&arp, LAN, MASK, &info, &neighbors);
    assert_eq!(d.owner(v6(addr(GUA, 7))), Some(MAC_A));
    assert_eq!(d.owner(v6(addr(GUA, 8))), Some(MAC_B));
    assert_eq!(d.owner(v6(addr(LINK_LOCAL, 7))), None);
    assert_eq!(d.owner(v6(other)), None);
    assert_eq!(d.owner(v4([192, 168, 1, 10])), Some(MAC_A));
    assert_eq!(d.shown_ipv4(MAC_B), None);
}

#[test]
fn neighbors_count_for_nothing_without_a_prefix() {
    let info = vec![(addr(LINK_LOCAL, 1), 64)];
    let neighbors = Some(vec![(MAC_A, vec![addr(GUA, 7), addr(LINK_LOCAL, 7)])]);
    let d = build_local_device_lookup(&Vec::new(), LAN, MASK, &info, &neighbors);
    assert_eq!(d.owner(v6(addr(GUA, 7))), None);
    assert_eq!(d.owner(v6(addr(LINK_LOCAL, 7))), None);
}

#[test]
fn mac_addresses_are_told_apart() {
    assert_eq!(pack_mac([1, 2, 3, 4, 5, 6]), 0x0102_0304_0506);
    assert_eq!(pack_mac([255; 6]), 0xffff_ffff_ffff);
    assert!(pack_mac(MAC_A) != pack_mac(MAC_B));
}
