use bandix_connection::address::{pack_ipv4, pack_ipv6, parse_ip_address, IpAddress};
use bandix_connection::text::to_chars;

fn read(text: &str) -> Option<IpAddress> {
    parse_ip_address(&to_chars(text))
}

fn v6(groups: [u16; 8]) -> Option<IpAddress> {
    let mut bits: u128 = 0;
    for g in groups {
        bits = bits << 16 | g as u128;
    }
    Some(IpAddress::V6(bits))
}

#[test]
fn ipv4_addresses() {
    assert_eq!(read("192.168.1.10"), Some(IpAddress::V4(0xc0a8_010a)));
    assert_eq!(read("0.0.0.0"), Some(IpAddress::V4(0)));
    assert_eq!(read("255.255.255.255"), Some(IpAddress::V4(0xffff_ffff)));
    assert_eq!(read("8.8.4.4"), Some(IpAddress::V4(0x0808_0404)));
}

#[test]
fn text_that_is_no_ipv4_address() {
    for text in [
        "", ".", "1.2.3", "1.2.3.4.5", "1.2.3.", ".1.2.3", "1..2.3", "256.1.1.1", "1.2.3.999",
        "01.2.3.4", "1.2.3.00", "1.2.3.0004", "+1.2.3.4", "1.2.3.4 ", "1.2.3.a", "0x1.2.3.4",
        "1.2.3.4:80",
    ] {
        assert_eq!(read(text), None, "{}", text);
    }
}

#[test]
fn ipv6_addresses_with_all_groups() {
    assert_eq!(read("1:2:3:4:5:6:7:8"), v6([1, 2, 3, 4, 5, 6, 7, 8]));
    assert_eq!(
        read("2001:0DB8:85a3:0000:0000:8a2E:0370:7334"),
        v6([0x2001, 0xdb8, 0x85a3, 0, 0, 0x8a2e, 0x370, 0x7334])
    );
    assert_eq!(read("1:2:3:4:5:6:1.2.3.4"), v6([1, 2, 3, 4, 5, 6, 0x102, 0x304]));
}

#[test]
fn ipv6_addresses_with_a_gap() {
    assert_eq!(read("::"), v6([0; 8]));
    assert_eq!(read("::1"), v6([0, 0, 0, 0, 0, 0, 0, 1]));
    assert_eq!(read("1::"), v6([1, 0, 0, 0, 0, 0, 0, 0]));
    assert_eq!(read("fe80::1:2"), v6([0xfe80, 0, 0, 0, 0, 0, 1, 2]));
    assert_eq!(read("1:2:3:4:5:6:7::"), v6([1, 2, 3, 4, 5, 6, 7, 0]));
    assert_eq!(read("::2:3:4:5:6:7:8"), v6([0, 2, 3, 4, 5, 6, 7, 8]));
    assert_eq!(read("1:2:3::5:6:7:8"), v6([1, 2, 3, 0, 5, 6, 7, 8]));
    assert_eq!(read("::ffff:192.0.2.1"), v6([0, 0, 0, 0, 0, 0xffff, 0xc000, 0x201]));
    assert_eq!(read("64:ff9b::10.0.0.1"), v6([0x64, 0xff9b, 0, 0, 0, 0, 0xa00, 1]));
    assert_eq!(read("::1.2.3.4"), v6([0, 0, 0, 0, 0, 0, 0x102, 0x304]));
    assert_eq!(read("1:2:3:4:5::1.2.3.4"), v6([1, 2, 3, 4, 5, 0, 0x102, 0x304]));
}

#[test]
fn text_that_is_no_ipv6_address() {
    for text in [
        ":", ":::", "1:2:3:4:5:6:7", "1:2:3:4:5:6:7:8:9", "1:2:3:4:5:6:7:8::", "::1:2:3:4:5:6:7:8",
        "1:2:3:4::5:6:7:8", "1::2::3", "1:::2", ":1", "1:", "1:2:3:4:5:6:7:", ":2:3:4:5:6:7:8",
        "12345::", "g::", "1.2.3.4::", "::1.2.3.4:5", "::1.2.3", "::01.2.3.4", "1:2:3:4:5:6:7:1.2.3.4",
        "1:2:3:4:5:6::1.2.3.4", "fe80::1%eth0", "[::1]", "::1 ", "::+1", "1:1.2.3.4",
    ] {
        assert_eq!(read(text), None, "{}", text);
    }
}

#[test]
fn octets_are_packed_in_network_order() {
    assert_eq!(pack_ipv4([192, 168, 1, 10]), 0xc0a8_010a);
    let octets = [0x20, 0x01, 0x0d, 0xb8, 0, 1, 0, 2, 0, 3, 0, 4, 0, 5, 0xab, 0xcd];
    assert_eq!(pack_ipv6(octets), 0x2001_0db8_0001_0002_0003_0004_0005_abcd);
    assert_eq!(pack_ipv6(octets), u128::from_be_bytes(octets));
    assert_eq!(read("2001:db8:1:2:3:4:5:abcd"), Some(IpAddress::V6(pack_ipv6(octets))));
}

#[test]
fn numbers_tell_addresses_apart() {
    assert!(pack_ipv4([1, 2, 3, 4]) != pack_ipv4([1, 2, 4, 3]));
    assert!(pack_ipv4([0, 0, 1, 0]) != pack_ipv4([0, 0, 0, 255]));
    for i in 0..16 {
        let mut octets = [0u8; 16];
        octets[i] = 1;
        assert_eq!(pack_ipv6(octets), 1u128 << (8 * (15 - i)));
    }
}
