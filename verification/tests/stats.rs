use bandix_connection::address::{pack_ipv4, pack_ipv6, IpAddress};
use bandix_connection::devices::{build_local_device_lookup, pack_mac, LocalDevices};
use bandix_connection::flows::parse_connection_flows;
use bandix_connection::stats::{parse_connection_stats, ConnectionStats, GlobalConnectionStats};

const MAC_A: [u8; 6] = [2, 0, 0, 0, 0, 1];
const MAC_B: [u8; 6] = [2, 0, 0, 0, 0, 2];

fn v6(last: u8) -> [u8; 16] {
    [0x20, 0x01, 0x0d, 0xb8, 0, 0, 0, 0, 0, 0, 0, 0, 0, 0, 0, last]
}

fn devices() -> LocalDevices {
    let arp = vec![([192, 168, 1, 10], MAC_A)];
    let info = vec![(v6(1), 64)];
    let neighbors = Some(vec![(MAC_A, vec![v6(0x10)]), (MAC_B, vec![v6(0x20)])]);
    build_local_device_lookup(&arp, [192, 168, 1, 1], [255, 255, 255, 0], &info, &neighbors)
}

fn tcp(state: &str, src: &str) -> String {
    format!("tcp 6 100 {} src={} dst=1.1.1.1 sport=1 dport=2 src=1.1.1.1 dst=9.9.9.9 sport=2 dport=1\n", state, src)
}

fn udp(src: &str) -> String {
    format!("udp 17 29 src={} dst=1.1.1.1 sport=1 dport=53\n", src)
}

fn total(content: &str) -> ConnectionStats {
    parse_connection_stats(content, &devices(), 0).total_stats
}

fn counts(s: &ConnectionStats) -> [u64; 6] {
    [
        s.total_connections,
        s.tcp_connections,
        s.udp_connections,
        s.established_tcp,
        s.time_wait_tcp,
        s.close_wait_tcp,
    ]
}

fn device_counts(g: &GlobalConnectionStats, mac: [u8; 6]) -> [u64; 6] {
    let d = &g.device_stats[&pack_mac(mac)];
    [
        d.total_connections,
        d.tcp_connections,
        d.udp_connections,
        d.established_tcp,
        d.time_wait_tcp,
        d.close_wait_tcp,
    ]
}

#[test]
fn default_statistics_are_empty() {
    let g = GlobalConnectionStats::default();
    assert_eq!(counts(&g.total_stats), [0; 6]);
    assert_eq!(g.total_stats.last_updated, 0);
    assert!(g.device_stats.is_empty());
    assert_eq!(g.last_updated, 0);
}

#[test]
fn an_empty_dump_counts_nothing() {
    let g = parse_connection_stats("", &devices(), 77);
    assert_eq!(counts(&g.total_stats), [0; 6]);
    assert_eq!(g.total_stats.last_updated, 77);
    assert_eq!(g.last_updated, 77);
    assert!(g.device_stats.is_empty());
}

#[test]
fn each_state_has_its_class() {
    let s = "5.5.5.5";
    assert_eq!(counts(&total(&tcp("ESTABLISHED", s))), [1, 1, 0, 1, 0, 0]);
    assert_eq!(counts(&total(&tcp("CLOSE_WAIT", s))), [1, 1, 0, 0, 0, 1]);
    for state in ["TIME_WAIT", "FIN_WAIT_1", "FIN_WAIT_2", "CLOSING", "LAST_ACK"] {
        assert_eq!(counts(&total(&tcp(state, s))), [1, 1, 0, 0, 1, 0], "{}", state);
    }
    for state in ["SYN_SENT", "SYN_RECV", "NONE", "FIN_WAIT", "established"] {
        assert_eq!(counts(&total(&tcp(state, s))), [1, 1, 0, 0, 0, 0], "{}", state);
    }
    assert_eq!(counts(&total(&udp(s))), [1, 0, 1, 0, 0, 0]);
}

#[test]
fn offloaded_connections_are_established() {
    let line = "tcp 6 src=5.5.5.5 dst=1.1.1.1 sport=1 dport=2 [HW_OFFLOAD] use=2";
    assert_eq!(counts(&total(line)), [1, 1, 0, 1, 0, 0]);
    let line = "tcp 6 src=5.5.5.5 dst=1.1.1.1 sport=1 dport=2 [ASSURED] use=2";
    assert_eq!(counts(&total(line)), [1, 1, 0, 0, 0, 0]);
}

#[test]
fn other_protocols_and_short_lines_are_not_counted() {
    assert_eq!(counts(&total("icmp 1 29 src=5.5.5.5 dst=1.1.1.1 type=8 code=0 id=1")), [0; 6]);
    assert_eq!(counts(&total("udp 17 29")), [0; 6]);
    assert_eq!(counts(&total("udp 17 29 x")), [1, 0, 1, 0, 0, 0]);
    assert_eq!(counts(&total("conntrack v1: 2 flow entries have been shown.")), [0; 6]);
    assert_eq!(counts(&total("udp 17 29 x flow entries have been shown")), [0; 6]);
}

#[test]
fn counts_add_up() {
    let mut content = String::new();
    for state in ["ESTABLISHED", "TIME_WAIT", "CLOSE_WAIT", "LAST_ACK", "SYN_SENT"] {
        content.push_str(&tcp(state, "192.168.1.10"));
        content.push_str(&udp("192.168.1.10"));
    }
    let g = parse_connection_stats(&content, &devices(), 1);
    assert_eq!(counts(&g.total_stats), [10, 5, 5, 1, 2, 1]);
    let [t, c, u, e, w, cw] = counts(&g.total_stats);
    assert_eq!(t, c + u);
    assert_eq!(c, e + w + cw + 1);
    assert_eq!(device_counts(&g, MAC_A), [10, 5, 5, 1, 2, 1]);
    assert_eq!(counts(&total(&tcp("CLOSING", "5.5.5.5").repeat(3))), [3, 3, 0, 0, 3, 0]);
}

#[test]
fn connections_are_counted_for_their_source() {
    let content = format!(
        "{}{}{}{}{}",
        tcp("ESTABLISHED", "192.168.1.10"),
        udp("2001:db8::10"),
        tcp("TIME_WAIT", "2001:db8::20"),
        udp("8.8.8.8"),
        tcp("ESTABLISHED", "192.168.1.99")
    );
    let g = parse_connection_stats(&content, &devices(), 5);
    assert_eq!(counts(&g.total_stats), [5, 3, 2, 2, 1, 0]);
    assert_eq!(g.device_stats.len(), 2);
    assert_eq!(device_counts(&g, MAC_A), [2, 1, 1, 1, 0, 0]);
    assert_eq!(device_counts(&g, MAC_B), [1, 1, 0, 0, 1, 0]);
    let a = &g.device_stats[&pack_mac(MAC_A)];
    assert_eq!(a.mac_address, MAC_A);
    assert_eq!(a.ip_address, [192, 168, 1, 10]);
    assert_eq!(a.last_updated, 5);
    let b = &g.device_stats[&pack_mac(MAC_B)];
    assert_eq!(b.mac_address, MAC_B);
    assert_eq!(b.ip_address, [0, 0, 0, 0]);
}

#[test]
fn devices_share_no_connection() {
    let content = format!("{}{}{}", udp("192.168.1.10"), udp("2001:db8::20"), udp("4.4.4.4"));
    let g = parse_connection_stats(&content, &devices(), 5);
    let a = device_counts(&g, MAC_A);
    let b = device_counts(&g, MAC_B);
    assert_eq!(a, [1, 0, 1, 0, 0, 0]);
    assert_eq!(b, [1, 0, 1, 0, 0, 0]);
    for i in 0..6 {
        assert!(a[i] + b[i] <= counts(&g.total_stats)[i]);
    }
}

#[test]
fn a_device_may_have_no_counted_connection() {
    let line = "icmp 1 29 src=192.168.1.10 dst=1.1.1.1 type=8 code=0 id=1";
    let g = parse_connection_stats(line, &devices(), 5);
    assert_eq!(counts(&g.total_stats), [0; 6]);
    assert_eq!(device_counts(&g, MAC_A), [0; 6]);
    assert_eq!(g.device_stats[&pack_mac(MAC_A)].last_updated, 5);
}

#[test]
fn the_source_is_the_first_address_that_can_be_read() {
    let g = parse_connection_stats("udp 17 29 src=x src=192.168.1.10 src=2001:db8::20", &devices(), 5);
    assert_eq!(g.device_stats.len(), 1);
    assert_eq!(device_counts(&g, MAC_A), [1, 0, 1, 0, 0, 0]);
    let g = parse_connection_stats("udp 17 29 src=1.1.1.1 src=192.168.1.10", &devices(), 5);
    assert!(g.device_stats.is_empty());
}

#[test]
fn counts_of_both_tables() {
    let ipv4 = format!("{}{}", udp("192.168.1.10"), tcp("ESTABLISHED", "192.168.1.10"));
    let ipv6 = format!("{}{}", udp("2001:db8::10"), tcp("CLOSE_WAIT", "2001:db8::20"));
    let a = parse_connection_stats(&ipv4, &devices(), 1);
    let b = parse_connection_stats(&ipv6, &devices(), 1);
    let g = parse_connection_stats(&format!("{}{}", ipv4, ipv6), &devices(), 1);
    for i in 0..6 {
        assert_eq!(
            counts(&g.total_stats)[i],
            counts(&a.total_stats)[i] + counts(&b.total_stats)[i]
        );
        assert_eq!(device_counts(&g, MAC_A)[i], device_counts(&a, MAC_A)[i] + device_counts(&b, MAC_A)[i]);
    }
    assert_eq!(device_counts(&g, MAC_B), device_counts(&b, MAC_B));
    assert!(!a.device_stats.contains_key(&pack_mac(MAC_B)));
    assert_eq!(g.device_stats.len(), 2);
}

#[test]
fn one_dump_gives_one_result() {
    let content = format!("{}{}", udp("192.168.1.10"), tcp("TIME_WAIT", "2001:db8::20"));
    let a = parse_connection_stats(&content, &devices(), 5);
    let b = parse_connection_stats(&content, &devices(), 5);
    assert_eq!(a.total_stats, b.total_stats);
    assert_eq!(a.device_stats, b.device_stats);
}

#[test]
fn counted_devices_own_an_address() {
    let content = format!("{}{}{}", udp("192.168.1.10"), udp("2001:db8::20"), udp("4.4.4.4"));
    let g = parse_connection_stats(&content, &devices(), 5);
    let owned: Vec<[u8; 6]> = [IpAddress::V4(pack_ipv4([192, 168, 1, 10])), IpAddress::V6(pack_ipv6(v6(0x20)))]
        .iter()
        .filter_map(|a| devices().owner(*a))
        .collect();
    assert_eq!(owned, vec![MAC_A, MAC_B]);
    for d in g.device_stats.values() {
        assert!(owned.contains(&d.mac_address));
    }
}

#[test]
fn flows_and_counts_agree() {
    for (line, class) in [
        (tcp("ESTABLISHED", "192.168.1.10"), [1, 1, 0, 1, 0, 0]),
        (tcp("LAST_ACK", "192.168.1.10"), [1, 1, 0, 0, 1, 0]),
        (tcp("SYN_SENT", "192.168.1.10"), [1, 1, 0, 0, 0, 0]),
    ] {
        let flows = parse_connection_flows(&line);
        assert_eq!(flows[0].orig_src, IpAddress::V4(pack_ipv4([192, 168, 1, 10])));
        let g = parse_connection_stats(&line, &devices(), 5);
        assert_eq!(device_counts(&g, MAC_A), class);
        assert_eq!(counts(&g.total_stats), class);
    }
}

#[test]
fn lines_without_an_entry_change_no_count() {
    let with = format!("\n{}1 flow entries have been shown.\n \n{}", udp("192.168.1.10"), udp("2001:db8::10"));
    let without = format!("{}{}", udp("192.168.1.10"), udp("2001:db8::10"));
    let a = parse_connection_stats(&with, &devices(), 5);
    let b = parse_connection_stats(&without, &devices(), 5);
    assert_eq!(a.total_stats, b.total_stats);
    assert_eq!(a.device_stats, b.device_stats);
}

#[test]
fn a_half_open_connection_is_counted() {
    let arp = Vec::new();
    let devices = build_local_device_lookup(&arp, [192, 168, 1, 1], [255, 255, 255, 0], &Vec::new(), &None);
    let content = "tcp 6 119 SYN_SENT src=10.0.0.9 dst=1.1.1.1 sport=5000 dport=443\n";
    let g = parse_connection_stats(content, &devices, 5);
    assert_eq!(counts(&g.total_stats), [1, 1, 0, 0, 0, 0]);
    assert!(g.device_stats.is_empty());
}

#[test]
fn flows_are_within_the_counts() {
    let whole = format!("{}{}", tcp("ESTABLISHED", "192.168.1.10"), tcp("SYN_SENT", "2001:db8::20"));
    assert_eq!(parse_connection_flows(&whole).len(), 2);
    assert_eq!(total(&whole).total_connections, 2);
    let partial = format!("{}{}", whole, udp("192.168.1.10"));
    assert_eq!(parse_connection_flows(&partial).len(), 2);
    assert_eq!(counts(&total(&partial)), [3, 2, 1, 1, 0, 0]);
}

#[test]
fn other_protocols_and_spaces_change_nothing() {
    let line = tcp("ESTABLISHED", "192.168.1.10");
    let icmp = "icmp 1 29 src=192.168.1.10 dst=1.1.1.1 type=8 code=0 id=1\n";
    let spaced = format!("{} \t{}\u{a0} \r\n", icmp, line.trim_end());
    assert_eq!(parse_connection_flows(&spaced).len(), 1);
    assert_eq!(
        format!("{:?}", parse_connection_flows(&spaced)),
        format!("{:?}", parse_connection_flows(&line))
    );
    let a = parse_connection_stats(&spaced, &devices(), 5);
    let b = parse_connection_stats(&line, &devices(), 5);
    assert_eq!(a.total_stats, b.total_stats);
    assert_eq!(a.device_stats, b.device_stats);
}
