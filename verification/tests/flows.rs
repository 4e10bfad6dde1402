use bandix_connection::address::{pack_ipv6, IpAddress};
use bandix_connection::flows::{parse_connection_flows, ConnectionFlowDetail};

const TCP: &str = "tcp      6 431999 ESTABLISHED src=192.168.1.10 dst=93.184.216.34 sport=50000 dport=443 packets=10 bytes=1500 src=93.184.216.34 dst=100.64.0.2 sport=443 dport=50000 packets=8 bytes=9000 [ASSURED] mark=0 use=1";
const UDP: &str = "udp      17 29 src=192.168.1.11 dst=8.8.8.8 sport=40000 dport=53 [UNREPLIED] src=8.8.8.8 dst=100.64.0.2 sport=53 dport=40000 mark=0 use=1";
const TCP6: &str = "tcp      6 60 TIME_WAIT src=2001:db8::10 dst=2001:db8:ffff::1 sport=1000 dport=80 src=2001:db8:ffff::1 dst=2001:db8::10 sport=80 dport=1000 [ASSURED] mark=0 use=1";
const OFFLOADED: &str = "tcp      6 src=192.168.1.10 dst=1.1.1.1 sport=1 dport=2 src=1.1.1.1 dst=100.64.0.2 sport=2 dport=1 [OFFLOAD] mark=0 use=2";
const SUMMARY: &str = "conntrack v1.4.7 (conntrack-tools): 3 flow entries have been shown.";

fn shown(flows: &[ConnectionFlowDetail]) -> Vec<String> {
    flows.iter().map(|f| format!("{:?}", f)).collect()
}

#[test]
fn a_tcp_flow_with_all_its_fields() {
    let flows = parse_connection_flows(TCP);
    assert_eq!(flows.len(), 1);
    let f = &flows[0];
    assert_eq!(f.protocol, "tcp");
    assert_eq!(f.state, Some("ESTABLISHED".to_string()));
    assert_eq!(f.orig_src, IpAddress::V4(0xc0a8_010a));
    assert_eq!(f.orig_dst, IpAddress::V4(0x5db8_d822));
    assert_eq!(f.orig_sport, 50000);
    assert_eq!(f.orig_dport, 443);
    assert_eq!(f.repl_src, IpAddress::V4(0x5db8_d822));
    assert_eq!(f.repl_dst, IpAddress::V4(0x6440_0002));
    assert_eq!(f.repl_sport, 443);
    assert_eq!(f.repl_dport, 50000);
    assert_eq!(f.orig_packets, 10);
    assert_eq!(f.orig_bytes, 1500);
    assert_eq!(f.repl_packets, 8);
    assert_eq!(f.repl_bytes, 9000);
    assert_eq!(f.flags, vec!["[ASSURED]".to_string()]);
}

#[test]
fn a_udp_flow_has_no_state_and_may_lack_counters() {
    let flows = parse_connection_flows(UDP);
    assert_eq!(flows.len(), 1);
    assert_eq!(flows[0].protocol, "udp");
    assert_eq!(flows[0].state, None);
    assert_eq!(flows[0].orig_packets, 0);
    assert_eq!(flows[0].orig_bytes, 0);
    assert_eq!(flows[0].repl_packets, 0);
    assert_eq!(flows[0].repl_bytes, 0);
    assert_eq!(flows[0].flags, vec!["[UNREPLIED]".to_string()]);
}

#[test]
fn an_ipv6_flow() {
    let flows = parse_connection_flows(TCP6);
    let src = [0x20, 0x01, 0x0d, 0xb8, 0, 0, 0, 0, 0, 0, 0, 0, 0, 0, 0, 0x10];
    assert_eq!(flows[0].orig_src, IpAddress::V6(pack_ipv6(src)));
    assert_eq!(flows[0].state, Some("TIME_WAIT".to_string()));
}

#[test]
fn an_offloaded_flow_is_established() {
    let flows = parse_connection_flows(OFFLOADED);
    assert_eq!(flows[0].state, Some("ESTABLISHED".to_string()));
    assert_eq!(flows[0].flags, vec!["[OFFLOAD]".to_string()]);
}

#[test]
fn a_tcp_flow_without_a_state() {
    let flows = parse_connection_flows(&OFFLOADED.replace("[OFFLOAD]", "[ASSURED]"));
    assert_eq!(flows.len(), 1);
    assert_eq!(flows[0].state, None);
}

#[test]
fn the_state_is_looked_for_behind_the_third_word() {
    let flows = parse_connection_flows(&TCP.replace("ESTABLISHED ", "[NEW] k=v SYN_SENT "));
    assert_eq!(flows[0].state, Some("SYN_SENT".to_string()));
}

#[test]
fn lines_that_give_no_flow() {
    for line in [
        "",
        "   \t ",
        SUMMARY,
        "tcp 6 10",
        &TCP.replace("tcp  ", "icmp "),
        &TCP.replace("tcp  ", "TCP  "),
        &TCP.replace("src=93.184.216.34 ", ""),
        &TCP.replace("dst=100.64.0.2 ", "dst=100.64.0.256 "),
        &TCP.replace("sport=443 ", "sport=70000 "),
        &TCP.replace("dport=443", "dport=x"),
        &format!("{} 1 flow entries have been shown", TCP),
    ] {
        assert!(parse_connection_flows(line).is_empty(), "{}", line);
    }
}

#[test]
fn fields_that_cannot_be_read_are_passed_over() {
    let flows = parse_connection_flows(&TCP.replace("ESTABLISHED", "ESTABLISHED src=nowhere packets=-1"));
    assert_eq!(flows[0].orig_src, IpAddress::V4(0xc0a8_010a));
    assert_eq!(flows[0].orig_packets, 10);
}

#[test]
fn flows_come_in_the_order_of_the_lines() {
    let content = format!("{}\r\n\n{}\n{}\n{}", UDP, TCP6, SUMMARY, TCP);
    let flows = parse_connection_flows(&content);
    let ports: Vec<u16> = flows.iter().map(|f| f.orig_sport).collect();
    assert_eq!(ports, vec![40000, 1000, 50000]);
}

#[test]
fn flows_of_both_tables() {
    let ipv4 = format!("{}\n{}\n", TCP, UDP);
    let ipv6 = format!("{}\n", TCP6);
    let both = parse_connection_flows(&format!("{}{}", ipv4, ipv6));
    let mut parts = shown(&parse_connection_flows(&ipv4));
    parts.extend(shown(&parse_connection_flows(&ipv6)));
    assert_eq!(shown(&both), parts);
    assert_eq!(both.len(), 3);
}

#[test]
fn lines_without_an_entry_change_no_flow() {
    let with = format!("{}\n{}\n\n{}\n", TCP, SUMMARY, UDP);
    let without = format!("{}\n{}\n", TCP, UDP);
    assert_eq!(shown(&parse_connection_flows(&with)), shown(&parse_connection_flows(&without)));
}
