use bandix_connection::conntrack::{
    conntrack_arguments, conntrack_output, dump_conntrack, ConntrackError, DumpState, Family,
};
use bandix_connection::monitor::{
    ConnectionModuleContext, ConnectionMonitor, MonitorAction, MonitorEvent,
    UPDATE_INTERVAL_SECONDS,
};
use bandix_connection::stats::GlobalConnectionStats;

fn context() -> ConnectionModuleContext<u8> {
    ConnectionModuleContext::new("br-lan", 9, [192, 168, 1, 1], [255, 255, 255, 0])
}

#[test]
fn arguments_of_the_command() {
    assert_eq!(conntrack_arguments(Family::Ipv4), vec!["-L", "-f", "ipv4"]);
    assert_eq!(conntrack_arguments(Family::Ipv6), vec!["-L", "-f", "ipv6"]);
}

#[test]
fn output_of_a_run_that_succeeded() {
    let r = conntrack_output(Family::Ipv4, true, "tcp é".as_bytes(), b"1 shown");
    assert_eq!(r.unwrap(), "tcp é");
}

#[test]
fn invalid_bytes_do_not_fail_a_run() {
    let r = conntrack_output(Family::Ipv4, true, b"a\xffb", b"");
    assert_eq!(r.unwrap(), "a\u{fffd}b");
}

#[test]
fn error_of_a_run_that_failed() {
    let r = conntrack_output(Family::Ipv6, false, b"tcp", b"no such table\n");
    let e = r.unwrap_err();
    assert!(matches!(&e, ConntrackError::Failed { family: Family::Ipv6, stderr } if stderr == "no such table\n"));
    assert_eq!(e.message(), "Failed to execute conntrack -L -f ipv6: no such table\n");
}

#[test]
fn error_of_a_command_that_did_not_run() {
    assert_eq!(ConntrackError::NotRun("not found".to_string()).message(), "not found");
}

#[test]
fn a_dump_holds_both_tables() {
    let s = DumpState::Start;
    assert_eq!(s.wanted(), Some(Family::Ipv4));
    let s = dump_conntrack(s, Ok("a\n".to_string()));
    assert_eq!(s.wanted(), Some(Family::Ipv6));
    let s = dump_conntrack(s, Ok("b\n".to_string()));
    assert_eq!(s.wanted(), None);
    let s = dump_conntrack(s, Ok("c\n".to_string()));
    assert!(matches!(s, DumpState::Done(Ok(content)) if content == "a\nb\n"));
}

#[test]
fn a_missing_ipv6_table_keeps_the_ipv4_table() {
    let s = dump_conntrack(DumpState::Start, Ok("a\n".to_string()));
    let s = dump_conntrack(s, Err(ConntrackError::NotRun("x".to_string())));
    assert!(matches!(s, DumpState::Done(Ok(content)) if content == "a\n"));
}

#[test]
fn without_the_ipv4_table_there_is_no_dump() {
    let s = dump_conntrack(DumpState::Start, Err(ConntrackError::NotRun("x".to_string())));
    assert_eq!(s.wanted(), None);
    assert!(matches!(s, DumpState::Done(Err(e)) if e.message() == "x"));
}

#[test]
fn a_new_context_has_no_statistics() {
    let c = context();
    assert_eq!(c.interface, "br-lan");
    assert_eq!(c.hostname_bindings, 9);
    assert_eq!(c.interface_ip, [192, 168, 1, 1]);
    assert_eq!(c.subnet_mask, [255, 255, 255, 0]);
    assert_eq!(c.device_connection_stats.total_stats.total_connections, 0);
    assert!(c.device_connection_stats.device_stats.is_empty());
    assert_eq!(c.device_connection_stats.last_updated, 0);
}

#[test]
fn an_update_replaces_the_statistics() {
    let mut c = context();
    let mut g = GlobalConnectionStats::default();
    g.total_stats.total_connections = 12;
    g.last_updated = 34;
    let action = ConnectionMonitor::new().handle(&mut c, MonitorEvent::Tick(Ok(g)));
    assert!(matches!(
        action,
        MonitorAction::ReportUpdate {
            devices: 0,
            total_connections: 12,
            interface_ip: [192, 168, 1, 1],
            prefix_len: 24
        }
    ));
    assert_eq!(c.device_connection_stats.last_updated, 34);
    assert_eq!(c.device_connection_stats.total_stats.total_connections, 12);
    assert_eq!(c.interface, "br-lan");
}

#[test]
fn a_failed_update_and_a_shutdown_keep_the_statistics() {
    let mut c = context();
    c.device_connection_stats.last_updated = 34;
    let m = ConnectionMonitor::new();
    let action = m.handle(&mut c, MonitorEvent::Tick(Err("broken".to_string())));
    assert!(matches!(action, MonitorAction::ReportFailure(reason) if reason == "broken"));
    assert_eq!(c.device_connection_stats.last_updated, 34);
    let action = m.handle(&mut c, MonitorEvent::Shutdown);
    assert!(matches!(action, MonitorAction::Stop));
    assert_eq!(c.device_connection_stats.last_updated, 34);
}

#[test]
fn updates_are_three_seconds_apart() {
    assert_eq!(UPDATE_INTERVAL_SECONDS, 3);
}
