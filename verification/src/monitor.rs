//! The monitor that keeps the connection statistics up to date.

use crate::network::{mask_ones, subnet_mask_to_cidr};
use crate::stats::{no_stats, DeviceConnectionStats, GlobalConnectionStats};
use vstd::prelude::*;

verus! {

broadcast use vstd::std_specs::hash::group_hash_axioms;

/// How many seconds lie between two updates.
pub const UPDATE_INTERVAL_SECONDS: u64 = 3;

/// What the monitor works on. `H` is the handle by which host names are shared with
/// the rest of the program.
pub struct ConnectionModuleContext<H> {
    pub device_connection_stats: GlobalConnectionStats,
    pub hostname_bindings: H,
    pub interface_ip: [u8; 4],
    pub subnet_mask: [u8; 4],
    pub interface: String,
}

impl<H> ConnectionModuleContext<H> {
    /// A context for the interface, with no statistics yet.
    pub fn new(
        iface: &str,
        hostname_bindings: H,
        interface_ip: [u8; 4],
        subnet_mask: [u8; 4],
    ) -> (c: Self)
        ensures
            c.device_connection_stats.total_stats == no_stats(),
            c.device_connection_stats.device_stats@ == Map::<u64, DeviceConnectionStats>::empty(),
            c.device_connection_stats.last_updated == 0,
            c.hostname_bindings == hostname_bindings,
            c.interface_ip == interface_ip,
            c.subnet_mask == subnet_mask,
            c.interface@ == iface@,
    {
        ConnectionModuleContext {
            device_connection_stats: GlobalConnectionStats::default(),
            hostname_bindings,
            interface_ip,
            subnet_mask,
            interface: iface.to_string(),
        }
    }
}

/// What the monitor waits for.
pub enum MonitorEvent {
    /// It was time for an update: the new statistics, or why there are none.
    Tick(Result<GlobalConnectionStats, String>),
    /// The program shuts down.
    Shutdown,
}

/// What the monitor does next.
#[derive(Debug)]
pub enum MonitorAction {
    /// Reports the update, and waits on.
    ReportUpdate {
        devices: usize,
        total_connections: u64,
        interface_ip: [u8; 4],
        prefix_len: u8,
    },
    /// Reports why there was no update, and waits on.
    ReportFailure(String),
    /// Ends.
    Stop,
}

/// The connection statistics module.
pub struct ConnectionMonitor;

impl ConnectionMonitor {
    pub fn new() -> (m: Self)
        ensures
            m == ConnectionMonitor,
    {
        ConnectionMonitor
    }

    /// Takes in an event. New statistics replace those of the context; without any,
    /// the context keeps what it has.
    pub fn handle<H>(&self, ctx: &mut ConnectionModuleContext<H>, event: MonitorEvent) -> (action:
        MonitorAction)
        ensures
            final(ctx).hostname_bindings == old(ctx).hostname_bindings,
            final(ctx).interface_ip == old(ctx).interface_ip,
            final(ctx).subnet_mask == old(ctx).subnet_mask,
            final(ctx).interface == old(ctx).interface,
            match event {
                MonitorEvent::Tick(Ok(stats)) => {
                    &&& final(ctx).device_connection_stats == stats
                    &&& action matches MonitorAction::ReportUpdate {
                        devices,
                        total_connections,
                        interface_ip,
                        prefix_len,
                    }
                    &&& devices == stats.device_stats@.len()
                    &&& total_connections == stats.total_stats.total_connections
                    &&& interface_ip == old(ctx).interface_ip
                    &&& prefix_len == mask_ones(old(ctx).subnet_mask@)
                },
                MonitorEvent::Tick(Err(reason)) => {
                    &&& final(ctx).device_connection_stats == old(ctx).device_connection_stats
                    &&& action == MonitorAction::ReportFailure(reason)
                },
                MonitorEvent::Shutdown => {
                    &&& final(ctx).device_connection_stats == old(ctx).device_connection_stats
                    &&& action == MonitorAction::Stop
                },
            },
    {
        match event {
            MonitorEvent::Tick(Ok(stats)) => {
                let devices: usize = stats.device_stats.len();
                let total_connections: u64 = stats.total_stats.total_connections;
                ctx.device_connection_stats = stats;
                MonitorAction::ReportUpdate {
                    devices,
                    total_connections,
                    interface_ip: ctx.interface_ip,
                    prefix_len: subnet_mask_to_cidr(ctx.subnet_mask),
                }
            },
            MonitorEvent::Tick(Err(reason)) => MonitorAction::ReportFailure(reason),
            MonitorEvent::Shutdown => MonitorAction::Stop,
        }
    }
}

} // verus!
