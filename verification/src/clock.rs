//! The current time, from chrono, and the operations that stamp with it.

use vstd::prelude::*;
use crate::interfaces::{iface_lines, interface_lines, stats_views, IfaceStats};
use crate::lookup::sviews;
use crate::model::MonitorEventV;
use crate::monitor::{record_check, InterfaceStatus};
use crate::order::{count_below, has_key, key_index};
use crate::store::{
    client_views, event_views, insert_monitor_event, new_client, only_clients_changed, opt_str,
    seen_again, upsert_client, Database,
};

verus! {

/// chrono's `DateTime::<Utc>::from(SystemTime::now()).timestamp()`: the
/// system clock in seconds since the Unix epoch, negative for a clock set
/// before it. Nothing is claimed of the value: it is the time.
#[verifier::external_body]
fn unix_time() -> (r: i64) {
    chrono::DateTime::<chrono::Utc>::from(std::time::SystemTime::now()).timestamp()
}

/// chrono's `DateTime::<Utc>::from(SystemTime::now()).timestamp_nanos_opt()`,
/// 0 when out of range. Nothing is claimed of the value: it is the time.
#[verifier::external_body]
fn unix_time_nanos() -> (r: i64) {
    chrono::DateTime::<chrono::Utc>::from(std::time::SystemTime::now()).timestamp_nanos_opt().unwrap_or(0)
}

/// The current time in seconds since the Unix epoch (what the system clock
/// says; nothing is known of it beforehand).
pub fn now_seconds() -> (r: i64) {
    unix_time()
}

/// The current time in nanoseconds since the Unix epoch (0 beyond the year
/// 2262; nothing is known of it beforehand).
pub fn now_nanos() -> (r: i64) {
    unix_time_nanos()
}

/// Records a link check at the current time; returns that time.
pub fn record_check_now(status: &mut InterfaceStatus, ppp0_up: bool, gre_up: bool) -> (now: i64)
    ensures
        final(status).ppp0_up == ppp0_up,
        final(status).gre_up == gre_up,
        final(status).last_check == now,
        final(status).gateway_health == old(status).gateway_health,
{
    let now = unix_time();
    record_check(status, ppp0_up, gre_up, now);
    now
}

/// The InfluxDB lines of the interface counters, stamped with the current
/// time in nanoseconds; returns the lines and that time.
pub fn interface_lines_now(prev: &Vec<IfaceStats>, current: &Vec<IfaceStats>) -> (r: (Vec<String>, i64))
    ensures
        sviews(r.0@) == iface_lines(stats_views(prev@), stats_views(current@), r.1),
{
    let now_ns = unix_time_nanos();
    (interface_lines(prev, current, now_ns), now_ns)
}

/// Records a sighting of a client at the current time (a new client goes on
/// `default_gw`); returns that time.
pub fn upsert_client_now(
    db: &mut Database,
    ip: &str,
    mac: Option<&str>,
    hostname: Option<&str>,
    default_gw: &str,
) -> (now: i64)
    requires
        old(db).wf(),
    ensures
        final(db).wf(),
        ({
            let rows = client_views(old(db).clients@);
            if has_key(old(db).clients@, ip@) {
                let k = key_index(old(db).clients@, ip@);
                client_views(final(db).clients@) == rows.update(k, seen_again(rows[k], opt_str(mac), opt_str(hostname), now))
            } else {
                client_views(final(db).clients@) == rows.insert(
                    count_below(old(db).clients@, ip@) as int,
                    new_client(ip@, opt_str(mac), opt_str(hostname), now, default_gw@),
                )
            }
        }),
        only_clients_changed(*old(db), *final(db)),
{
    let now = unix_time();
    upsert_client(db, ip, mac, hostname, now, default_gw);
    now
}

/// Logs a monitor event at the current time; returns that time.
pub fn insert_monitor_event_now(db: &mut Database, event: &str, detail: Option<&str>) -> (now: i64)
    requires
        old(db).wf(),
        old(db).next_event_id < i64::MAX,
    ensures
        final(db).wf(),
        event_views(final(db).monitor_events@) == event_views(old(db).monitor_events@).push(
            MonitorEventV { id: old(db).next_event_id, ts: now, event: event@, detail: opt_str(detail) },
        ),
        final(db).next_event_id == old(db).next_event_id + 1,
        final(db).clients == old(db).clients,
        final(db).gateways == old(db).gateways,
{
    let now = unix_time();
    insert_monitor_event(db, event, detail, now);
    now
}

} // verus!
