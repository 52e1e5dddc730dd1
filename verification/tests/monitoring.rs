use stellwerk::config::MonitoringConfig;
use stellwerk::model::{Client, Gateway, Group};
use stellwerk::monitor::{
    autofallback_gateways, autofallback_transition, failover_activate_commands, failover_restore_commands,
    group_failover_transition, group_watch_list, initial_links, interfaces_to_check, monitor_step, new_status,
    ppp0_nexthop, MonitorAction,
};
use stellwerk::store::Database;

fn gw(name: &str, table: &str, iface: &str, src: Option<&str>, mark: i64) -> Gateway {
    Gateway {
        name: name.to_string(),
        table_name: table.to_string(),
        interface: iface.to_string(),
        src_ip: src.map(|s| s.to_string()),
        description: None,
        mark,
        dns_ip: None,
        device_name: None,
    }
}

fn fb_client(ip: &str, gateway: &str, group: Option<&str>) -> Client {
    Client {
        ip: ip.to_string(),
        mac: None,
        hostname: None,
        label: None,
        group_name: group.map(|s| s.to_string()),
        gateway: gateway.to_string(),
        first_seen: 0,
        last_seen: 0,
        active: 1,
        ipv6: None,
        dns_ip: None,
        autofallback: 1,
        original_gateway: None,
        fallback_gateway: None,
    }
}

fn describe(a: &MonitorAction) -> String {
    match a {
        MonitorAction::RecordEvent { event, detail } => format!("event {} {:?}", event, detail),
        MonitorAction::EnableStarlink => "starlink".to_string(),
        MonitorAction::ActivateGreFailover => "activate".to_string(),
        MonitorAction::RestoreGreFailover => "restore".to_string(),
    }
}

#[test]
fn new_status_assumes_links_up() {
    let s = new_status();
    assert!(s.ppp0_up && s.gre_up);
    assert_eq!(s.last_check, 0);
    assert!(s.gateway_health.is_empty());
}

#[test]
fn ppp0_outage_calls_starlink() {
    let mut cfg = MonitoringConfig::default();
    cfg.gre_failover_enabled = true;
    let mut st = initial_links();
    let steps: Vec<String> = monitor_step(&mut st, &cfg, true, false, true).iter().map(describe).collect();
    assert_eq!(steps, vec!["event ppp0_down Some(\"8.8.8.8\")".to_string(), "starlink".to_string()]);
    let steps: Vec<String> = monitor_step(&mut st, &cfg, true, false, true).iter().map(describe).collect();
    assert!(steps.is_empty());
    let steps: Vec<String> = monitor_step(&mut st, &cfg, true, true, false).iter().map(describe).collect();
    assert_eq!(
        steps,
        vec![
            "event ppp0_up Some(\"8.8.8.8\")".to_string(),
            "event gre_failover_active Some(\"gre_fiber\")".to_string(),
            "activate".to_string(),
        ]
    );
    let steps: Vec<String> = monitor_step(&mut st, &cfg, false, true, true).iter().map(describe).collect();
    assert_eq!(steps, vec!["event gre_failover_restored Some(\"gre_fiber\")".to_string(), "restore".to_string()]);
}

#[test]
fn gre_outage_ignored_without_failover() {
    let cfg = MonitoringConfig::default();
    let mut st = initial_links();
    assert!(monitor_step(&mut st, &cfg, false, true, false).is_empty());
    assert!(!st.gre_was_up);
}

#[test]
fn ppp0_nexthop_from_main_table() {
    let out = "default via 62.1.1.1 dev eth9\ndefault via 92.116.1.1 dev ppp0 proto static\n10.0.0.0/8 dev ppp0\n";
    assert_eq!(ppp0_nexthop(out), Some("92.116.1.1".to_string()));
    assert_eq!(ppp0_nexthop("default dev ppp0 scope link\ndefault via 1.1.1.1 dev ppp0\n"), None);
    assert_eq!(ppp0_nexthop(""), None);
}

#[test]
fn failover_commands_for_gre_tables() {
    let gws = vec![gw("gre_175", "gre_175", "gre_fiber", Some("5.230.119.175"), 175), gw("vpnde", "vpnde", "vpnde", None, 220), gw("gre_214", "gre_214", "gre_fiber", None, 214)];
    assert_eq!(
        failover_activate_commands(&gws, "gre_fiber", "92.1.1.1"),
        vec![
            vec!["route", "replace", "default", "via", "92.1.1.1", "dev", "ppp0", "table", "gre_175"],
            vec!["route", "replace", "default", "via", "92.1.1.1", "dev", "ppp0", "table", "gre_214"],
        ]
    );
    assert_eq!(
        failover_restore_commands(&gws, "gre_fiber", "172.16.10.1"),
        vec![
            vec!["route", "replace", "default", "via", "172.16.10.1", "dev", "gre_fiber", "src", "5.230.119.175", "table", "gre_175"],
            vec!["route", "replace", "default", "via", "172.16.10.1", "dev", "gre_fiber", "table", "gre_214"],
        ]
    );
}

#[test]
fn autofallback_moves_clients_and_back() {
    let mut db = Database::new();
    db.gateways = vec![gw("gre_175", "gre_175", "gre_fiber", None, 175), gw("ppp0", "main", "ppp0", None, 100), gw("vpnde", "vpnde", "vpnde", None, 220)];
    db.clients = vec![fb_client("172.16.1.5", "vpnde", None), fb_client("172.16.1.6", "ppp0", None)];
    let watched = autofallback_gateways(&db);
    let names: Vec<&str> = watched.iter().map(|g| g.name.as_str()).collect();
    assert_eq!(names, vec!["vpnde"]);
    assert_eq!(interfaces_to_check(&watched), vec!["vpnde".to_string()]);
    let mut health: Vec<(String, bool)> = Vec::new();
    assert!(autofallback_transition(&mut db, &mut health, &watched, "vpnde", false, 1000));
    assert_eq!(db.clients[0].gateway, "ppp0");
    assert_eq!(db.clients[0].original_gateway, Some("vpnde".to_string()));
    assert_eq!(db.monitor_events.last().unwrap().event, "autofallback_active");
    assert_eq!(db.monitor_events.last().unwrap().detail, Some("vpnde (vpnde)".to_string()));
    assert!(!autofallback_transition(&mut db, &mut health, &watched, "vpnde", false, 1030));
    assert!(autofallback_transition(&mut db, &mut health, &watched, "vpnde", true, 1060));
    assert_eq!(db.clients[0].gateway, "vpnde");
    assert_eq!(db.clients[0].original_gateway, None);
    assert_eq!(db.monitor_events.last().unwrap().event, "autofallback_restored");
    assert_eq!(health, vec![("vpnde".to_string(), true)]);
}

#[test]
fn group_failover_switches_group() {
    let mut db = Database::new();
    db.gateways = vec![gw("ppp0", "main", "ppp0", None, 100), gw("vpnde", "vpnde", "vpnde", None, 220)];
    db.clients = vec![fb_client("172.16.1.5", "vpnde", Some("kids"))];
    db.groups = vec![Group { name: "kids".to_string(), gateway: "vpnde".to_string(), fallback_gateway: Some("ppp0".to_string()), description: None, fallback_active: 0 }];
    assert_eq!(group_watch_list(&db), vec![("kids".to_string(), "vpnde".to_string())]);
    let mut health: Vec<(String, bool)> = Vec::new();
    assert!(group_failover_transition(&mut db, &mut health, "kids", false));
    assert_eq!(db.clients[0].gateway, "ppp0");
    assert_eq!(db.groups[0].fallback_active, 1);
    assert!(!group_failover_transition(&mut db, &mut health, "kids", false));
    assert!(group_failover_transition(&mut db, &mut health, "kids", true));
    assert_eq!(db.clients[0].gateway, "vpnde");
    assert_eq!(db.groups[0].fallback_active, 0);
    assert_eq!(health, vec![("grp:kids".to_string(), true)]);
}

#[test]
fn recovery_restores_every_failed_over_table() {
    let gws = vec![
        gw("gre_175", "gre_175", "gre_fiber", Some("5.230.119.175"), 175),
        gw("gre_214", "gre_214", "gre_fiber", None, 214),
        gw("ppp0", "main", "ppp0", None, 100),
    ];
    let on = failover_activate_commands(&gws, "gre_fiber", "92.1.1.1");
    let off = failover_restore_commands(&gws, "gre_fiber", "172.16.10.1");
    assert_eq!(on.len(), 2);
    assert_eq!(on.len(), off.len());
    for (a, b) in on.iter().zip(off.iter()) {
        assert_eq!(a.last(), b.last());
        assert_eq!(b[4], "172.16.10.1");
        assert_eq!(b[6], "gre_fiber");
    }
}

#[test]
fn autofallback_uses_the_clients_fallback_gateway() {
    let mut db = Database::new();
    db.gateways = vec![gw("gre_175", "gre_175", "gre_fiber", None, 175), gw("ppp0", "main", "ppp0", None, 100), gw("vpnde", "vpnde", "vpnde", None, 220)];
    db.clients = vec![fb_client("172.16.1.5", "vpnde", None), fb_client("172.16.1.6", "vpnde", None)];
    assert!(stellwerk::store::set_client_autofallback(&mut db, "172.16.1.5", Some("gre_175")));
    assert_eq!(db.clients[0].autofallback, 1);
    let watched = autofallback_gateways(&db);
    let mut health: Vec<(String, bool)> = Vec::new();
    assert!(autofallback_transition(&mut db, &mut health, &watched, "vpnde", false, 1000));
    assert_eq!(db.clients[0].gateway, "gre_175");
    assert_eq!(db.clients[1].gateway, "ppp0");
    assert!(autofallback_transition(&mut db, &mut health, &watched, "vpnde", true, 1060));
    assert_eq!(db.clients[0].gateway, "vpnde");
    assert_eq!(db.clients[1].gateway, "vpnde");
    assert!(stellwerk::store::set_client_autofallback(&mut db, "172.16.1.5", None));
    assert_eq!(db.clients[0].autofallback, 0);
    assert_eq!(db.clients[0].fallback_gateway, None);
    assert!(!stellwerk::store::set_client_autofallback(&mut db, "10.0.0.1", None));
}

#[test]
fn restore_moves_back_as_many_clients_as_fallback_moved() {
    let mut db = Database::new();
    db.clients = vec![fb_client("172.16.1.5", "vpnde", None), fb_client("172.16.1.6", "vpnde", None), fb_client("172.16.1.7", "webgate", None)];
    let names = vec!["vpnde".to_string()];
    let moved = stellwerk::store::activate_fallback_for_clients(&mut db, &names);
    let back = stellwerk::store::restore_fallback_clients(&mut db, &names);
    assert_eq!(moved, 2);
    assert_eq!(back, moved);
    assert!(db.clients.iter().all(|c| c.original_gateway.is_none()));
}
