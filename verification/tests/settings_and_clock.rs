use stellwerk::clock::{insert_monitor_event_now, record_check_now, upsert_client_now};
use stellwerk::config::{Config, DnsConfig, HomeAssistantConfig, MonitoringConfig};
use stellwerk::homeassistant::{ha_configured, ha_endpoint, starlink_switch_url, state_url};
use stellwerk::monitor::new_status;
use stellwerk::store::Database;

#[test]
fn default_configuration_values() {
    let c = Config::default_with_path("/tmp/x.db");
    assert_eq!(c.db.path, "/tmp/x.db");
    assert_eq!(c.defaults.gateway, "gre_175");
    assert_eq!(c.monitoring.check_interval_secs, 30);
    assert_eq!(MonitoringConfig::default_gre_interface(), "gre_fiber");
    assert_eq!(MonitoringConfig::default_gre_nexthop(), "172.16.10.1");
    assert_eq!(DnsConfig::default_user(), "unbound");
    assert_eq!(c.networks.scan_interval_secs, 300);
    assert!(c.mullvad.is_none());
}

#[test]
fn home_assistant_urls() {
    let mut cfg = HomeAssistantConfig::default();
    assert!(!ha_configured(&cfg));
    cfg.enabled = true;
    assert!(!ha_configured(&cfg));
    cfg.token = "abc".to_string();
    assert!(ha_configured(&cfg));
    cfg.url = "http://ha.local:8123//".to_string();
    let ep = ha_endpoint(&cfg);
    assert_eq!(ep.base_url, "http://ha.local:8123");
    assert_eq!(starlink_switch_url(&ep, true), "http://ha.local:8123/api/services/switch/turn_on");
    assert_eq!(starlink_switch_url(&ep, false), "http://ha.local:8123/api/services/switch/turn_off");
    assert_eq!(state_url(&ep, "switch.starlink_modem"), "http://ha.local:8123/api/states/switch.starlink_modem");
}

#[test]
fn stamps_use_the_current_time() {
    let mut st = new_status();
    let t = record_check_now(&mut st, false, true);
    assert!(t > 1_600_000_000);
    assert_eq!(st.last_check, t);
    assert!(!st.ppp0_up && st.gre_up);

    let mut db = Database::new();
    let seen = upsert_client_now(&mut db, "172.16.1.5", Some("aa:bb"), None, "webgate");
    assert_eq!(db.clients[0].gateway, "webgate");
    assert_eq!(db.clients[0].first_seen, seen);
    assert_eq!(db.clients[0].last_seen, seen);
    let at = insert_monitor_event_now(&mut db, "ppp0_down", Some("8.8.8.8"));
    assert_eq!(db.monitor_events[0].ts, at);
    assert_eq!(db.monitor_events[0].id, 1);
}

#[test]
fn configured_dns_is_seeded_into_the_store() {
    let mut db = Database::new();
    stellwerk::store::seed_gateways(&mut db);
    assert!(db.is_wf());
    let dns = DnsConfig {
        gateway: Some("webgate".to_string()),
        unbound_user: "unbound".to_string(),
        gateway_dns: vec![
            ("gre_214".to_string(), "1.1.1.1".to_string()),
            ("unknown".to_string(), "8.8.8.8".to_string()),
        ],
        servers: Vec::new(),
    };
    stellwerk::store::seed_dns(&mut db, &dns);
    assert_eq!(stellwerk::store::get_setting(&db, "unbound-gateway"), Some("webgate".to_string()));
    let g = stellwerk::store::get_gateway(&db, "gre_214").unwrap();
    assert_eq!(g.dns_ip, Some("1.1.1.1".to_string()));
    let g = stellwerk::store::get_gateway(&db, "gre_175").unwrap();
    assert_eq!(g.dns_ip, None);
    assert!(stellwerk::store::get_gateway(&db, "unknown").is_none());
}

#[test]
fn a_store_read_back_is_checked() {
    let mut db = Database::new();
    stellwerk::store::seed_gateways(&mut db);
    assert!(db.is_wf());
    let mut dup = stellwerk::store::get_gateway(&db, "ppp0").unwrap();
    dup.name = "zzz".to_string();
    db.gateways.push(dup);
    assert!(!db.is_wf());
    db.gateways.pop();
    let mut c = db.gateways[0].clone();
    c.mark = 9999;
    db.gateways.push(c);
    assert!(!db.is_wf());
}
