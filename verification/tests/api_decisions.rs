use stellwerk::api::{
    check_new_device, mullvad_connections, mullvad_description, mullvad_dns, normalize_country_code, optional_text,
    set_gateway, wg_sync_additions, wg_sync_removals, wireguard_description, CreateDeviceBody, DeviceRequestError,
    GatewayAssignment, SetGatewayBody,
};
use stellwerk::model::{Client, Gateway, MullvadDevice};
use stellwerk::store::{reassign_clients, seed_gateways, Database};

fn gw(name: &str, iface: &str, mark: i64) -> Gateway {
    Gateway {
        name: name.to_string(),
        table_name: name.to_string(),
        interface: iface.to_string(),
        src_ip: None,
        description: Some(format!("{} gw", name)),
        mark,
        dns_ip: None,
        device_name: if iface.starts_with("mu") { Some("laptop".to_string()) } else { None },
    }
}

fn client(ip: &str, gateway: &str) -> Client {
    Client {
        ip: ip.to_string(),
        mac: None,
        hostname: None,
        label: None,
        group_name: None,
        gateway: gateway.to_string(),
        first_seen: 0,
        last_seen: 0,
        active: 1,
        ipv6: None,
        dns_ip: None,
        autofallback: 0,
        original_gateway: None,
        fallback_gateway: None,
    }
}

#[test]
fn blank_fields_become_absent() {
    assert_eq!(optional_text("  1.1.1.1 "), Some("1.1.1.1".to_string()));
    assert_eq!(optional_text("   "), None);
    assert_eq!(optional_text(""), None);
}

#[test]
fn gateway_assignment_outcomes() {
    let mut db = Database::new();
    db.gateways = vec![gw("vpnde", "vpnde", 220)];
    db.clients = vec![client("172.16.1.5", "gre_175")];
    let body = SetGatewayBody { gateway: "nope".to_string() };
    assert_eq!(set_gateway(&mut db, "172.16.1.5", &body), GatewayAssignment::UnknownGateway);
    let body = SetGatewayBody { gateway: "vpnde".to_string() };
    assert_eq!(set_gateway(&mut db, "172.16.9.9", &body), GatewayAssignment::UnknownClient);
    assert_eq!(set_gateway(&mut db, "172.16.1.5", &body), GatewayAssignment::Assigned);
    assert_eq!(db.clients[0].gateway, "vpnde");
}

#[test]
fn device_requests_are_checked() {
    let mut db = Database::new();
    db.mullvad_devices = vec![MullvadDevice {
        name: "laptop".to_string(),
        private_key: "k".to_string(),
        public_key: "p".to_string(),
        address: "a".to_string(),
        created_at: 1,
    }];
    let b = |s: &str| CreateDeviceBody { name: s.to_string() };
    assert_eq!(check_new_device(&db, false, &b("x")), Err(DeviceRequestError::NotConfigured));
    assert_eq!(check_new_device(&db, true, &b("   ")), Err(DeviceRequestError::BadName));
    assert_eq!(check_new_device(&db, true, &b(&"x".repeat(65))), Err(DeviceRequestError::BadName));
    assert_eq!(check_new_device(&db, true, &b(&"x".repeat(64))), Ok("x".repeat(64)));
    assert_eq!(check_new_device(&db, true, &b(&"ä".repeat(33))), Err(DeviceRequestError::BadName));
    assert_eq!(check_new_device(&db, true, &b(&"ä".repeat(32))), Ok("ä".repeat(32)));
    assert_eq!(check_new_device(&db, true, &b(" laptop ")), Err(DeviceRequestError::Exists));
    assert_eq!(check_new_device(&db, true, &b(" phone ")), Ok("phone".to_string()));
}

#[test]
fn country_codes_and_descriptions() {
    assert_eq!(normalize_country_code(" DE "), "de");
    assert_eq!(mullvad_description("de", "laptop"), "Mullvad DE (laptop)");
    assert_eq!(wireguard_description("wg0"), "WireGuard: wg0");
    assert_eq!(mullvad_dns(), "10.64.0.1");
}

#[test]
fn mullvad_connection_listing() {
    let gws = vec![gw("gre_175", "gre_fiber", 175), gw("mude", "mude", 221), gw("much", "much", 222)];
    let wg = vec!["mude".to_string(), "much".to_string(), "wg0".to_string()];
    let c = mullvad_connections(&gws, &wg);
    assert_eq!(mullvad_connections(&gws, &vec!["mude".to_string()]).len(), 1);
    let got: Vec<(String, String, Option<String>)> = c.into_iter().map(|x| (x.country_code, x.interface, x.device_name)).collect();
    assert_eq!(
        got,
        vec![
            ("de".to_string(), "mude".to_string(), Some("laptop".to_string())),
            ("ch".to_string(), "much".to_string(), Some("laptop".to_string())),
        ]
    );
}

#[test]
fn wireguard_sync_plan() {
    let gws = vec![gw("gre_175", "gre_fiber", 175), gw("mude", "mude", 221), gw("old0", "old0", 223), gw("wg1", "wg1", 224)];
    let active = vec!["wg1".to_string(), "wg2".to_string(), "mufr".to_string(), "gre_fiber".to_string()];
    assert_eq!(wg_sync_additions(&active, &gws), vec!["wg2".to_string()]);
    // A gateway named like a Mullvad tunnel stays, up or down: Mullvad has its
    // own connect and disconnect.
    assert_eq!(wg_sync_removals(&active, &gws), vec!["old0".to_string()]);
    assert_eq!(wg_sync_removals(&vec![], &vec![gw("mude", "mude", 221)]), Vec::<String>::new());
}

#[test]
fn wireguard_sync_keeps_built_in_gateways() {
    let gws = vec![gw("buda", "buda", 203), gw("mobile", "mobile", 209), gw("old0", "old0", 223)];
    assert_eq!(wg_sync_removals(&vec![], &gws), vec!["old0".to_string()]);
    assert!(stellwerk::store::is_seeded_gateway("buda"));
    assert!(!stellwerk::store::is_seeded_gateway("old0"));
}

#[test]
fn clients_of_a_removed_gateway_move() {
    let mut db = Database::new();
    db.clients = vec![client("172.16.1.5", "wg0"), client("172.16.1.6", "vpnde")];
    reassign_clients(&mut db, "wg0", "gre_175");
    assert_eq!(db.clients[0].gateway, "gre_175");
    assert_eq!(db.clients[1].gateway, "vpnde");
}

#[test]
fn built_in_gateways_are_seeded() {
    let mut db = Database::new();
    db.gateways = vec![gw("mine", "mine", 207)];
    seed_gateways(&mut db);
    let names: Vec<&str> = db.gateways.iter().map(|g| g.name.as_str()).collect();
    assert_eq!(names, vec!["buda", "gre_175", "gre_214", "gre_215", "mine", "mobile", "nointernet", "ppp0", "stargate"]);
    let metas: Vec<(&str, &str)> = db.interface_meta.iter().map(|m| (m.name.as_str(), m.role.as_str())).collect();
    assert_eq!(
        metas,
        vec![("buda", "extern"), ("enp1s0.12", "extern"), ("gre_fiber", "extern"), ("mobile", "extern"), ("ppp0", "extern"), ("vpnagn", "extern")]
    );
    seed_gateways(&mut db);
    assert_eq!(db.gateways.len(), 9);
}

#[test]
fn a_tunnel_gateway_is_registered_with_its_interface() {
    let mut db = Database::new();
    db.gateways = vec![gw("gre_175", "gre_fiber", 175)];
    let r = stellwerk::store::register_tunnel_gateway(&mut db, "laptop-de", "mude", "Mullvad DE (laptop)", 210, Some("laptop"), Some("10.64.0.1"));
    assert!(r.is_ok());
    let g = stellwerk::store::get_gateway(&db, "laptop-de").unwrap();
    assert_eq!(g.table_name, "mude");
    assert_eq!(g.interface, "mude");
    assert_eq!(g.mark, 210);
    assert_eq!(g.dns_ip, Some("10.64.0.1".to_string()));
    assert_eq!(g.device_name, Some("laptop".to_string()));
    assert_eq!(db.interface_meta.len(), 1);
    assert_eq!(db.interface_meta[0].name, "mude");
    assert_eq!(db.interface_meta[0].role, "extern");
    assert_eq!(db.interface_meta[0].enabled, 1);

    let taken = stellwerk::store::register_tunnel_gateway(&mut db, "wg1", "wg1", "WireGuard: wg1", 175, None, None);
    assert!(taken.is_err());
    assert!(stellwerk::store::get_gateway(&db, "wg1").is_none());
    assert_eq!(db.interface_meta.len(), 1);
}

#[test]
fn a_retired_gateway_leaves_no_clients_behind() {
    let mut db = Database::new();
    seed_gateways(&mut db);
    stellwerk::store::register_tunnel_gateway(&mut db, "wg0", "wg0", "WireGuard: wg0", 210, None, None).unwrap();
    stellwerk::store::upsert_client(&mut db, "172.16.3.10", None, None, 100, "gre_175");
    stellwerk::store::upsert_client(&mut db, "172.16.3.11", None, None, 100, "gre_175");
    stellwerk::store::set_client_gateway(&mut db, "172.16.3.10", "wg0");
    stellwerk::store::retire_gateway(&mut db, "wg0", "wg0", "gre_175");
    assert_eq!(stellwerk::store::get_client(&db, "172.16.3.10").unwrap().gateway, "gre_175");
    assert!(stellwerk::store::get_gateway(&db, "wg0").is_none());
    assert!(db.interface_meta.iter().all(|m| m.name != "wg0"));
    assert_eq!(db.gateways.len(), 9);
}

#[test]
fn a_free_mark_can_be_registered() {
    let mut db = Database::new();
    seed_gateways(&mut db);
    for n in 0..5 {
        let marks = stellwerk::store::gateway_marks(&db);
        let mark = stellwerk::mullvad::next_free_mark(&marks);
        assert_eq!(mark, 220 + n);
        let iface = format!("wg{}", n);
        assert!(stellwerk::store::register_tunnel_gateway(&mut db, &iface, &iface, "WireGuard", mark, None, None).is_ok());
    }
    assert!(db.is_wf());
}

#[test]
fn applying_a_group_moves_its_clients() {
    let mut db = Database::new();
    seed_gateways(&mut db);
    for ip in ["172.16.3.10", "172.16.3.11", "172.16.3.12"] {
        stellwerk::store::upsert_client(&mut db, ip, None, None, 1, "gre_175");
    }
    stellwerk::store::set_client_group(&mut db, "172.16.3.10", "streaming");
    stellwerk::store::set_client_group(&mut db, "172.16.3.12", "streaming");
    assert_eq!(stellwerk::store::apply_group(&mut db, "streaming"), None);
    stellwerk::store::upsert_group(&mut db, "streaming", "webgate", Some("ppp0"), None);
    assert_eq!(stellwerk::store::apply_group(&mut db, "streaming"), Some(2));
    let gws: Vec<String> = db.clients.iter().map(|c| c.gateway.clone()).collect();
    assert_eq!(gws, vec!["webgate", "gre_175", "webgate"]);
}

#[test]
fn mullvad_gateways_are_named_after_device_and_country() {
    assert_eq!(stellwerk::api::mullvad_gateway_name("device1", "de"), "device1-de");
    let mut db = Database::new();
    seed_gateways(&mut db);
    stellwerk::store::register_tunnel_gateway(&mut db, "device1-de", "mude", "Mullvad DE (device1)", 220, Some("device1"), Some("10.64.0.1"))
        .unwrap();
    assert_eq!(stellwerk::store::gateway_on_interface(&db, "mude"), Some("device1-de".to_string()));
    assert_eq!(stellwerk::store::gateway_on_interface(&db, "muus"), None);
    let conns = mullvad_connections(&db.gateways, &vec!["mude".to_string()]);
    assert_eq!(conns.len(), 1);
    assert_eq!(conns[0].country_code, "de");
    assert_eq!(conns[0].name, "device1-de");
    assert_eq!(conns[0].interface, "mude");
    stellwerk::store::upsert_client(&mut db, "172.16.3.10", None, None, 1, "gre_175");
    stellwerk::store::set_client_gateway(&mut db, "172.16.3.10", "device1-de");
    stellwerk::store::retire_gateway(&mut db, "device1-de", "mude", "gre_175");
    assert_eq!(stellwerk::store::get_client(&db, "172.16.3.10").unwrap().gateway, "gre_175");
    assert!(db.interface_meta.iter().all(|m| m.name != "mude"));
    assert!(stellwerk::store::gateway_on_interface(&db, "mude").is_none());
}

#[test]
fn disconnecting_undoes_connecting() {
    let mut db = Database::new();
    seed_gateways(&mut db);
    let before_gw: Vec<(String, i64)> = db.gateways.iter().map(|g| (g.name.clone(), g.mark)).collect();
    let before_meta: Vec<String> = db.interface_meta.iter().map(|m| m.name.clone()).collect();
    stellwerk::store::register_tunnel_gateway(&mut db, "device1-de", "mude", "Mullvad DE (device1)", 220, Some("device1"), None)
        .unwrap();
    assert_eq!(db.gateways.len(), before_gw.len() + 1);
    stellwerk::store::retire_gateway(&mut db, "device1-de", "mude", "gre_175");
    let after_gw: Vec<(String, i64)> = db.gateways.iter().map(|g| (g.name.clone(), g.mark)).collect();
    let after_meta: Vec<String> = db.interface_meta.iter().map(|m| m.name.clone()).collect();
    assert_eq!(after_gw, before_gw);
    assert_eq!(after_meta, before_meta);
}

#[test]
fn seeding_keeps_rows_and_tags_interfaces() {
    let mut db = Database::new();
    db.gateways = vec![gw("gre_175", "other_iface", 175)];
    stellwerk::store::upsert_interface_meta(&mut db, "gre_fiber", "intern", false);
    seed_gateways(&mut db);
    let g = stellwerk::store::get_gateway(&db, "gre_175").unwrap();
    assert_eq!(g.interface, "other_iface");
    let g = stellwerk::store::get_gateway(&db, "gre_214").unwrap();
    assert_eq!((g.table_name.as_str(), g.interface.as_str(), g.src_ip.as_deref(), g.mark), ("gre_214", "gre_fiber", Some("5.230.119.214"), 214));
    let fiber = db.interface_meta.iter().find(|m| m.name == "gre_fiber").unwrap();
    assert_eq!((fiber.role.as_str(), fiber.enabled), ("extern", 0));
    assert!(db.interface_meta.iter().all(|m| m.name != "lo"));
    let names: Vec<String> = db.gateways.iter().map(|g| g.name.clone()).collect();
    let metas: Vec<(String, String, i64)> = db.interface_meta.iter().map(|m| (m.name.clone(), m.role.clone(), m.enabled)).collect();
    seed_gateways(&mut db);
    let names2: Vec<String> = db.gateways.iter().map(|g| g.name.clone()).collect();
    let metas2: Vec<(String, String, i64)> = db.interface_meta.iter().map(|m| (m.name.clone(), m.role.clone(), m.enabled)).collect();
    assert_eq!(names, names2);
    assert_eq!(metas, metas2);
}
