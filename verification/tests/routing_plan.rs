use stellwerk::config::DnsConfig;
use stellwerk::model::{Client, Gateway, NetworkConfig};
use stellwerk::routing::{flush_commands, is_private_route, lan_route_commands, parse_local_ips, routing_plan};

fn client(ip: &str, gateway: &str, active: i64) -> Client {
    Client {
        ip: ip.to_string(),
        mac: None,
        hostname: None,
        label: None,
        group_name: None,
        gateway: gateway.to_string(),
        first_seen: 0,
        last_seen: 0,
        active,
        ipv6: None,
        dns_ip: None,
        autofallback: 0,
        original_gateway: None,
        fallback_gateway: None,
    }
}

fn gateway(name: &str, table: &str, iface: &str, mark: i64) -> Gateway {
    Gateway {
        name: name.to_string(),
        table_name: table.to_string(),
        interface: iface.to_string(),
        src_ip: None,
        description: None,
        mark,
        dns_ip: None,
        device_name: None,
    }
}

fn args(v: &[&str]) -> Vec<String> {
    v.iter().map(|s| s.to_string()).collect()
}

#[test]
fn private_routes_are_recognised() {
    assert!(is_private_route("10.0.0.0/8 dev eth0 proto kernel"));
    assert!(is_private_route("192.168.1.0/24 dev br0"));
    assert!(is_private_route("172.16.0.0/12 via 172.16.3.1 dev eth1"));
    assert!(is_private_route("172.31.5.0/24 dev eth1"));
    assert!(!is_private_route("172.32.0.0/16 dev eth1"));
    assert!(!is_private_route("172.15.0.0/16 dev eth1"));
    assert!(!is_private_route("172.abc dev eth1"));
    assert!(!is_private_route("8.8.8.8 via 1.2.3.4"));
    assert!(!is_private_route(""));
    assert!(!is_private_route("   "));
}

#[test]
fn lan_routes_are_copied_into_a_table() {
    let out = "default via 92.1.1.1 dev ppp0\n172.16.1.0/24 dev enp3s0 proto kernel scope link src 172.16.1.1\n5.230.119.0/24 dev gre_fiber\n10.8.0.0/16 via 172.16.1.2 dev enp3s0\n";
    let cmds = lan_route_commands(out, "vpnde");
    assert_eq!(
        cmds,
        vec![
            args(&["route", "add", "172.16.1.0/24", "dev", "enp3s0", "proto", "kernel", "scope", "link", "src", "172.16.1.1", "table", "vpnde"]),
            args(&["route", "add", "10.8.0.0/16", "via", "172.16.1.2", "dev", "enp3s0", "table", "vpnde"]),
        ]
    );
}

#[test]
fn flush_deletes_only_managed_priorities() {
    let out = "0:\tfrom all lookup local\n50:\tfrom all fwmark 0x53 lookup vpnde\n999:\tfrom 172.16.1.1/32 lookup main\n1000:\tfrom 172.16.1.5 lookup gre_175\n1999:\tfrom 172.16.0.0/12 lookup gre_175\n2000:\tfrom all lookup x\n32766:\tfrom all lookup main\n";
    assert_eq!(
        flush_commands(out, false),
        vec![
            args(&["rule", "del", "priority", "50"]),
            args(&["rule", "del", "priority", "999"]),
            args(&["rule", "del", "priority", "1000"]),
            args(&["rule", "del", "priority", "1999"]),
        ]
    );
    assert_eq!(flush_commands("49: x\n1500: y\n", true), vec![args(&["-6", "rule", "del", "priority", "1500"])]);
    assert!(flush_commands("", false).is_empty());
}

#[test]
fn local_addresses_skip_loopback() {
    let out = "1: lo: <LOOPBACK>\n    inet 127.0.0.1/8 scope host lo\n2: eth0: <UP>\n    inet 172.16.1.1/24 brd 172.16.1.255 scope global eth0\n    inet6 fe80::1/64 scope link\n    inet 10.0.0.1/8 scope global eth1\n";
    assert_eq!(parse_local_ips(out), vec!["172.16.1.1".to_string(), "10.0.0.1".to_string()]);
}

#[test]
fn routing_plan_orders_the_rules() {
    let clients = vec![client("172.16.1.5", "vpnde", 1), client("172.16.1.6", "gre_175", 0), client("172.16.1.7", "unknown", 1)];
    let gateways = vec![
        gateway("gre_175", "gre_175", "gre_fiber", 175),
        gateway("mude", "mude", "mude", 221),
        gateway("ppp0", "main", "ppp0", 100),
        gateway("vpnde", "vpnde", "vpnde", 220),
    ];
    let networks = vec![
        NetworkConfig { subnet: "172.16.2.0/24".to_string(), default_gateway: "vpnde".to_string(), internal_only: 0, gateway_only: 0, dns_ip: None },
        NetworkConfig { subnet: "172.16.9.0/24".to_string(), default_gateway: "vpnde".to_string(), internal_only: 1, gateway_only: 0, dns_ip: None },
        NetworkConfig { subnet: "172.16.8.0/24".to_string(), default_gateway: "nowhere".to_string(), internal_only: 0, gateway_only: 0, dns_ip: None },
    ];
    let dns = DnsConfig { gateway: Some("vpnde".to_string()), ..DnsConfig::default() };
    let plan = routing_plan(&clients, &gateways, &networks, &"gre_175".to_string(), &dns.gateway, &vec!["172.16.1.1".to_string()], &vec!["mude".to_string()]);
    assert_eq!(
        plan.rules,
        vec![
            args(&["rule", "add", "fwmark", "0x53", "lookup", "vpnde", "priority", "50"]),
            args(&["-6", "rule", "add", "fwmark", "0x53", "lookup", "vpnde", "priority", "50"]),
            args(&["rule", "add", "from", "172.16.1.5", "lookup", "vpnde", "priority", "1000"]),
            args(&["rule", "add", "from", "172.16.1.1/32", "lookup", "main", "priority", "999"]),
            args(&["rule", "add", "from", "172.16.0.0/12", "lookup", "gre_175", "priority", "1999"]),
            args(&["rule", "add", "from", "172.16.2.0/24", "lookup", "vpnde", "priority", "1500"]),
            args(&["rule", "add", "from", "172.16.9.0/24", "lookup", "nointernet", "priority", "1500"]),
        ]
    );
    let tables: Vec<(String, Option<Vec<String>>)> = plan.tables.into_iter().map(|t| (t.table, t.default_route)).collect();
    assert_eq!(
        tables,
        vec![
            ("gre_175".to_string(), None),
            ("mude".to_string(), Some(args(&["route", "replace", "default", "dev", "mude", "table", "mude"]))),
            ("vpnde".to_string(), None),
        ]
    );
    assert_eq!(plan.blackhole, args(&["route", "replace", "blackhole", "default", "table", "nointernet"]));
}

#[test]
fn routing_plan_without_dns_gateway_or_default() {
    let plan = routing_plan(&[], &[], &[], &"gre_175".to_string(), &None, &vec![], &vec![]);
    assert!(plan.rules.is_empty());
    assert!(plan.tables.is_empty());
}

#[test]
fn clients_on_the_default_gateway_get_no_client_rule() {
    let clients = vec![client("172.16.1.5", "gre_175", 1), client("172.16.1.6", "vpnde", 1)];
    let gateways = vec![gateway("gre_175", "gre_175", "gre_fiber", 175), gateway("vpnde", "vpnde", "vpnde", 220)];
    let plan = routing_plan(&clients, &gateways, &[], &"gre_175".to_string(), &None, &vec![], &vec![]);
    assert_eq!(
        plan.rules,
        vec![
            args(&["rule", "add", "from", "172.16.1.6", "lookup", "vpnde", "priority", "1000"]),
            args(&["rule", "add", "from", "172.16.0.0/12", "lookup", "gre_175", "priority", "1999"]),
        ]
    );
}
