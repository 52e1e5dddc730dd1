use stellwerk::config::{DnsConfig, InfluxDbConfig};
use stellwerk::model::{Client, Gateway};
use stellwerk::nftables::{build_ruleset, collect_counters, ip_to_counter_name, CounterValue, RawCounter};
use stellwerk::traffic::{influx_write_url, traffic_influx_line, traffic_tick, traffic_tick_fits, TrafficState};

fn client(ip: &str, gateway: &str) -> Client {
    Client {
        ip: ip.to_string(),
        mac: None,
        hostname: None,
        label: None,
        group_name: None,
        gateway: gateway.to_string(),
        first_seen: 0,
        last_seen: 0,
        active: 1,
        ipv6: None,
        dns_ip: None,
        autofallback: 0,
        original_gateway: None,
        fallback_gateway: None,
    }
}

fn counters(base: &str, v: [u64; 4]) -> Vec<CounterValue> {
    let names = ["in_intern", "in_extern", "out_intern", "out_extern"];
    names
        .iter()
        .zip(v.iter())
        .map(|(n, b)| CounterValue { name: format!("{}_{}", base, n), bytes: *b, packets: 1 })
        .collect()
}

#[test]
fn counter_names_of_addresses() {
    assert_eq!(ip_to_counter_name("172.16.1.5"), "c_172_16_1_5");
    assert_eq!(ip_to_counter_name(""), "c_");
}

#[test]
fn ruleset_has_client_counters_and_masquerade() {
    let clients = vec![client("172.16.1.5", "vpnde")];
    let gateways = vec![Gateway {
        name: "vpnde".to_string(),
        table_name: "vpnde".to_string(),
        interface: "vpnde".to_string(),
        src_ip: None,
        description: None,
        mark: 220,
        dns_ip: None,
        device_name: None,
    }];
    let dns = DnsConfig::default();
    let text = build_ruleset(&clients, &gateways, &[], "gre_175", &dns);
    assert!(text.starts_with("table inet stellwerk {\n  counter c_172_16_1_5_in_intern {}\n"));
    assert!(text.contains("    oifname \"vpnde\" masquerade;"));
    assert!(text.contains("    ip saddr 172.16.1.5 ip daddr { 10.0.0.0/8, 172.16.0.0/12, 192.168.0.0/16 } counter name c_172_16_1_5_out_intern;"));
    assert!(text.ends_with("}"));
}

#[test]
fn counters_without_names_are_skipped() {
    let raw = vec![
        Some(RawCounter { name: Some("c_a_in_intern".to_string()), bytes: Some(5), packets: None }),
        None,
        Some(RawCounter { name: None, bytes: Some(7), packets: Some(1) }),
    ];
    let c = collect_counters(&raw);
    assert_eq!(c.len(), 1);
    assert_eq!((c[0].name.as_str(), c[0].bytes, c[0].packets), ("c_a_in_intern", 5, 0));
}

#[test]
fn traffic_first_reading_then_deltas_and_reset() {
    let clients = vec![client("172.16.1.5", "vpnde")];
    let mut st = TrafficState::new();
    let c1 = counters("c_172_16_1_5", [100, 200, 10, 20]);
    assert!(traffic_tick_fits(&st, &c1, &clients));
    let t1 = traffic_tick(&mut st, &c1, &clients, 5, true);
    assert!(t1.deltas.is_empty());
    assert!(t1.influx_lines.is_empty());

    let c2 = counters("c_172_16_1_5", [150, 260, 10, 20]);
    assert!(traffic_tick_fits(&st, &c2, &clients));
    let t2 = traffic_tick(&mut st, &c2, &clients, 6, true);
    assert_eq!(t2.deltas.len(), 1);
    let d = &t2.deltas[0];
    assert_eq!((d.bytes_in, d.bytes_out, d.bytes_in_intern, d.bytes_out_intern), (110, 0, 50, 0));
    assert_eq!(
        t2.influx_lines,
        vec!["stellwerk_traffic,client=172_16_1_5,gateway=vpnde bytes_in=110i,bytes_out=0i,bytes_in_intern=50i,bytes_out_intern=0i 6".to_string()]
    );

    let c3 = counters("c_172_16_1_5", [20, 260, 10, 25]);
    let t3 = traffic_tick(&mut st, &c3, &clients, 7, false);
    let d = &t3.deltas[0];
    assert_eq!((d.bytes_in, d.bytes_out, d.bytes_in_intern, d.bytes_out_intern), (20, 5, 20, 0));
    assert!(t3.influx_lines.is_empty());

    let t4 = traffic_tick(&mut st, &c3, &clients, 8, false);
    assert!(t4.deltas.is_empty());
}

#[test]
fn traffic_cleanup_every_168_rounds() {
    let mut st = TrafficState::new();
    let mut cleanups = 0;
    for round in 0..336 {
        let t = traffic_tick(&mut st, &[], &[], round, false);
        if t.cleanup {
            cleanups += 1;
        }
    }
    assert_eq!(cleanups, 2);
}

#[test]
fn influx_line_and_url() {
    assert_eq!(
        traffic_influx_line(&"10.0.0.1".to_string(), &"gw".to_string(), 1, 2, 3, 4, -5),
        "stellwerk_traffic,client=10_0_0_1,gateway=gw bytes_in=1i,bytes_out=2i,bytes_in_intern=3i,bytes_out_intern=4i -5"
    );
    let cfg = InfluxDbConfig { url: "http://influx:8086//".to_string(), token: "t".to_string(), bucket: "net".to_string(), org: "home".to_string(), enabled: true };
    assert_eq!(influx_write_url(&cfg), "http://influx:8086/api/v2/write?org=home&bucket=net&precision=ns");
}

#[test]
fn accounting_reads_the_declared_counters() {
    let mut off = client("172.16.3.9", "gre_175");
    off.active = 0;
    let clients = vec![client("172.16.3.10", "gre_175"), off];
    let text = build_ruleset(&clients, &[], &[], "gre_175", &DnsConfig::default());
    for suffix in ["in_intern", "in_extern", "out_intern", "out_extern"] {
        let line = format!("  counter {}_{} {{}}", ip_to_counter_name("172.16.3.10"), suffix);
        assert!(text.lines().any(|l| l == line), "{}", line);
        assert!(!text.contains(&format!("counter c_172_16_3_9_{} ", suffix)));
    }
    // The same names, read back, give the client's traffic.
    let mut st = TrafficState::new();
    let base = ip_to_counter_name("172.16.3.10");
    traffic_tick(&mut st, &counters(&base, [1, 1, 1, 1]), &clients, 1, false);
    let t = traffic_tick(&mut st, &counters(&base, [3, 5, 2, 9]), &clients, 2, false);
    assert_eq!(t.deltas.len(), 1);
    assert_eq!((t.deltas[0].bytes_in, t.deltas[0].bytes_out), (6, 9));
}

#[test]
fn counters_are_read_from_nft_json() {
    let text = r#"{"nftables": [{"metainfo": {"version": "1.0.6"}}, {"table": {"family": "inet", "name": "stellwerk"}},
        {"counter": {"family": "inet", "name": "c_172_16_1_5_in_intern", "table": "stellwerk", "packets": 3, "bytes": 240}},
        {"counter": {"family": "inet", "name": "c_172_16_1_5_out_extern", "table": "stellwerk", "packets": 1}},
        {"counter": {"family": "inet", "table": "stellwerk", "packets": 1, "bytes": 9}}]}"#;
    let c = stellwerk::nftables::counters_from_listing(text).unwrap();
    let got: Vec<(String, u64, u64)> = c.into_iter().map(|x| (x.name, x.bytes, x.packets)).collect();
    assert_eq!(
        got,
        vec![("c_172_16_1_5_in_intern".to_string(), 240, 3), ("c_172_16_1_5_out_extern".to_string(), 0, 1)]
    );
    assert!(stellwerk::nftables::counters_from_listing("not json").is_none());
    assert_eq!(stellwerk::nftables::counters_from_listing("{}").unwrap().len(), 0);
}

#[test]
fn every_counter_rule_uses_a_declared_counter() {
    let mut off = client("172.16.3.9", "gre_175");
    off.active = 0;
    let clients = vec![client("172.16.3.10", "gre_175"), off, client("172.16.3.11", "vpnde")];
    let text = build_ruleset(&clients, &[], &[], "gre_175", &DnsConfig::default());
    let lines: Vec<&str> = text.lines().collect();
    let first_chain = lines.iter().position(|l| l.starts_with("  chain ")).unwrap();
    let mut uses = 0;
    for l in &lines {
        if let Some(pos) = l.find(" counter name ") {
            let name = &l[pos + " counter name ".len()..l.len() - 1];
            let decl = format!("  counter {} {{}}", name);
            let at = lines.iter().position(|d| *d == decl).unwrap();
            assert!(at < first_chain);
            uses += 1;
        }
    }
    assert_eq!(uses, 8);
    assert!(lines[1..first_chain].iter().all(|l| l.starts_with("  counter ")));
}
