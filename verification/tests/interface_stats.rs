use stellwerk::clock::interface_lines_now;
use stellwerk::interfaces::{interface_lines, interface_names, interface_overview, parse_proc_net_dev};
use stellwerk::model::{Gateway, InterfaceMeta};

const DEV: &str = "Inter-|   Receive                                                |  Transmit\n face |bytes    packets errs drop fifo frame compressed multicast|bytes    packets errs drop fifo colls carrier compressed\n    lo: 1000 10 0 0 0 0 0 0 1000 10 0 0 0 0 0 0\n  eth0: 5000 50 1 2 0 0 0 0 7000 70 3 4 0 0 0 0\n  wg0: 1 2 3\n";

const DEV2: &str = "Inter-|   Receive                                                |  Transmit\n face |bytes    packets errs drop fifo frame compressed multicast|bytes    packets errs drop fifo colls carrier compressed\n    lo: 1000 10 0 0 0 0 0 0 1000 10 0 0 0 0 0 0\n  eth0: 6000 55 1 2 0 0 0 0 6500 72 3 5 0 0 0 0\n";

#[test]
fn proc_net_dev_counters() {
    let stats = parse_proc_net_dev(DEV);
    assert_eq!(stats.len(), 1);
    assert_eq!(stats[0].name, "eth0");
    let c = stats[0].counters;
    assert_eq!((c.rx_bytes, c.rx_packets, c.rx_errors, c.rx_drops), (5000, 50, 1, 2));
    assert_eq!((c.tx_bytes, c.tx_packets, c.tx_errors, c.tx_drops), (7000, 70, 3, 4));
}

#[test]
fn interface_deltas_saturate() {
    let prev = parse_proc_net_dev(DEV);
    let cur = parse_proc_net_dev(DEV2);
    assert!(interface_lines(&vec![], &cur, 9).is_empty());
    assert_eq!(
        interface_lines(&prev, &cur, 9),
        vec!["stellwerk_interfaces,iface=eth0 rx_bytes=1000i,tx_bytes=0i,rx_packets=5i,tx_packets=2i,rx_errors=0i,tx_errors=0i,rx_drops=0i,tx_drops=1i 9".to_string()]
    );
    let (lines, now) = interface_lines_now(&prev, &cur);
    assert!(now > 1_600_000_000_000_000_000);
    assert!(lines[0].ends_with(&format!(" {}", now)));
}

#[test]
fn interface_names_without_loopback() {
    assert_eq!(interface_names(DEV), vec!["eth0".to_string(), "wg0".to_string()]);
}

#[test]
fn interface_overview_merges_metadata() {
    let names = vec!["eth0".to_string(), "gre_fiber".to_string()];
    let meta = vec![InterfaceMeta { name: "eth0".to_string(), role: "intern".to_string(), enabled: 0 }];
    let gws = vec![
        Gateway { name: "gre_175".to_string(), table_name: "gre_175".to_string(), interface: "gre_fiber".to_string(), src_ip: None, description: None, mark: 175, dns_ip: None, device_name: None },
        Gateway { name: "gre_214".to_string(), table_name: "gre_214".to_string(), interface: "gre_fiber".to_string(), src_ip: None, description: None, mark: 214, dns_ip: None, device_name: None },
    ];
    let o = interface_overview(&names, &meta, &gws);
    assert_eq!((o[0].role.as_str(), o[0].enabled, o[0].gateways.len()), ("intern", 0, 0));
    assert_eq!((o[1].role.as_str(), o[1].enabled), ("extern", 1));
    assert_eq!(o[1].gateways, vec!["gre_175".to_string(), "gre_214".to_string()]);
}
