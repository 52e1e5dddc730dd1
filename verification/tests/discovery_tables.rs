use stellwerk::discovery::{
    hostname_from_getent, merge_hosts, parse_arp_table, parse_ipv4, parse_ndp_table, sort_hosts, DiscoveredHost,
};
use stellwerk::nftables::ip_to_subnet_cidr;

fn host(ip: &str, mac: Option<&str>) -> DiscoveredHost {
    DiscoveredHost { ip: ip.to_string(), mac: mac.map(|m| m.to_string()), hostname: None }
}

#[test]
fn ipv4_addresses_parse_like_std() {
    assert_eq!(parse_ipv4("172.16.1.5"), Some((172u64 << 24) | (16 << 16) | (1 << 8) | 5));
    assert_eq!(parse_ipv4("0.0.0.0"), Some(0));
    assert_eq!(parse_ipv4("255.255.255.255"), Some(0xffff_ffff));
    assert_eq!(parse_ipv4("256.1.1.1"), None);
    assert_eq!(parse_ipv4("01.1.1.1"), None);
    assert_eq!(parse_ipv4("1.1.1"), None);
    assert_eq!(parse_ipv4("1.1.1.1.1"), None);
    assert_eq!(parse_ipv4("+1.1.1.1"), None);
    assert_eq!(parse_ipv4("fe80::1"), None);
    assert_eq!(parse_ipv4("10.0.0.255"), Some(0x0a00_00ff));
    assert_eq!(parse_ipv4("1..2.3"), None);
    assert_eq!(parse_ipv4(""), None);
    assert_eq!(parse_ipv4("1.2.3.4 "), None);
    assert_eq!(parse_ipv4("1.2.3.1000"), None);
}

#[test]
fn arp_table_hosts() {
    let out = "172.16.1.65 dev enp3s0 lladdr 3c:61:05:d1:6e:ec STALE\n172.16.1.66 dev enp3s0  FAILED\nfe80::1 dev enp3s0 lladdr aa:bb:cc:dd:ee:ff router REACHABLE\n172.16.1.67 dev enp3s0 lladdr AA:BB:cc:00:11:22 REACHABLE\n10.0.0.1 dev x\n";
    let hosts = parse_arp_table(out);
    let got: Vec<(String, Option<String>, Option<String>)> = hosts.into_iter().map(|h| (h.ip, h.mac, h.hostname)).collect();
    assert_eq!(
        got,
        vec![
            ("172.16.1.65".to_string(), Some("3c:61:05:d1:6e:ec".to_string()), None),
            ("172.16.1.67".to_string(), Some("AA:BB:cc:00:11:22".to_string()), None),
        ]
    );
}

#[test]
fn ndp_table_first_address_per_mac() {
    let out = "2a02:8108::1 dev enp3s0 lladdr 3C:61:05:D1:6E:EC STALE\nfe80::2 dev enp3s0 lladdr 3c:61:05:d1:6e:ec STALE\n2a02:8108::2 dev enp3s0 lladdr 3c:61:05:d1:6e:ec REACHABLE\nfd00::5 dev enp3s0 lladdr 00:11:22:33:44:55 DELAY\nfd00::6 dev enp3s0 FAILED x\n";
    assert_eq!(
        parse_ndp_table(out),
        vec![
            ("3c:61:05:d1:6e:ec".to_string(), "2a02:8108::1".to_string()),
            ("00:11:22:33:44:55".to_string(), "fd00::5".to_string()),
        ]
    );
}

#[test]
fn reverse_lookup_names() {
    assert_eq!(hostname_from_getent("172.16.1.5      laptop.lan laptop\n", "172.16.1.5"), Some("laptop.lan".to_string()));
    assert_eq!(hostname_from_getent("172.16.1.5 172.16.1.5\n", "172.16.1.5"), None);
    assert_eq!(hostname_from_getent("", "172.16.1.5"), None);
}

#[test]
fn sweeps_merge_first_wins_and_sort_by_address() {
    let mut seen: Vec<DiscoveredHost> = Vec::new();
    merge_hosts(&mut seen, vec![host("172.16.1.10", Some("a")), host("172.16.1.9", Some("b"))]);
    merge_hosts(&mut seen, vec![host("172.16.1.10", Some("c")), host("172.16.2.1", None), host("bogus", None)]);
    assert_eq!(seen.len(), 4);
    assert_eq!(seen[0].mac, Some("a".to_string()));
    let sorted = sort_hosts(seen);
    let ips: Vec<&str> = sorted.iter().map(|h| h.ip.as_str()).collect();
    assert_eq!(ips, vec!["bogus", "172.16.1.9", "172.16.1.10", "172.16.2.1"]);
}

#[test]
fn subnet_of_client_address() {
    assert_eq!(ip_to_subnet_cidr("172.16.1.5"), Some("172.16.1.0/24".to_string()));
    assert_eq!(ip_to_subnet_cidr("172.16.1"), None);
    assert_eq!(ip_to_subnet_cidr("a.b.c.d"), Some("a.b.c.0/24".to_string()));
}
