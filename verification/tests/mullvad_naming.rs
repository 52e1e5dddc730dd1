use stellwerk::mullvad::{
    countries_from_locations, country_code_of, country_default_route_args, default_route_args,
    generate_wg_config, interface_name, is_mullvad_interface, next_free_mark, next_free_table_number,
    relays_for_country, rt_tables_with, rt_tables_without, trim_prefix_repeated, MullvadRelay, RelayEntry,
};

fn entry(host: &str, loc: &str, active: bool, weight: u32) -> RelayEntry {
    RelayEntry {
        hostname: host.to_string(),
        location: loc.to_string(),
        ipv4_addr_in: format!("{}.ip", host),
        public_key: format!("{}-key", host),
        active,
        weight,
    }
}

#[test]
fn interface_names_of_countries() {
    assert_eq!(interface_name("de"), "mude");
    assert_eq!(interface_name(""), "mu");
    let wg: Vec<String> = ["mude", "muUS", "mu", "mu1", "vpnde", "mude0", "mü", "wg0"].iter().map(|s| s.to_string()).collect();
    assert!(is_mullvad_interface("mude", &wg));
    assert!(is_mullvad_interface("muUS", &wg));
    assert!(!is_mullvad_interface("mu", &wg));
    assert!(!is_mullvad_interface("mu1", &wg));
    assert!(!is_mullvad_interface("vpnde", &wg));
    assert!(!is_mullvad_interface("mude0", &wg));
    assert!(!is_mullvad_interface("mü", &wg));
    // A name of that form that is no WireGuard interface is no tunnel.
    assert!(!is_mullvad_interface("mufoo", &wg));
    assert!(!is_mullvad_interface("mude", &vec![]));
}

#[test]
fn country_code_round_trip() {
    assert_eq!(country_code_of(&interface_name("se")), "se");
    assert_eq!(country_code_of("mude"), "de");
    assert_eq!(country_code_of("mumude"), "de");
    assert_eq!(trim_prefix_repeated("ababc", "ab"), "c");
    assert_eq!(trim_prefix_repeated("abc", ""), "abc");
}

#[test]
fn default_routes_of_tunnels() {
    assert_eq!(default_route_args("wg0", "wg0"), vec!["route", "replace", "default", "dev", "wg0", "table", "wg0"]);
    assert_eq!(country_default_route_args("ch"), vec!["route", "replace", "default", "dev", "much", "table", "much"]);
}

#[test]
fn wireguard_config_text() {
    let relay = MullvadRelay {
        hostname: "de-fra-wg-001".to_string(),
        ipv4_addr_in: "185.1.2.3".to_string(),
        public_key: "PUB".to_string(),
        weight: 100,
    };
    assert_eq!(
        generate_wg_config("PRIV", "10.64.1.2/32", &relay),
        "[Interface]\nPrivateKey = PRIV\nAddress = 10.64.1.2/32\nTable = off\n\n[Peer]\nPublicKey = PUB\nEndpoint = 185.1.2.3:51820\nAllowedIPs = 0.0.0.0/0\nPersistentKeepalive = 25\n"
    );
}

#[test]
fn relays_are_filtered_and_weighted() {
    let list = vec![
        entry("de1", "de-fra", true, 100),
        entry("de2", "de-ber", false, 900),
        entry("se1", "se-sto", true, 500),
        entry("de3", "de-ber", true, 300),
        entry("de4", "de-fra", true, 100),
        entry("dex", "dex-abc", true, 999),
    ];
    let r = relays_for_country(&list, "de");
    let hosts: Vec<&str> = r.iter().map(|x| x.hostname.as_str()).collect();
    assert_eq!(hosts, vec!["de3", "de1", "de4"]);
    assert_eq!(r[0].weight, 300);
    assert_eq!(r[0].public_key, "de3-key");
    assert!(relays_for_country(&list, "us").is_empty());
}

#[test]
fn countries_are_deduplicated_and_sorted() {
    let locs = vec![
        ("se-sto".to_string(), "Sweden".to_string()),
        ("de-fra".to_string(), "Germany".to_string()),
        ("de-ber".to_string(), "Deutschland".to_string()),
        ("-x".to_string(), "Nowhere".to_string()),
        ("at-vie".to_string(), "Austria".to_string()),
    ];
    let cs = countries_from_locations(&locs);
    let got: Vec<(String, String)> = cs.into_iter().map(|c| (c.code, c.name)).collect();
    assert_eq!(
        got,
        vec![
            ("at".to_string(), "Austria".to_string()),
            ("de".to_string(), "Germany".to_string()),
            ("se".to_string(), "Sweden".to_string()),
        ]
    );
}

#[test]
fn rt_tables_entries() {
    let content = "# reserved\n255\tlocal\n212 nointernet\n220\tmude\n";
    assert_eq!(rt_tables_without(content, "mude"), "# reserved\n255\tlocal\n212 nointernet\n");
    assert_eq!(rt_tables_with(content, "mude", 221), "# reserved\n255\tlocal\n212 nointernet\n221\tmude\n");
    assert_eq!(rt_tables_with("", "wg0", 220), "220\twg0\n");
    let added = rt_tables_with(content, "wg1", 222);
    assert_eq!(rt_tables_without(&added, "wg1"), rt_tables_without(content, "wg1"));
}

#[test]
fn free_table_numbers() {
    assert_eq!(next_free_table_number(""), 220);
    assert_eq!(next_free_table_number("220 a\n221\tb\n# 222 c\n  223 d\n"), 222);
    let mut all = String::new();
    for n in 220..300 {
        all.push_str(&format!("{} t{}\n", n, n));
    }
    assert_eq!(next_free_table_number(&all), 300);
    assert_eq!(next_free_table_number("220 a\n4294967295 b\n99999999999 c\n"), 221);
}

#[test]
fn free_marks() {
    assert_eq!(next_free_mark(&vec![]), 220);
    assert_eq!(next_free_mark(&vec![175, 220, 221, 100]), 222);
    let all: Vec<i64> = (220..300).collect();
    assert_eq!(next_free_mark(&all), 250);
}
