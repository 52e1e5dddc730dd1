//! Configuration of the daemon, with the defaults that apply to every
//! section that the configuration file leaves out.

use vstd::prelude::*;

verus! {

/// Where the SQLite database lives.
#[derive(Debug, Clone)]
pub struct DbConfig {
    pub path: String,
}

impl DbConfig {
    /// The default database settings.
    pub open spec fn is_default(&self) -> bool {
        self.path@ == "/var/lib/stellwerk/stellwerk.db"@
    }
}

impl Default for DbConfig {
    fn default() -> (r: Self)
        ensures
            r.is_default(),
    {
        DbConfig { path: String::from_str("/var/lib/stellwerk/stellwerk.db") }
    }
}

/// Listen addresses of the HTTP API.
#[derive(Debug, Clone)]
pub struct ApiConfig {
    pub listen: String,
    /// Optional second plain-HTTP listener, e.g. for kiosk access in the LAN.
    pub listen_http: Option<String>,
}

impl ApiConfig {
    /// The default API settings.
    pub open spec fn is_default(&self) -> bool {
        self.listen@ == "0.0.0.0:1443"@ && self.listen_http is None
    }
}

impl Default for ApiConfig {
    fn default() -> (r: Self)
        ensures
            r.is_default(),
    {
        ApiConfig { listen: String::from_str("0.0.0.0:1443"), listen_http: None }
    }
}

/// TLS certificate settings.
#[derive(Debug, Clone)]
pub struct TlsConfig {
    pub enabled: bool,
    pub cert: String,
    pub key: String,
}

impl TlsConfig {
    /// The default TLS settings.
    pub open spec fn is_default(&self) -> bool {
        &&& !self.enabled
        &&& self.cert@ == "/etc/certs/tatooine.cc/fullchain.cer"@
        &&& self.key@ == "/etc/certs/tatooine.cc/*.tatooine.cc.key"@
    }
}

impl Default for TlsConfig {
    fn default() -> (r: Self)
        ensures
            r.is_default(),
    {
        TlsConfig {
            enabled: false,
            cert: String::from_str("/etc/certs/tatooine.cc/fullchain.cer"),
            key: String::from_str("/etc/certs/tatooine.cc/*.tatooine.cc.key"),
        }
    }
}

/// Login settings of the web UI.
#[derive(Debug, Clone)]
pub struct AuthConfig {
    pub enabled: bool,
    pub username: String,
    /// SHA-256 of the password, lower-case hex.
    pub password_hash: String,
    /// Read-only account; empty disables it.
    pub viewer_username: String,
    pub viewer_password_hash: String,
    /// Fixed token for password-less kiosk start.
    pub kiosk_token: String,
}

impl AuthConfig {
    /// The default login settings.
    pub open spec fn is_default(&self) -> bool {
        &&& !self.enabled
        &&& self.username@ == "admin"@
        &&& self.password_hash@ == Seq::<char>::empty()
        &&& self.viewer_username@ == Seq::<char>::empty()
        &&& self.viewer_password_hash@ == Seq::<char>::empty()
        &&& self.kiosk_token@ == Seq::<char>::empty()
    }
}

impl Default for AuthConfig {
    fn default() -> (r: Self)
        ensures
            r.is_default(),
    {
        AuthConfig {
            enabled: false,
            username: String::from_str("admin"),
            password_hash: String::new(),
            viewer_username: String::new(),
            viewer_password_hash: String::new(),
            kiosk_token: String::new(),
        }
    }
}

/// Uplink monitoring settings.
#[derive(Debug, Clone)]
pub struct MonitoringConfig {
    pub check_interval_secs: u64,
    pub ppp0_check_host: String,
    pub gre_check_host: String,
    /// On GRE failure, point the default route of the GRE tables at ppp0.
    pub gre_failover_enabled: bool,
    /// The interface that counts as GRE.
    pub gre_interface: String,
    /// Next hop of the GRE default route.
    pub gre_nexthop: String,
}

impl MonitoringConfig {
    /// The interface that counts as GRE when the file names none.
    pub fn default_gre_interface() -> (r: String)
        ensures
            r@ == "gre_fiber"@,
    {
        String::from_str("gre_fiber")
    }

    /// The GRE next hop when the file names none.
    pub fn default_gre_nexthop() -> (r: String)
        ensures
            r@ == "172.16.10.1"@,
    {
        String::from_str("172.16.10.1")
    }

    /// The default monitoring settings.
    pub open spec fn is_default(&self) -> bool {
        &&& self.check_interval_secs == 30
        &&& self.ppp0_check_host@ == "8.8.8.8"@
        &&& self.gre_check_host@ == "1.1.1.1"@
        &&& !self.gre_failover_enabled
        &&& self.gre_interface@ == "gre_fiber"@
        &&& self.gre_nexthop@ == "172.16.10.1"@
    }
}

impl Default for MonitoringConfig {
    fn default() -> (r: Self)
        ensures
            r.is_default(),
    {
        MonitoringConfig {
            check_interval_secs: 30,
            ppp0_check_host: String::from_str("8.8.8.8"),
            gre_check_host: String::from_str("1.1.1.1"),
            gre_failover_enabled: false,
            gre_interface: String::from_str("gre_fiber"),
            gre_nexthop: String::from_str("172.16.10.1"),
        }
    }
}

/// HomeAssistant access for switching the Starlink modem.
#[derive(Debug, Clone)]
pub struct HomeAssistantConfig {
    pub url: String,
    pub token: String,
    pub starlink_entity: String,
    pub enabled: bool,
}

impl HomeAssistantConfig {
    /// The default HomeAssistant settings.
    pub open spec fn is_default(&self) -> bool {
        &&& self.url@ == "http://homeassistant.local:8123"@
        &&& self.token@ == Seq::<char>::empty()
        &&& self.starlink_entity@ == "switch.starlink_modem"@
        &&& !self.enabled
    }
}

impl Default for HomeAssistantConfig {
    fn default() -> (r: Self)
        ensures
            r.is_default(),
    {
        HomeAssistantConfig {
            url: String::from_str("http://homeassistant.local:8123"),
            token: String::new(),
            starlink_entity: String::from_str("switch.starlink_modem"),
            enabled: false,
        }
    }
}

/// InfluxDB v2 metrics backend.
#[derive(Debug, Clone)]
pub struct InfluxDbConfig {
    pub url: String,
    pub token: String,
    pub bucket: String,
    pub org: String,
    pub enabled: bool,
}

impl InfluxDbConfig {
    /// The default InfluxDB settings.
    pub open spec fn is_default(&self) -> bool {
        &&& self.url@ == "http://localhost:8086"@
        &&& self.token@ == Seq::<char>::empty()
        &&& self.bucket@ == "network"@
        &&& self.org@ == "home"@
        &&& !self.enabled
    }
}

impl Default for InfluxDbConfig {
    fn default() -> (r: Self)
        ensures
            r.is_default(),
    {
        InfluxDbConfig {
            url: String::from_str("http://localhost:8086"),
            token: String::new(),
            bucket: String::from_str("network"),
            org: String::from_str("home"),
            enabled: false,
        }
    }
}

/// Subnets that discovery sweeps.
#[derive(Debug, Clone)]
pub struct NetworksConfig {
    pub scan_subnets: Vec<String>,
    pub scan_interval_secs: u64,
}

/// The subnets swept when the file names none.
pub open spec fn default_scan_subnets() -> Seq<Seq<char>> {
    seq![
        "172.16.0.0/22"@,
        "172.16.4.0/24"@,
        "172.16.5.0/24"@,
        "172.16.8.0/24"@,
        "172.16.9.0/24"@,
        "172.16.10.0/24"@,
        "172.16.11.0/24"@,
    ]
}

impl NetworksConfig {
    /// The default discovery settings.
    pub open spec fn is_default(&self) -> bool {
        &&& self.scan_interval_secs == 300
        &&& self.scan_subnets@.len() == 7
        &&& forall|i: int|
            0 <= i < 7 ==> #[trigger] self.scan_subnets@[i]@ == default_scan_subnets()[i]
    }
}

impl Default for NetworksConfig {
    fn default() -> (r: Self)
        ensures
            r.is_default(),
    {
        let mut v: Vec<String> = Vec::new();
        v.push(String::from_str("172.16.0.0/22"));
        v.push(String::from_str("172.16.4.0/24"));
        v.push(String::from_str("172.16.5.0/24"));
        v.push(String::from_str("172.16.8.0/24"));
        v.push(String::from_str("172.16.9.0/24"));
        v.push(String::from_str("172.16.10.0/24"));
        v.push(String::from_str("172.16.11.0/24"));
        NetworksConfig { scan_subnets: v, scan_interval_secs: 300 }
    }
}

/// Defaults for newly discovered clients.
#[derive(Debug, Clone)]
pub struct DefaultsConfig {
    pub gateway: String,
}

impl DefaultsConfig {
    /// The default client settings.
    pub open spec fn is_default(&self) -> bool {
        self.gateway@ == "gre_175"@
    }
}

impl Default for DefaultsConfig {
    fn default() -> (r: Self)
        ensures
            r.is_default(),
    {
        DefaultsConfig { gateway: String::from_str("gre_175") }
    }
}

/// DNS leak protection settings.
#[derive(Debug, Clone)]
pub struct DnsConfig {
    /// Gateway for the upstream queries of Unbound; `None` disables DNS routing.
    pub gateway: Option<String>,
    /// The Linux user that Unbound runs as.
    pub unbound_user: String,
    /// DNS server per gateway (gateway name, server address).
    pub gateway_dns: Vec<(String, String)>,
    /// Named DNS servers offered by the UI (name, address).
    pub servers: Vec<(String, String)>,
}

impl DnsConfig {
    /// The Unbound user when the file names none.
    pub fn default_user() -> (r: String)
        ensures
            r@ == "unbound"@,
    {
        String::from_str("unbound")
    }

    /// The default DNS settings.
    pub open spec fn is_default(&self) -> bool {
        &&& self.gateway is None
        &&& self.unbound_user@ == "unbound"@
        &&& self.gateway_dns@.len() == 0
        &&& self.servers@.len() == 0
    }
}

impl Default for DnsConfig {
    fn default() -> (r: Self)
        ensures
            r.is_default(),
    {
        DnsConfig {
            gateway: None,
            unbound_user: String::from_str("unbound"),
            gateway_dns: Vec::new(),
            servers: Vec::new(),
        }
    }
}

/// Mullvad account.
#[derive(Debug, Clone)]
pub struct MullvadConfig {
    /// The 16-digit account number.
    pub account: String,
}

impl Default for MullvadConfig {
    fn default() -> (r: Self)
        ensures
            r.account@ == Seq::<char>::empty(),
    {
        MullvadConfig { account: String::new() }
    }
}

/// The whole configuration file.
#[derive(Debug, Clone)]
pub struct Config {
    pub db: DbConfig,
    pub api: ApiConfig,
    pub tls: TlsConfig,
    pub auth: AuthConfig,
    pub monitoring: MonitoringConfig,
    pub homeassistant: HomeAssistantConfig,
    pub influxdb: InfluxDbConfig,
    pub networks: NetworksConfig,
    pub defaults: DefaultsConfig,
    pub dns: DnsConfig,
    pub mullvad: Option<MullvadConfig>,
}

impl Config {
    /// Every section but the database holds its defaults.
    pub open spec fn is_default_but_db(&self) -> bool {
        &&& self.api.is_default()
        &&& self.tls.is_default()
        &&& self.auth.is_default()
        &&& self.monitoring.is_default()
        &&& self.homeassistant.is_default()
        &&& self.influxdb.is_default()
        &&& self.networks.is_default()
        &&& self.defaults.is_default()
        &&& self.dns.is_default()
        &&& self.mullvad is None
    }

    /// The defaults with another database path.
    pub fn default_with_path(db_path: &str) -> (r: Config)
        ensures
            r.db.path@ == db_path@,
            r.is_default_but_db(),
    {
        let mut c = Config::default();
        c.db.path = db_path.to_owned();
        c
    }
}

impl Default for Config {
    fn default() -> (r: Self)
        ensures
            r.db.is_default(),
            r.is_default_but_db(),
    {
        Config {
            db: DbConfig::default(),
            api: ApiConfig::default(),
            tls: TlsConfig::default(),
            auth: AuthConfig::default(),
            monitoring: MonitoringConfig::default(),
            homeassistant: HomeAssistantConfig::default(),
            influxdb: InfluxDbConfig::default(),
            networks: NetworksConfig::default(),
            defaults: DefaultsConfig::default(),
            dns: DnsConfig::default(),
            mullvad: None,
        }
    }
}

} // verus!
