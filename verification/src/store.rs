//! The router's database: its tables and the operations the daemon performs
//! on them.
//!
//! Each operation states, over the views of the rows, exactly how the table
//! changes and what is returned. Keyed tables keep their rows ascending by
//! key, so every listing comes out in key order (`ORDER BY` of the key).

use vstd::prelude::*;
use crate::model::{
    clone_opt, opt_view, Client, ClientV, Gateway, GatewayV, Group, GroupV, InterfaceMeta,
    InterfaceMetaV, MonitorEvent, MonitorEventV, MullvadDevice, MullvadDeviceV, NetworkConfig,
    NetworkConfigV, TrafficRecord,
};
use crate::sort::{is_stable_order, stable_order};
use crate::lookup::sviews;
use crate::order::{
    count_below, has_key, key_index, keys_sorted, lemma_insert_sorted, lemma_remove_sorted,
    lemma_update_sorted, locate, rows_sorted, Keyed,
};

verus! {

/// A key/value entry of the system settings.
#[derive(Debug, Clone)]
pub struct Setting {
    pub key: String,
    pub value: String,
}

/// One stored traffic delta.
#[derive(Debug, Clone)]
pub struct TrafficRow {
    pub id: i64,
    pub ip: String,
    pub ts: i64,
    pub bytes_in: i64,
    pub bytes_out: i64,
    pub bytes_in_intern: i64,
    pub bytes_out_intern: i64,
    pub gateway: String,
}

impl Keyed for Client {
    open spec fn key_of(&self) -> Seq<char> {
        self.ip@
    }

    fn key(&self) -> (r: &String) {
        &self.ip
    }
}

impl Keyed for Gateway {
    open spec fn key_of(&self) -> Seq<char> {
        self.name@
    }

    fn key(&self) -> (r: &String) {
        &self.name
    }
}

impl Keyed for NetworkConfig {
    open spec fn key_of(&self) -> Seq<char> {
        self.subnet@
    }

    fn key(&self) -> (r: &String) {
        &self.subnet
    }
}

impl Keyed for Group {
    open spec fn key_of(&self) -> Seq<char> {
        self.name@
    }

    fn key(&self) -> (r: &String) {
        &self.name
    }
}

impl Keyed for InterfaceMeta {
    open spec fn key_of(&self) -> Seq<char> {
        self.name@
    }

    fn key(&self) -> (r: &String) {
        &self.name
    }
}

impl Keyed for MullvadDevice {
    open spec fn key_of(&self) -> Seq<char> {
        self.name@
    }

    fn key(&self) -> (r: &String) {
        &self.name
    }
}

impl Keyed for Setting {
    open spec fn key_of(&self) -> Seq<char> {
        self.key@
    }

    fn key(&self) -> (r: &String) {
        &self.key
    }
}

/// The tables of the router's database.
pub struct Database {
    pub clients: Vec<Client>,
    pub gateways: Vec<Gateway>,
    pub networks: Vec<NetworkConfig>,
    pub groups: Vec<Group>,
    pub interface_meta: Vec<InterfaceMeta>,
    pub settings: Vec<Setting>,
    pub mullvad_devices: Vec<MullvadDevice>,
    pub monitor_events: Vec<MonitorEvent>,
    pub traffic: Vec<TrafficRow>,
    /// The id that the next monitor event receives.
    pub next_event_id: i64,
    /// The id that the next traffic row receives.
    pub next_traffic_id: i64,
}

/// No two gateways share a routing mark.
pub open spec fn marks_unique(gs: Seq<Gateway>) -> bool {
    forall|i: int, j: int| 0 <= i < gs.len() && 0 <= j < gs.len() && i != j ==> #[trigger] gs[i].mark != #[trigger] gs[j].mark
}

/// Whether no two gateways share a routing mark.
pub fn marks_distinct(gs: &Vec<Gateway>) -> (r: bool)
    ensures
        r == marks_unique(gs@),
{
    let mut j: usize = 0;
    while j < gs.len()
        invariant
            j <= gs@.len(),
            forall|a: int, b: int| 0 <= a < j && 0 <= b < j && a != b ==> #[trigger] gs@[a].mark != #[trigger] gs@[b].mark,
        decreases gs.len() - j,
    {
        let mut i: usize = 0;
        while i < j
            invariant
                i <= j < gs@.len(),
                forall|a: int| 0 <= a < i ==> #[trigger] gs@[a].mark != gs@[j as int].mark,
            decreases j - i,
        {
            if gs[i].mark == gs[j].mark {
                assert(gs@[i as int].mark == gs@[j as int].mark);
                return false;
            }
            i = i + 1;
        }
        j = j + 1;
    }
    true
}

/// The views of client rows.
pub open spec fn client_views(s: Seq<Client>) -> Seq<ClientV> {
    Seq::new(s.len(), |i: int| s[i]@)
}

/// The views of gateway rows.
pub open spec fn gateway_views(s: Seq<Gateway>) -> Seq<GatewayV> {
    Seq::new(s.len(), |i: int| s[i]@)
}

/// The views of network rows.
pub open spec fn network_views(s: Seq<NetworkConfig>) -> Seq<NetworkConfigV> {
    Seq::new(s.len(), |i: int| s[i]@)
}

/// The views of group rows.
pub open spec fn group_views(s: Seq<Group>) -> Seq<GroupV> {
    Seq::new(s.len(), |i: int| s[i]@)
}

/// The views of interface metadata rows.
pub open spec fn meta_views(s: Seq<InterfaceMeta>) -> Seq<InterfaceMetaV> {
    Seq::new(s.len(), |i: int| s[i]@)
}

/// The views of Mullvad device rows.
pub open spec fn device_views(s: Seq<MullvadDevice>) -> Seq<MullvadDeviceV> {
    Seq::new(s.len(), |i: int| s[i]@)
}

/// The views of monitor events.
pub open spec fn event_views(s: Seq<MonitorEvent>) -> Seq<MonitorEventV> {
    Seq::new(s.len(), |i: int| s[i]@)
}

impl Database {
    /// The table invariants: keyed tables ascending by key, routing marks unique.
    pub open spec fn wf(&self) -> bool {
        &&& keys_sorted(self.clients@)
        &&& keys_sorted(self.gateways@)
        &&& keys_sorted(self.networks@)
        &&& keys_sorted(self.groups@)
        &&& keys_sorted(self.interface_meta@)
        &&& keys_sorted(self.settings@)
        &&& keys_sorted(self.mullvad_devices@)
        &&& marks_unique(self.gateways@)
    }

    /// Whether the tables meet their invariants; a store read back from disk
    /// is checked with this before any operation runs on it.
    pub fn is_wf(&self) -> (r: bool)
        ensures
            r == self.wf(),
    {
        rows_sorted(&self.clients) && rows_sorted(&self.gateways) && rows_sorted(&self.networks)
            && rows_sorted(&self.groups) && rows_sorted(&self.interface_meta) && rows_sorted(&self.settings)
            && rows_sorted(&self.mullvad_devices) && marks_distinct(&self.gateways)
    }

    /// An empty database.
    pub fn new() -> (r: Database)
        ensures
            r.wf(),
            r.clients@.len() == 0,
            r.gateways@.len() == 0,
            r.networks@.len() == 0,
            r.groups@.len() == 0,
            r.interface_meta@.len() == 0,
            r.settings@.len() == 0,
            r.mullvad_devices@.len() == 0,
            r.monitor_events@.len() == 0,
            r.traffic@.len() == 0,
            r.next_event_id == 1,
            r.next_traffic_id == 1,
    {
        Database {
            clients: Vec::new(),
            gateways: Vec::new(),
            networks: Vec::new(),
            groups: Vec::new(),
            interface_meta: Vec::new(),
            settings: Vec::new(),
            mullvad_devices: Vec::new(),
            monitor_events: Vec::new(),
            traffic: Vec::new(),
            next_event_id: 1,
            next_traffic_id: 1,
        }
    }
}

// ---------------------------------------------------------------------------
// Frames: which tables an operation leaves alone
// ---------------------------------------------------------------------------

/// `b` equals `a` in every table whose flag is false.
pub open spec fn frame(
    a: Database,
    b: Database,
    clients: bool,
    gateways: bool,
    networks: bool,
    groups: bool,
    meta: bool,
    settings: bool,
    devices: bool,
    events: bool,
    traffic: bool,
) -> bool {
    &&& (!clients ==> b.clients == a.clients)
    &&& (!gateways ==> b.gateways == a.gateways)
    &&& (!networks ==> b.networks == a.networks)
    &&& (!groups ==> b.groups == a.groups)
    &&& (!meta ==> b.interface_meta == a.interface_meta)
    &&& (!settings ==> b.settings == a.settings)
    &&& (!devices ==> b.mullvad_devices == a.mullvad_devices)
    &&& (!events ==> b.monitor_events == a.monitor_events && b.next_event_id == a.next_event_id)
    &&& (!traffic ==> b.traffic == a.traffic && b.next_traffic_id == a.next_traffic_id)
}

/// Only the clients table changed.
pub open spec fn only_clients_changed(a: Database, b: Database) -> bool {
    frame(a, b, true, false, false, false, false, false, false, false, false)
}

/// Only the clients and groups tables changed.
pub open spec fn only_clients_groups_changed(a: Database, b: Database) -> bool {
    frame(a, b, true, false, false, true, false, false, false, false, false)
}

/// Only the gateways table changed.
pub open spec fn only_gateways_changed(a: Database, b: Database) -> bool {
    frame(a, b, false, true, false, false, false, false, false, false, false)
}

/// Only the gateways and interface metadata changed.
pub open spec fn only_gateways_meta_changed(a: Database, b: Database) -> bool {
    frame(a, b, false, true, false, false, true, false, false, false, false)
}

/// Only the networks table changed.
pub open spec fn only_networks_changed(a: Database, b: Database) -> bool {
    frame(a, b, false, false, true, false, false, false, false, false, false)
}

/// Only the groups table changed.
pub open spec fn only_groups_changed(a: Database, b: Database) -> bool {
    frame(a, b, false, false, false, true, false, false, false, false, false)
}

/// Only the interface metadata changed.
pub open spec fn only_meta_changed(a: Database, b: Database) -> bool {
    frame(a, b, false, false, false, false, true, false, false, false, false)
}

/// Only the settings changed.
pub open spec fn only_settings_changed(a: Database, b: Database) -> bool {
    frame(a, b, false, false, false, false, false, true, false, false, false)
}

/// Only the Mullvad devices changed.
pub open spec fn only_devices_changed(a: Database, b: Database) -> bool {
    frame(a, b, false, false, false, false, false, false, true, false, false)
}

/// Only the traffic table changed.
pub open spec fn only_traffic_changed(a: Database, b: Database) -> bool {
    frame(a, b, false, false, false, false, false, false, false, false, true)
}

// ---------------------------------------------------------------------------
// Clients
// ---------------------------------------------------------------------------

/// A client seen for the first time: on the configured default gateway, active.
pub open spec fn new_client(
    ip: Seq<char>,
    mac: Option<Seq<char>>,
    hostname: Option<Seq<char>>,
    now: i64,
    default_gw: Seq<char>,
) -> ClientV {
    ClientV {
        ip: ip,
        mac: mac,
        hostname: hostname,
        label: None,
        group_name: None,
        gateway: default_gw,
        first_seen: now,
        last_seen: now,
        active: 1,
        ipv6: None,
        dns_ip: None,
        autofallback: 0,
        original_gateway: None,
        fallback_gateway: None,
    }
}

/// The first of two optional values that is present.
pub open spec fn coalesce(a: Option<Seq<char>>, b: Option<Seq<char>>) -> Option<Seq<char>> {
    if a is Some {
        a
    } else {
        b
    }
}

/// A known client seen again: new MAC and hostname where given, marked active.
pub open spec fn seen_again(c: ClientV, mac: Option<Seq<char>>, hostname: Option<Seq<char>>, now: i64) -> ClientV {
    ClientV { mac: coalesce(mac, c.mac), hostname: coalesce(hostname, c.hostname), last_seen: now, active: 1, ..c }
}

fn coalesce_exec(a: Option<&str>, b: &Option<String>) -> (r: Option<String>)
    ensures
        opt_view(r) == coalesce(
            match a {
                Some(s) => Some(s@),
                None => None,
            },
            opt_view(*b),
        ),
{
    match a {
        Some(s) => Some(s.to_owned()),
        None => clone_opt(b),
    }
}

/// The view of an optional string slice.
pub open spec fn opt_str(o: Option<&str>) -> Option<Seq<char>> {
    match o {
        Some(s) => Some(s@),
        None => None,
    }
}

/// Records that a client was seen at time `now`: inserts it on the default
/// gateway `default_gw`, or refreshes its MAC, hostname, last-seen time and
/// active flag.
pub fn upsert_client(
    db: &mut Database,
    ip: &str,
    mac: Option<&str>,
    hostname: Option<&str>,
    now: i64,
    default_gw: &str,
)
    requires
        old(db).wf(),
    ensures
        final(db).wf(),
        ({
            let rows = client_views(old(db).clients@);
            if has_key(old(db).clients@, ip@) {
                let k = key_index(old(db).clients@, ip@);
                client_views(final(db).clients@) == rows.update(k, seen_again(rows[k], opt_str(mac), opt_str(hostname), now))
            } else {
                client_views(final(db).clients@) == rows.insert(
                    count_below(old(db).clients@, ip@) as int,
                    new_client(ip@, opt_str(mac), opt_str(hostname), now, default_gw@),
                )
            }
        }),
        only_clients_changed(*old(db), *final(db)),
{
    let key = ip.to_owned();
    match locate(&db.clients, &key) {
        Ok(i) => {
            let old_c = db.clients[i].copy();
            let c = Client {
                mac: coalesce_exec(mac, &old_c.mac),
                hostname: coalesce_exec(hostname, &old_c.hostname),
                last_seen: now,
                active: 1,
                ..old_c
            };
            proof {
                lemma_update_sorted(db.clients@, i as int, c);
            }
            db.clients.set(i, c);
            proof {
                assert(client_views(db.clients@) =~= client_views(old(db).clients@).update(
                    i as int,
                    seen_again(old(db).clients@[i as int]@, opt_str(mac), opt_str(hostname), now),
                ));
            }
        },
        Err(p) => {
            let c = Client {
                ip: key,
                mac: match mac {
                    Some(m) => Some(m.to_owned()),
                    None => None,
                },
                hostname: match hostname {
                    Some(h) => Some(h.to_owned()),
                    None => None,
                },
                label: None,
                group_name: None,
                gateway: default_gw.to_owned(),
                first_seen: now,
                last_seen: now,
                active: 1,
                ipv6: None,
                dns_ip: None,
                autofallback: 0,
                original_gateway: None,
                fallback_gateway: None,
            };
            proof {
                lemma_insert_sorted(db.clients@, c);
            }
            db.clients.insert(p, c);
            proof {
                assert(client_views(db.clients@) =~= client_views(old(db).clients@).insert(
                    p as int,
                    new_client(ip@, opt_str(mac), opt_str(hostname), now, default_gw@),
                ));
            }
        },
    }
}

} // verus!

verus! {

/// Some name of `names` equals `x`.
pub open spec fn name_in(names: Seq<Seq<char>>, x: Seq<char>) -> bool {
    exists|i: int| 0 <= i < names.len() && #[trigger] names[i] == x
}

fn contains_name(names: &Vec<String>, x: &String) -> (r: bool)
    ensures
        r == name_in(sviews(names@), x@),
{
    let mut i: usize = 0;
    while i < names.len()
        invariant
            i <= names@.len(),
            forall|j: int| 0 <= j < i ==> #[trigger] names@[j]@ != x@,
        decreases names.len() - i,
    {
        if crate::text::str_eq(names[i].as_str(), x.as_str()) {
            proof {
                assert(sviews(names@)[i as int] == x@);
            }
            return true;
        }
        i = i + 1;
    }
    false
}

/// Changes one client row in place, keeping its key; returns whether the row exists.
fn modify_client(db: &mut Database, ip: &str, c_new: Client) -> (found: bool)
    requires
        old(db).wf(),
        c_new.ip@ == ip@,
    ensures
        final(db).wf(),
        found == has_key(old(db).clients@, ip@),
        found ==> client_views(final(db).clients@) == client_views(old(db).clients@).update(
            key_index(old(db).clients@, ip@),
            c_new@,
        ),
        !found ==> final(db).clients == old(db).clients,
        only_clients_changed(*old(db), *final(db)),
{
    let key = ip.to_owned();
    match locate(&db.clients, &key) {
        Ok(i) => {
            proof {
                lemma_update_sorted(db.clients@, i as int, c_new);
            }
            db.clients.set(i, c_new);
            proof {
                assert(client_views(db.clients@) =~= client_views(old(db).clients@).update(i as int, c_new@));
            }
            true
        },
        Err(_) => false,
    }
}

/// The stored row of a client, if known.
pub fn get_client(db: &Database, ip: &str) -> (r: Option<Client>)
    requires
        db.wf(),
    ensures
        has_key(db.clients@, ip@) ==> r is Some && r->0@ == db.clients@[key_index(db.clients@, ip@)]@,
        !has_key(db.clients@, ip@) ==> r is None,
{
    let key = ip.to_owned();
    match locate(&db.clients, &key) {
        Ok(i) => Some(db.clients[i].copy()),
        Err(_) => None,
    }
}

/// Assigns a gateway to a client; returns whether the client exists.
pub fn set_client_gateway(db: &mut Database, ip: &str, gateway: &str) -> (found: bool)
    requires
        old(db).wf(),
    ensures
        final(db).wf(),
        found == has_key(old(db).clients@, ip@),
        found ==> ({
            let k = key_index(old(db).clients@, ip@);
            client_views(final(db).clients@) == client_views(old(db).clients@).update(
                k,
                ClientV { gateway: gateway@, ..old(db).clients@[k]@ },
            )
        }),
        !found ==> final(db).clients == old(db).clients,
        only_clients_changed(*old(db), *final(db)),
{
    match get_client(db, ip) {
        Some(c) => {
            let c2 = Client { gateway: gateway.to_owned(), ..c };
            modify_client(db, ip, c2)
        },
        None => false,
    }
}

/// Sets the display label of a client; returns whether the client exists.
pub fn set_client_label(db: &mut Database, ip: &str, label: &str) -> (found: bool)
    requires
        old(db).wf(),
    ensures
        final(db).wf(),
        found == has_key(old(db).clients@, ip@),
        found ==> ({
            let k = key_index(old(db).clients@, ip@);
            client_views(final(db).clients@) == client_views(old(db).clients@).update(
                k,
                ClientV { label: Some(label@), ..old(db).clients@[k]@ },
            )
        }),
        !found ==> final(db).clients == old(db).clients,
        only_clients_changed(*old(db), *final(db)),
{
    match get_client(db, ip) {
        Some(c) => {
            let c2 = Client { label: Some(label.to_owned()), ..c };
            modify_client(db, ip, c2)
        },
        None => false,
    }
}

/// The group a client joins: none for an empty name.
pub open spec fn group_value(group_name: Seq<char>) -> Option<Seq<char>> {
    if group_name.len() == 0 {
        None
    } else {
        Some(group_name)
    }
}

/// Puts a client into a group (an empty name removes it from its group);
/// returns whether the client exists.
pub fn set_client_group(db: &mut Database, ip: &str, group_name: &str) -> (found: bool)
    requires
        old(db).wf(),
    ensures
        final(db).wf(),
        found == has_key(old(db).clients@, ip@),
        found ==> ({
            let k = key_index(old(db).clients@, ip@);
            client_views(final(db).clients@) == client_views(old(db).clients@).update(
                k,
                ClientV { group_name: group_value(group_name@), ..old(db).clients@[k]@ },
            )
        }),
        !found ==> final(db).clients == old(db).clients,
        only_clients_changed(*old(db), *final(db)),
{
    match get_client(db, ip) {
        Some(c) => {
            let g = if group_name.is_empty() {
                None
            } else {
                Some(group_name.to_owned())
            };
            let c2 = Client { group_name: g, ..c };
            modify_client(db, ip, c2)
        },
        None => false,
    }
}

/// Sets the gateway a client falls back to, enabling automatic fallback, or
/// with `None` disables it; returns whether the client exists.
pub fn set_client_autofallback(db: &mut Database, ip: &str, fallback_gateway: Option<&str>) -> (found: bool)
    requires
        old(db).wf(),
    ensures
        final(db).wf(),
        found == has_key(old(db).clients@, ip@),
        found ==> ({
            let k = key_index(old(db).clients@, ip@);
            client_views(final(db).clients@) == client_views(old(db).clients@).update(
                k,
                ClientV {
                    autofallback: if fallback_gateway is Some { 1 } else { 0 },
                    fallback_gateway: opt_str(fallback_gateway),
                    ..old(db).clients@[k]@
                },
            )
        }),
        !found ==> final(db).clients == old(db).clients,
        only_clients_changed(*old(db), *final(db)),
{
    match get_client(db, ip) {
        Some(c) => {
            let c2 = Client {
                autofallback: if fallback_gateway.is_some() { 1 } else { 0 },
                fallback_gateway: own(fallback_gateway),
                ..c
            };
            modify_client(db, ip, c2)
        },
        None => false,
    }
}

/// Sets or clears the DNS override of a client; returns whether the client exists.
pub fn set_client_dns_ip(db: &mut Database, ip: &str, dns_ip: Option<&str>) -> (found: bool)
    requires
        old(db).wf(),
    ensures
        final(db).wf(),
        found == has_key(old(db).clients@, ip@),
        found ==> ({
            let k = key_index(old(db).clients@, ip@);
            client_views(final(db).clients@) == client_views(old(db).clients@).update(
                k,
                ClientV { dns_ip: opt_str(dns_ip), ..old(db).clients@[k]@ },
            )
        }),
        !found ==> final(db).clients == old(db).clients,
        only_clients_changed(*old(db), *final(db)),
{
    match get_client(db, ip) {
        Some(c) => {
            let d = match dns_ip {
                Some(s) => Some(s.to_owned()),
                None => None,
            };
            let c2 = Client { dns_ip: d, ..c };
            modify_client(db, ip, c2)
        },
        None => false,
    }
}

/// A client after its IPv6 address is recorded for the MAC `mac`.
pub open spec fn with_ipv6_for_mac(c: ClientV, mac: Seq<char>, ipv6: Seq<char>) -> ClientV {
    if c.mac == Some(mac) {
        ClientV { ipv6: Some(ipv6), ..c }
    } else {
        c
    }
}

/// Records an IPv6 address for every client with the given MAC address.
pub fn update_ipv6_by_mac(db: &mut Database, mac: &str, ipv6: &str)
    requires
        old(db).wf(),
    ensures
        final(db).wf(),
        client_views(final(db).clients@) == Seq::new(
            old(db).clients@.len(),
            |i: int| with_ipv6_for_mac(old(db).clients@[i]@, mac@, ipv6@),
        ),
        only_clients_changed(*old(db), *final(db)),
{
    let n = db.clients.len();
    let ghost rows = old(db).clients@;
    let mut i: usize = 0;
    while i < n
        invariant
            n == rows.len(),
            db.clients@.len() == n,
            i <= n,
            keys_sorted(db.clients@),
            only_clients_changed(*old(db), *db),
            old(db).wf(),
            rows == old(db).clients@,
            forall|j: int| 0 <= j < n ==> #[trigger] db.clients@[j]@ == (if j < i {
                with_ipv6_for_mac(rows[j]@, mac@, ipv6@)
            } else {
                rows[j]@
            }),
        decreases n - i,
    {
        let matches = match &db.clients[i].mac {
            Some(m) => crate::text::str_eq(m.as_str(), mac),
            None => false,
        };
        if matches {
            let c = db.clients[i].copy();
            let c2 = Client { ipv6: Some(ipv6.to_owned()), ..c };
            proof {
                lemma_update_sorted(db.clients@, i as int, c2);
            }
            db.clients.set(i, c2);
        }
        i = i + 1;
    }
    proof {
        assert(client_views(db.clients@) =~= Seq::new(rows.len(), |i: int| with_ipv6_for_mac(rows[i]@, mac@, ipv6@)));
    }
}

/// All clients, ascending by address.
pub fn list_clients(db: &Database) -> (r: Vec<Client>)
    requires
        db.wf(),
    ensures
        client_views(r@) == client_views(db.clients@),
{
    let mut r: Vec<Client> = Vec::new();
    let mut i: usize = 0;
    while i < db.clients.len()
        invariant
            i <= db.clients@.len(),
            client_views(r@) == client_views(db.clients@.subrange(0, i as int)),
        decreases db.clients.len() - i,
    {
        let ghost before = client_views(r@);
        r.push(db.clients[i].copy());
        proof {
            assert(client_views(r@) =~= before.push(db.clients@[i as int]@));
        }
        i = i + 1;
        proof {
            assert(client_views(r@) =~= client_views(db.clients@.subrange(0, i as int)));
        }
    }
    proof {
        assert(db.clients@.subrange(0, db.clients@.len() as int) =~= db.clients@);
    }
    r
}

/// A client passes the optional group and gateway filters.
pub open spec fn passes_filter(c: ClientV, group: Option<Seq<char>>, gateway: Option<Seq<char>>) -> bool {
    &&& (group matches Some(g) ==> c.group_name == Some(g))
    &&& (gateway matches Some(gw) ==> c.gateway == gw)
}

/// The clients that pass the filters, in table order.
pub open spec fn filter_clients(rows: Seq<ClientV>, group: Option<Seq<char>>, gateway: Option<Seq<char>>) -> Seq<ClientV>
    decreases rows.len(),
{
    if rows.len() == 0 {
        Seq::empty()
    } else {
        let rest = filter_clients(rows.drop_last(), group, gateway);
        if passes_filter(rows.last(), group, gateway) {
            rest.push(rows.last())
        } else {
            rest
        }
    }
}

/// The clients of a group and/or on a gateway, ascending by address.
pub fn list_clients_filtered(db: &Database, group: Option<&str>, gateway: Option<&str>) -> (r: Vec<Client>)
    requires
        db.wf(),
    ensures
        client_views(r@) == filter_clients(client_views(db.clients@), opt_str(group), opt_str(gateway)),
{
    let mut r: Vec<Client> = Vec::new();
    let ghost rows = client_views(db.clients@);
    let mut i: usize = 0;
    proof {
        assert(rows.subrange(0, 0) =~= Seq::<ClientV>::empty());
        assert(client_views(r@) =~= filter_clients(rows.subrange(0, 0), opt_str(group), opt_str(gateway)));
    }
    while i < db.clients.len()
        invariant
            i <= db.clients@.len(),
            rows == client_views(db.clients@),
            client_views(r@) == filter_clients(rows.subrange(0, i as int), opt_str(group), opt_str(gateway)),
        decreases db.clients.len() - i,
    {
        let ghost pre = rows.subrange(0, i as int);
        let ghost post = rows.subrange(0, i + 1);
        proof {
            assert(post.drop_last() =~= pre);
            assert(post.last() == db.clients@[i as int]@);
        }
        let c = &db.clients[i];
        let ok_group = match group {
            Some(g) => match &c.group_name {
                Some(cg) => crate::text::str_eq(cg.as_str(), g),
                None => false,
            },
            None => true,
        };
        let ok_gw = match gateway {
            Some(gw) => crate::text::str_eq(c.gateway.as_str(), gw),
            None => true,
        };
        if ok_group && ok_gw {
            let ghost before = client_views(r@);
            r.push(c.copy());
            proof {
                assert(client_views(r@) =~= before.push(c@));
            }
        }
        i = i + 1;
    }
    proof {
        assert(rows.subrange(0, db.clients@.len() as int) =~= rows);
    }
    r
}

/// The active clients, in table order.
pub open spec fn active_clients(rows: Seq<ClientV>) -> Seq<ClientV>
    decreases rows.len(),
{
    if rows.len() == 0 {
        Seq::empty()
    } else {
        let rest = active_clients(rows.drop_last());
        if rows.last().active == 1 {
            rest.push(rows.last())
        } else {
            rest
        }
    }
}

/// The clients marked active, ascending by address.
pub fn list_active_clients(db: &Database) -> (r: Vec<Client>)
    requires
        db.wf(),
    ensures
        client_views(r@) == active_clients(client_views(db.clients@)),
{
    let mut r: Vec<Client> = Vec::new();
    let ghost rows = client_views(db.clients@);
    let mut i: usize = 0;
    proof {
        assert(rows.subrange(0, 0) =~= Seq::<ClientV>::empty());
        assert(client_views(r@) =~= active_clients(rows.subrange(0, 0)));
    }
    while i < db.clients.len()
        invariant
            i <= db.clients@.len(),
            rows == client_views(db.clients@),
            client_views(r@) == active_clients(rows.subrange(0, i as int)),
        decreases db.clients.len() - i,
    {
        let ghost pre = rows.subrange(0, i as int);
        let ghost post = rows.subrange(0, i + 1);
        proof {
            assert(post.drop_last() =~= pre);
            assert(post.last() == db.clients@[i as int]@);
        }
        if db.clients[i].active == 1 {
            let ghost before = client_views(r@);
            r.push(db.clients[i].copy());
            proof {
                assert(client_views(r@) =~= before.push(db.clients@[i as int]@));
            }
        }
        i = i + 1;
    }
    proof {
        assert(rows.subrange(0, db.clients@.len() as int) =~= rows);
    }
    r
}

/// A client that automatic fallback moves when one of `names` fails:
/// fallback enabled, not already in fallback, on one of those gateways.
pub open spec fn falls_back(c: ClientV, names: Seq<Seq<char>>) -> bool {
    c.autofallback == 1 && c.original_gateway is None && name_in(names, c.gateway)
}

/// The gateway automatic fallback sends a client to: its own fallback
/// gateway, else `ppp0`.
pub open spec fn fallback_target(c: ClientV) -> Seq<char> {
    match c.fallback_gateway {
        Some(f) => f,
        None => "ppp0"@,
    }
}

/// A client after automatic fallback: its gateway is remembered and it moves
/// to its fallback target.
pub open spec fn after_fallback(c: ClientV, names: Seq<Seq<char>>) -> ClientV {
    if falls_back(c, names) {
        ClientV { original_gateway: Some(c.gateway), gateway: fallback_target(c), ..c }
    } else {
        c
    }
}

/// A client that restoring moves back: its remembered gateway is one of `names`.
pub open spec fn is_restored(c: ClientV, names: Seq<Seq<char>>) -> bool {
    match c.original_gateway {
        Some(o) => name_in(names, o),
        None => false,
    }
}

/// A client after restoring: back on its remembered gateway, nothing remembered.
pub open spec fn after_restore(c: ClientV, names: Seq<Seq<char>>) -> ClientV {
    match c.original_gateway {
        Some(o) => if name_in(names, o) {
            ClientV { gateway: o, original_gateway: None, ..c }
        } else {
            c
        },
        None => c,
    }
}

/// The number of rows that satisfy `p`.
pub open spec fn count_where(rows: Seq<ClientV>, p: spec_fn(ClientV) -> bool) -> nat
    decreases rows.len(),
{
    if rows.len() == 0 {
        0
    } else {
        count_where(rows.drop_last(), p) + (if p(rows.last()) { 1nat } else { 0nat })
    }
}

/// The count over a prefix never exceeds its length.
pub proof fn lemma_count_where_le(rows: Seq<ClientV>, p: spec_fn(ClientV) -> bool)
    ensures
        count_where(rows, p) <= rows.len(),
    decreases rows.len(),
{
    if rows.len() > 0 {
        lemma_count_where_le(rows.drop_last(), p);
    }
}

/// Moves the automatic-fallback clients of the failed gateways `gw_names` to
/// their fallback targets, remembering their gateway; returns how many moved.
pub fn activate_fallback_for_clients(db: &mut Database, gw_names: &Vec<String>) -> (n: u64)
    requires
        old(db).wf(),
    ensures
        final(db).wf(),
        client_views(final(db).clients@) == Seq::new(
            old(db).clients@.len(),
            |i: int| after_fallback(old(db).clients@[i]@, sviews(gw_names@)),
        ),
        n == count_where(client_views(old(db).clients@), |c: ClientV| falls_back(c, sviews(gw_names@))),
        only_clients_changed(*old(db), *final(db)),
{
    let n = db.clients.len();
    let ghost rows = old(db).clients@;
    let ghost p = |c: ClientV| falls_back(c, sviews(gw_names@));
    let mut count: u64 = 0;
    let mut i: usize = 0;
    proof {
        assert(client_views(rows).subrange(0, 0) =~= Seq::<ClientV>::empty());
    }
    while i < n
        invariant
            n == rows.len(),
            db.clients@.len() == n,
            i <= n,
            keys_sorted(db.clients@),
            only_clients_changed(*old(db), *db),
            rows == old(db).clients@,
            p == (|c: ClientV| falls_back(c, sviews(gw_names@))),
            count == count_where(client_views(rows).subrange(0, i as int), p),
            forall|j: int| 0 <= j < n ==> #[trigger] db.clients@[j]@ == (if j < i {
                after_fallback(rows[j]@, sviews(gw_names@))
            } else {
                rows[j]@
            }),
        decreases n - i,
    {
        let ghost pre = client_views(rows).subrange(0, i as int);
        let ghost post = client_views(rows).subrange(0, i + 1);
        proof {
            assert(post.drop_last() =~= pre);
            assert(post.last() == rows[i as int]@);
            lemma_count_where_le(pre, p);
        }
        let c = db.clients[i].copy();
        let hit = c.autofallback == 1 && c.original_gateway.is_none() && contains_name(gw_names, &c.gateway);
        if hit {
            let g = c.gateway.clone();
            let target = match &c.fallback_gateway {
                Some(f) => f.clone(),
                None => String::from_str("ppp0"),
            };
            let c2 = Client { original_gateway: Some(g), gateway: target, ..c };
            proof {
                lemma_update_sorted(db.clients@, i as int, c2);
            }
            db.clients.set(i, c2);
            count = count + 1;
        }
        i = i + 1;
    }
    proof {
        assert(client_views(rows).subrange(0, n as int) =~= client_views(rows));
        assert(client_views(db.clients@) =~= Seq::new(rows.len(), |i: int| after_fallback(rows[i]@, sviews(gw_names@))));
    }
    count
}

/// A client moved off gateway `from` onto `to`; clients of other gateways stay.
pub open spec fn moved_off(c: ClientV, from: Seq<char>, to: Seq<char>) -> ClientV {
    if c.gateway == from {
        ClientV { gateway: to, ..c }
    } else {
        c
    }
}

/// Moves every client of gateway `from` to gateway `to` (used when a gateway
/// disappears: its clients fall back to the default gateway).
pub fn reassign_clients(db: &mut Database, from: &str, to: &str)
    requires
        old(db).wf(),
    ensures
        final(db).wf(),
        client_views(final(db).clients@) == Seq::new(
            old(db).clients@.len(),
            |i: int| moved_off(old(db).clients@[i]@, from@, to@),
        ),
        only_clients_changed(*old(db), *final(db)),
{
    let n = db.clients.len();
    let ghost rows = old(db).clients@;
    let mut i: usize = 0;
    while i < n
        invariant
            n == rows.len(),
            db.clients@.len() == n,
            i <= n,
            keys_sorted(db.clients@),
            only_clients_changed(*old(db), *db),
            rows == old(db).clients@,
            forall|j: int| 0 <= j < n ==> #[trigger] db.clients@[j]@ == (if j < i {
                moved_off(rows[j]@, from@, to@)
            } else {
                rows[j]@
            }),
        decreases n - i,
    {
        let on_from = crate::text::str_eq(db.clients[i].gateway.as_str(), from);
        if on_from {
            let c = db.clients[i].copy();
            let c2 = Client { gateway: to.to_owned(), ..c };
            proof {
                lemma_update_sorted(db.clients@, i as int, c2);
            }
            db.clients.set(i, c2);
        }
        i = i + 1;
    }
    proof {
        assert(client_views(db.clients@) =~= Seq::new(rows.len(), |i: int| moved_off(rows[i]@, from@, to@)));
    }
}

/// Moves the clients whose remembered gateway is one of `gw_names` back to it;
/// returns how many moved.
pub fn restore_fallback_clients(db: &mut Database, gw_names: &Vec<String>) -> (n: u64)
    requires
        old(db).wf(),
    ensures
        final(db).wf(),
        client_views(final(db).clients@) == Seq::new(
            old(db).clients@.len(),
            |i: int| after_restore(old(db).clients@[i]@, sviews(gw_names@)),
        ),
        n == count_where(client_views(old(db).clients@), |c: ClientV| is_restored(c, sviews(gw_names@))),
        only_clients_changed(*old(db), *final(db)),
{
    let n = db.clients.len();
    let ghost rows = old(db).clients@;
    let ghost p = |c: ClientV| is_restored(c, sviews(gw_names@));
    let mut count: u64 = 0;
    let mut i: usize = 0;
    while i < n
        invariant
            n == rows.len(),
            db.clients@.len() == n,
            i <= n,
            keys_sorted(db.clients@),
            only_clients_changed(*old(db), *db),
            rows == old(db).clients@,
            p == (|c: ClientV| is_restored(c, sviews(gw_names@))),
            count == count_where(client_views(rows).subrange(0, i as int), p),
            forall|j: int| 0 <= j < n ==> #[trigger] db.clients@[j]@ == (if j < i {
                after_restore(rows[j]@, sviews(gw_names@))
            } else {
                rows[j]@
            }),
        decreases n - i,
    {
        let ghost pre = client_views(rows).subrange(0, i as int);
        let ghost post = client_views(rows).subrange(0, i + 1);
        proof {
            assert(post.drop_last() =~= pre);
            assert(post.last() == rows[i as int]@);
            lemma_count_where_le(pre, p);
        }
        let c = db.clients[i].copy();
        let hit = match &c.original_gateway {
            Some(o) => contains_name(gw_names, o),
            None => false,
        };
        if hit {
            let o = c.original_gateway.clone().unwrap();
            let c2 = Client { gateway: o, original_gateway: None, ..c };
            proof {
                lemma_update_sorted(db.clients@, i as int, c2);
            }
            db.clients.set(i, c2);
            count = count + 1;
        }
        i = i + 1;
    }
    proof {
        assert(client_views(rows).subrange(0, n as int) =~= client_views(rows));
        assert(client_views(db.clients@) =~= Seq::new(rows.len(), |i: int| after_restore(rows[i]@, sviews(gw_names@))));
    }
    count
}

} // verus!

verus! {

// ---------------------------------------------------------------------------
// Generic keyed-table edits
// ---------------------------------------------------------------------------

/// Stores `row` under its key: replaces the row with that key or inserts it in key order.
pub fn put_row<T: Keyed>(rows: &mut Vec<T>, row: T)
    requires
        keys_sorted(old(rows)@),
    ensures
        keys_sorted(final(rows)@),
        has_key(old(rows)@, row.key_of()) ==> final(rows)@ == old(rows)@.update(
            key_index(old(rows)@, row.key_of()),
            row,
        ),
        !has_key(old(rows)@, row.key_of()) ==> final(rows)@ == old(rows)@.insert(
            count_below(old(rows)@, row.key_of()) as int,
            row,
        ),
{
    let loc = locate(rows, row.key());
    match loc {
        Ok(i) => {
            proof {
                lemma_update_sorted(rows@, i as int, row);
            }
            rows.set(i, row);
        },
        Err(p) => {
            proof {
                lemma_insert_sorted(rows@, row);
            }
            rows.insert(p, row);
        },
    }
}

/// Removes the row with key `key`; returns whether there was one.
pub fn remove_row<T: Keyed>(rows: &mut Vec<T>, key: &String) -> (found: bool)
    requires
        keys_sorted(old(rows)@),
    ensures
        keys_sorted(final(rows)@),
        found == has_key(old(rows)@, key@),
        found ==> final(rows)@ == old(rows)@.remove(key_index(old(rows)@, key@)),
        !found ==> *final(rows) == *old(rows),
{
    match locate(rows, key) {
        Ok(i) => {
            proof {
                lemma_remove_sorted(rows@, i as int);
            }
            rows.remove(i);
            true
        },
        Err(_) => false,
    }
}

/// The errors of the store: a violated uniqueness constraint or an overflowing sum.
#[derive(Debug, Clone, Copy, PartialEq, Eq)]
pub enum StoreError {
    /// Another gateway already uses the routing mark.
    MarkInUse,
    /// A traffic sum does not fit a 64-bit integer.
    SumOverflow,
}

// ---------------------------------------------------------------------------
// Gateways
// ---------------------------------------------------------------------------

/// Some gateway other than `name` uses routing mark `mark`.
pub open spec fn mark_taken(gs: Seq<Gateway>, name: Seq<char>, mark: i64) -> bool {
    exists|i: int| 0 <= i < gs.len() && #[trigger] gs[i].mark == mark && gs[i].name@ != name
}

/// A gateway as `upsert_gateway` stores it; `dns_ip` is kept from the old row.
pub open spec fn gateway_row(
    name: Seq<char>,
    table_name: Seq<char>,
    interface: Seq<char>,
    src_ip: Option<Seq<char>>,
    description: Seq<char>,
    mark: i64,
    device_name: Option<Seq<char>>,
    dns_ip: Option<Seq<char>>,
) -> GatewayV {
    GatewayV {
        name,
        table_name,
        interface,
        src_ip,
        description: Some(description),
        mark,
        dns_ip,
        device_name,
    }
}

fn own(o: Option<&str>) -> (r: Option<String>)
    ensures
        opt_view(r) == opt_str(o),
{
    match o {
        Some(s) => Some(s.to_owned()),
        None => None,
    }
}

/// Creates or updates a gateway. Fails, changing nothing, when another
/// gateway already uses `mark`.
pub fn upsert_gateway(
    db: &mut Database,
    name: &str,
    table_name: &str,
    interface: &str,
    src_ip: Option<&str>,
    description: &str,
    mark: i64,
    device_name: Option<&str>,
) -> (r: Result<(), StoreError>)
    requires
        old(db).wf(),
    ensures
        final(db).wf(),
        only_gateways_changed(*old(db), *final(db)),
        mark_taken(old(db).gateways@, name@, mark) ==> r == Err::<(), StoreError>(StoreError::MarkInUse)
            && final(db).gateways == old(db).gateways,
        !mark_taken(old(db).gateways@, name@, mark) ==> r is Ok && ({
            let rows = gateway_views(old(db).gateways@);
            if has_key(old(db).gateways@, name@) {
                let k = key_index(old(db).gateways@, name@);
                gateway_views(final(db).gateways@) == rows.update(
                    k,
                    gateway_row(name@, table_name@, interface@, opt_str(src_ip), description@, mark, opt_str(device_name), rows[k].dns_ip),
                )
            } else {
                gateway_views(final(db).gateways@) == rows.insert(
                    count_below(old(db).gateways@, name@) as int,
                    gateway_row(name@, table_name@, interface@, opt_str(src_ip), description@, mark, opt_str(device_name), None),
                )
            }
        }),
{
    let key = name.to_owned();
    let mut i: usize = 0;
    while i < db.gateways.len()
        invariant
            i <= db.gateways@.len(),
            key@ == name@,
            *db == *old(db),
            db.wf(),
            forall|j: int| 0 <= j < i ==> !(#[trigger] db.gateways@[j].mark == mark && db.gateways@[j].name@ != name@),
        decreases db.gateways.len() - i,
    {
        if db.gateways[i].mark == mark && !(db.gateways[i].name == key) {
            return Err(StoreError::MarkInUse);
        }
        i = i + 1;
    }
    let loc = locate(&db.gateways, &key);
    let dns = match loc {
        Ok(k) => clone_opt(&db.gateways[k].dns_ip),
        Err(_) => None,
    };
    let g = Gateway {
        name: key,
        table_name: table_name.to_owned(),
        interface: interface.to_owned(),
        src_ip: own(src_ip),
        description: Some(description.to_owned()),
        mark,
        dns_ip: dns,
        device_name: own(device_name),
    };
    let ghost before = db.gateways@;
    put_row(&mut db.gateways, g);
    proof {
        let after = db.gateways@;
        if has_key(before, name@) {
            let k = key_index(before, name@);
            assert(gateway_views(after) =~= gateway_views(before).update(k, g@));
            assert forall|a: int, b: int| 0 <= a < after.len() && 0 <= b < after.len() && a != b implies #[trigger] after[a].mark != #[trigger] after[b].mark by {
                if a != k && b != k {
                    assert(after[a] == before[a] && after[b] == before[b]);
                } else if a == k {
                    assert(after[b] == before[b]);
                    if after[b].mark == mark {
                        assert(before[b].name@ == name@);
                        crate::order::lemma_key_unique(before, b, k);
                    }
                } else {
                    assert(after[a] == before[a]);
                    if after[a].mark == mark {
                        assert(before[a].name@ == name@);
                        crate::order::lemma_key_unique(before, a, k);
                    }
                }
            }
        } else {
            let p = count_below(before, name@) as int;
            crate::order::lemma_count_below_le(before, name@);
            assert(gateway_views(after) =~= gateway_views(before).insert(p, g@));
            assert forall|a: int, b: int| 0 <= a < after.len() && 0 <= b < after.len() && a != b implies #[trigger] after[a].mark != #[trigger] after[b].mark by {
                let a0 = if a < p { a } else { a - 1 };
                let b0 = if b < p { b } else { b - 1 };
                if a != p && b != p {
                    assert(after[a] == before[a0] && after[b] == before[b0]);
                } else if a == p {
                    assert(after[b] == before[b0]);
                    if after[b].mark == mark {
                        assert(before[b0].key_of() == name@);
                        assert(has_key(before, name@));
                    }
                } else {
                    assert(after[a] == before[a0]);
                    if after[a].mark == mark {
                        assert(before[a0].key_of() == name@);
                        assert(has_key(before, name@));
                    }
                }
            }
        }
    }
    Ok(())
}

/// Some gateway uses the mark.
pub open spec fn mark_in_use(gs: Seq<Gateway>, mark: i64) -> bool {
    exists|i: int| 0 <= i < gs.len() && #[trigger] gs[i].mark == mark
}

/// Adds a gateway unless its name or its mark is taken already (an insert
/// that ignores conflicts); returns whether it was added.
pub fn insert_gateway_if_absent(
    db: &mut Database,
    name: &str,
    table_name: &str,
    interface: &str,
    src_ip: Option<&str>,
    description: &str,
    mark: i64,
) -> (inserted: bool)
    requires
        old(db).wf(),
    ensures
        final(db).wf(),
        only_gateways_changed(*old(db), *final(db)),
        inserted == (!has_key(old(db).gateways@, name@) && !mark_in_use(old(db).gateways@, mark)),
        inserted ==> gateway_views(final(db).gateways@) == gateway_views(old(db).gateways@).insert(
            count_below(old(db).gateways@, name@) as int,
            gateway_row(name@, table_name@, interface@, opt_str(src_ip), description@, mark, None, None),
        ),
        !inserted ==> final(db).gateways == old(db).gateways,
{
    let key = name.to_owned();
    let mut i: usize = 0;
    while i < db.gateways.len()
        invariant
            i <= db.gateways@.len(),
            *db == *old(db),
            db.wf(),
            forall|j: int| 0 <= j < i ==> #[trigger] db.gateways@[j].mark != mark,
        decreases db.gateways.len() - i,
    {
        if db.gateways[i].mark == mark {
            proof {
                assert(mark_in_use(db.gateways@, mark));
            }
            return false;
        }
        i = i + 1;
    }
    match locate(&db.gateways, &key) {
        Ok(_) => false,
        Err(_) => {
            let g = Gateway {
                name: key,
                table_name: table_name.to_owned(),
                interface: interface.to_owned(),
                src_ip: own(src_ip),
                description: Some(description.to_owned()),
                mark,
                dns_ip: None,
                device_name: None,
            };
            let ghost before = db.gateways@;
            put_row(&mut db.gateways, g);
            proof {
                let after = db.gateways@;
                let p = count_below(before, name@) as int;
                crate::order::lemma_count_below_le(before, name@);
                assert(gateway_views(after) =~= gateway_views(before).insert(p, g@));
                assert forall|a: int, b: int| 0 <= a < after.len() && 0 <= b < after.len() && a != b implies #[trigger] after[a].mark != #[trigger] after[b].mark by {
                    let a0 = if a < p { a } else { a - 1 };
                    let b0 = if b < p { b } else { b - 1 };
                    if a != p && b != p {
                        assert(after[a] == before[a0] && after[b] == before[b0]);
                    } else if a == p {
                        assert(after[b] == before[b0]);
                    } else {
                        assert(after[a] == before[a0]);
                    }
                }
            }
            true
        },
    }
}

/// Tags an interface as external: a new entry is enabled, an existing one
/// keeps its enabled flag.
pub fn mark_interface_extern(db: &mut Database, name: &str)
    requires
        old(db).wf(),
    ensures
        final(db).wf(),
        only_meta_changed(*old(db), *final(db)),
        ({
            let rows = meta_views(old(db).interface_meta@);
            if has_key(old(db).interface_meta@, name@) {
                let k = key_index(old(db).interface_meta@, name@);
                meta_views(final(db).interface_meta@) == rows.update(k, InterfaceMetaV { role: "extern"@, ..rows[k] })
            } else {
                meta_views(final(db).interface_meta@) == rows.insert(
                    count_below(old(db).interface_meta@, name@) as int,
                    InterfaceMetaV { name: name@, role: "extern"@, enabled: 1 },
                )
            }
        }),
{
    let key = name.to_owned();
    let enabled = match locate(&db.interface_meta, &key) {
        Ok(k) => db.interface_meta[k].enabled,
        Err(_) => 1,
    };
    let m = InterfaceMeta { name: key, role: String::from_str("extern"), enabled };
    let ghost before = db.interface_meta@;
    put_row(&mut db.interface_meta, m);
    proof {
        if has_key(before, name@) {
            assert(meta_views(db.interface_meta@) =~= meta_views(before).update(key_index(before, name@), m@));
        } else {
            assert(meta_views(db.interface_meta@) =~= meta_views(before).insert(count_below(before, name@) as int, m@));
        }
    }
}

/// The built-in gateways: name, table, interface, source address, description, mark.
pub open spec fn seed_rows() -> Seq<(Seq<char>, Seq<char>, Seq<char>, Option<Seq<char>>, Seq<char>, i64)> {
    seq![
        ("gre_175"@, "gre_175"@, "gre_fiber"@, Some("5.230.119.175"@), "GRE Fiber – öffentliche IP .175 (Standard)"@, 175),
        ("gre_214"@, "gre_214"@, "gre_fiber"@, Some("5.230.119.214"@), "GRE Fiber – öffentliche IP .214"@, 214),
        ("gre_215"@, "gre_215"@, "gre_fiber"@, Some("5.230.119.215"@), "GRE Fiber – öffentliche IP .215"@, 215),
        ("webgate"@, "webgate"@, "vpnagn"@, None, "Webgate VPN"@, 207),
        ("stargate"@, "stargate"@, "enp1s0.12"@, None, "Starlink-Uplink (via VLAN 12)"@, 208),
        ("buda"@, "buda"@, "buda"@, None, "Budapest Tunnel"@, 203),
        ("mobile"@, "mobile"@, "mobile"@, None, "WireGuard Roadwarrior"@, 209),
        ("ppp0"@, "main"@, "ppp0"@, None, "Direkt über DSL (ppp0)"@, 100),
        ("nointernet"@, "nointernet"@, "lo"@, None, "Kein Internet – nur LAN"@, 212),
    ]
}

/// One of the built-in gateways.
pub open spec fn is_seed_name(name: Seq<char>) -> bool {
    exists|i: int| 0 <= i < seed_rows().len() && (#[trigger] seed_rows()[i]).0 == name
}

/// Whether `name` is one of the built-in gateways.
pub fn is_seeded_gateway(name: &str) -> (r: bool)
    ensures
        r == is_seed_name(name@),
{
    let r = crate::text::str_eq(name, "gre_175") || crate::text::str_eq(name, "gre_214") || crate::text::str_eq(name, "gre_215") || crate::text::str_eq(name, "webgate") || crate::text::str_eq(name, "stargate") || crate::text::str_eq(name, "buda") || crate::text::str_eq(name, "mobile") || crate::text::str_eq(name, "ppp0") || crate::text::str_eq(name, "nointernet");
    proof {
        let rows = seed_rows();
        assert(rows.len() == 9);
        assert(rows[0].0 == "gre_175"@);
        assert(rows[1].0 == "gre_214"@);
        assert(rows[2].0 == "gre_215"@);
        assert(rows[3].0 == "webgate"@);
        assert(rows[4].0 == "stargate"@);
        assert(rows[5].0 == "buda"@);
        assert(rows[6].0 == "mobile"@);
        assert(rows[7].0 == "ppp0"@);
        assert(rows[8].0 == "nointernet"@);
    }
    r
}

/// The row that `seed_gateways` adds for built-in gateway `i`.
pub open spec fn seed_view(i: int) -> GatewayV {
    let s = seed_rows()[i];
    gateway_row(s.0, s.1, s.2, s.3, s.4, s.5, None, None)
}

/// Built-in gateway `i` is added to the table `gs`: its name is free and its
/// mark unused.
pub open spec fn seed_added(gs: Seq<Gateway>, i: int) -> bool {
    !has_key(gs, seed_rows()[i].0) && !mark_in_use(gs, seed_rows()[i].5)
}

/// The row of the gateway named `k`.
pub open spec fn row_of(gs: Seq<Gateway>, k: Seq<char>) -> GatewayV {
    gs[key_index(gs, k)]@
}

/// The meta row of the interface named `k`.
pub open spec fn meta_row_of(ms: Seq<InterfaceMeta>, k: Seq<char>) -> InterfaceMetaV {
    ms[key_index(ms, k)]@
}

/// An interface of a built-in gateway other than `lo`.
pub open spec fn is_seed_iface(k: Seq<char>) -> bool {
    exists|j: int| 0 <= j < seed_rows().len() && (#[trigger] seed_rows()[j]).2 == k && k != "lo"@
}

/// The meta row of interface `k` tagged external: its old row with role
/// `extern`, or a new enabled one.
pub open spec fn extern_row(ms: Seq<InterfaceMeta>, k: Seq<char>) -> InterfaceMetaV {
    if has_key(ms, k) {
        InterfaceMetaV { role: "extern"@, ..meta_row_of(ms, k) }
    } else {
        InterfaceMetaV { name: k, role: "extern"@, enabled: 1 }
    }
}

/// Every built-in gateway is there (or its mark is taken), and every interface
/// of one, but `lo`, has a meta row with role `extern`.
pub open spec fn seeding_done(gs: Seq<Gateway>, ms: Seq<InterfaceMeta>) -> bool {
    &&& forall|i: int| 0 <= i < seed_rows().len() ==> has_key(gs, (#[trigger] seed_rows()[i]).0)
        || mark_in_use(gs, seed_rows()[i].5)
    &&& forall|i: int| 0 <= i < seed_rows().len() && (#[trigger] seed_rows()[i]).2 != "lo"@ ==> has_key(ms, seed_rows()[i].2)
        && meta_row_of(ms, seed_rows()[i].2).role == "extern"@
}

/// The built-in gateways differ in name and in mark.
proof fn lemma_seed_rows_distinct()
    ensures
        seed_rows().len() == 9,
        forall|i: int, j: int| 0 <= i < 9 && 0 <= j < 9 && i != j ==> (#[trigger] seed_rows()[i]).0 != (#[trigger] seed_rows()[j]).0
            && seed_rows()[i].5 != seed_rows()[j].5,
{
    reveal_strlit("gre_175");
    reveal_strlit("gre_214");
    reveal_strlit("gre_215");
    reveal_strlit("webgate");
    reveal_strlit("stargate");
    reveal_strlit("buda");
    reveal_strlit("mobile");
    reveal_strlit("ppp0");
    reveal_strlit("nointernet");
    let s = seed_rows();
    assert forall|i: int, j: int| 0 <= i < 9 && 0 <= j < 9 && i != j implies (#[trigger] s[i]).0 != (#[trigger] s[j]).0
        && s[i].5 != s[j].5 by {
        if s[i].0 == s[j].0 {
            assert(s[i].0.len() == s[j].0.len());
            assert(s[i].0[0] == s[j].0[0]);
            assert(s[i].0[4] == s[j].0[4]);
            assert(s[i].0[6] == s[j].0[6]);
        }
    }
}

/// The fields of built-in gateway `i`.
fn seed_row(i: usize) -> (r: (&'static str, &'static str, &'static str, Option<&'static str>, &'static str, i64))
    requires
        i < 9,
    ensures
        r.0@ == seed_rows()[i as int].0,
        r.1@ == seed_rows()[i as int].1,
        r.2@ == seed_rows()[i as int].2,
        opt_str(r.3) == seed_rows()[i as int].3,
        r.4@ == seed_rows()[i as int].4,
        r.5 == seed_rows()[i as int].5,
{
    match i {
        0 => ("gre_175", "gre_175", "gre_fiber", Some("5.230.119.175"), "GRE Fiber – öffentliche IP .175 (Standard)", 175),
        1 => ("gre_214", "gre_214", "gre_fiber", Some("5.230.119.214"), "GRE Fiber – öffentliche IP .214", 214),
        2 => ("gre_215", "gre_215", "gre_fiber", Some("5.230.119.215"), "GRE Fiber – öffentliche IP .215", 215),
        3 => ("webgate", "webgate", "vpnagn", None, "Webgate VPN", 207),
        4 => ("stargate", "stargate", "enp1s0.12", None, "Starlink-Uplink (via VLAN 12)", 208),
        5 => ("buda", "buda", "buda", None, "Budapest Tunnel", 203),
        6 => ("mobile", "mobile", "mobile", None, "WireGuard Roadwarrior", 209),
        7 => ("ppp0", "main", "ppp0", None, "Direkt über DSL (ppp0)", 100),
        _ => ("nointernet", "nointernet", "lo", None, "Kein Internet – nur LAN", 212),
    }
}

/// What inserting a gateway row where its name sorts does to the keys, the
/// rows of other names and the marks in use.
proof fn lemma_gateway_insert(before: Seq<Gateway>, after: Seq<Gateway>, row: GatewayV)
    requires
        keys_sorted(before),
        keys_sorted(after),
        !has_key(before, row.name),
        gateway_views(after) == gateway_views(before).insert(count_below(before, row.name) as int, row),
    ensures
        forall|k: Seq<char>| has_key(after, k) <==> (has_key(before, k) || k == row.name),
        forall|k: Seq<char>| has_key(before, k) ==> row_of(after, k) == row_of(before, k),
        has_key(after, row.name),
        row_of(after, row.name) == row,
        forall|m: i64| mark_in_use(after, m) <==> (mark_in_use(before, m) || m == row.mark),
{
    let p = count_below(before, row.name) as int;
    crate::order::lemma_count_below_le(before, row.name);
    let gv = gateway_views(after);
    let bv = gateway_views(before);
    assert(gv.len() == after.len());
    assert(after.len() == before.len() + 1);
    assert forall|j: int| 0 <= j < after.len() implies #[trigger] after[j]@ == (if j < p {
        before[j]@
    } else if j == p {
        row
    } else {
        before[j - 1]@
    }) by {
        assert(gv[j] == after[j]@);
        if j < p {
            assert(bv[j] == before[j]@);
        } else if j > p {
            assert(bv[j - 1] == before[j - 1]@);
        }
    }
    assert(after[p]@ == row);
    assert(after[p].key_of() == row.name);
    assert forall|k: Seq<char>| has_key(after, k) <==> (has_key(before, k) || k == row.name) by {
        if has_key(after, k) {
            let j = choose|j: int| 0 <= j < after.len() && #[trigger] after[j].key_of() == k;
            assert(after[j]@.name == k);
            if j < p {
                assert(before[j].key_of() == k);
            } else if j > p {
                assert(before[j - 1].key_of() == k);
            }
        }
        if has_key(before, k) {
            let j = choose|j: int| 0 <= j < before.len() && #[trigger] before[j].key_of() == k;
            let j2 = if j < p { j } else { j + 1 };
            assert(after[j2]@ == before[j]@);
            assert(after[j2].key_of() == k);
        }
    }
    assert forall|k: Seq<char>| has_key(before, k) implies row_of(after, k) == row_of(before, k) by {
        let j = key_index(before, k);
        let j2 = if j < p { j } else { j + 1 };
        assert(before[j].key_of() == k);
        assert(after[j2]@ == before[j]@);
        assert(after[j2].key_of() == k);
        assert(has_key(after, k));
        let q = key_index(after, k);
        crate::order::lemma_key_unique(after, j2, q);
    }
    let q = key_index(after, row.name);
    crate::order::lemma_key_unique(after, p, q);
    assert forall|m: i64| mark_in_use(after, m) <==> (mark_in_use(before, m) || m == row.mark) by {
        if mark_in_use(after, m) {
            let j = choose|j: int| 0 <= j < after.len() && #[trigger] after[j].mark == m;
            assert(after[j]@.mark == m);
            if j < p {
                assert(before[j].mark == m);
            } else if j > p {
                assert(before[j - 1].mark == m);
            }
        }
        if mark_in_use(before, m) {
            let j = choose|j: int| 0 <= j < before.len() && #[trigger] before[j].mark == m;
            let j2 = if j < p { j } else { j + 1 };
            assert(after[j2]@ == before[j]@);
            assert(after[j2].mark == m);
        }
        if m == row.mark {
            assert(after[p].mark == m);
        }
    }
}

/// What tagging an interface external does to the meta rows.
proof fn lemma_meta_extern(before: Seq<InterfaceMeta>, after: Seq<InterfaceMeta>, name: Seq<char>)
    requires
        keys_sorted(before),
        keys_sorted(after),
        ({
            let rows = meta_views(before);
            if has_key(before, name) {
                let k = key_index(before, name);
                meta_views(after) == rows.update(k, InterfaceMetaV { role: "extern"@, ..rows[k] })
            } else {
                meta_views(after) == rows.insert(
                    count_below(before, name) as int,
                    InterfaceMetaV { name: name, role: "extern"@, enabled: 1 },
                )
            }
        }),
    ensures
        forall|k: Seq<char>| has_key(after, k) <==> (has_key(before, k) || k == name),
        forall|k: Seq<char>| has_key(before, k) && k != name ==> meta_row_of(after, k) == meta_row_of(before, k),
        has_key(after, name),
        meta_row_of(after, name) == extern_row(before, name),
        has_key(before, name) && meta_row_of(before, name).role == "extern"@ ==> meta_views(after) == meta_views(before),
{
    let mv = meta_views(after);
    let bv = meta_views(before);
    assert(mv.len() == after.len());
    if has_key(before, name) {
        let p = key_index(before, name);
        assert(after.len() == before.len());
        assert forall|j: int| 0 <= j < after.len() implies #[trigger] after[j]@ == (if j == p {
            InterfaceMetaV { role: "extern"@, ..before[p]@ }
        } else {
            before[j]@
        }) by {
            assert(mv[j] == after[j]@);
            assert(bv[j] == before[j]@);
        }
        assert forall|k: Seq<char>| has_key(after, k) <==> (has_key(before, k) || k == name) by {
            if has_key(after, k) {
                let j = choose|j: int| 0 <= j < after.len() && #[trigger] after[j].key_of() == k;
                assert(after[j]@.name == k);
                assert(before[j].key_of() == k);
            }
            if has_key(before, k) {
                let j = choose|j: int| 0 <= j < before.len() && #[trigger] before[j].key_of() == k;
                assert(after[j]@.name == before[j]@.name);
                assert(after[j].key_of() == k);
            }
        }
        assert forall|k: Seq<char>| has_key(before, k) && k != name implies meta_row_of(after, k) == meta_row_of(before, k) by {
            let j = key_index(before, k);
            assert(before[j].key_of() == k);
            assert(after[j]@.name == before[j]@.name);
            assert(after[j].key_of() == k);
            let q = key_index(after, k);
            crate::order::lemma_key_unique(after, j, q);
        }
        assert(before[p].key_of() == name);
        assert(after[p]@.name == before[p]@.name);
        assert(after[p].key_of() == name);
        let q = key_index(after, name);
        crate::order::lemma_key_unique(after, p, q);
        if meta_row_of(before, name).role == "extern"@ {
            assert(meta_views(after) =~= meta_views(before));
        }
    } else {
        let p = count_below(before, name) as int;
        crate::order::lemma_count_below_le(before, name);
        let row = InterfaceMetaV { name: name, role: "extern"@, enabled: 1 };
        assert(after.len() == before.len() + 1);
        assert forall|j: int| 0 <= j < after.len() implies #[trigger] after[j]@ == (if j < p {
            before[j]@
        } else if j == p {
            row
        } else {
            before[j - 1]@
        }) by {
            assert(mv[j] == after[j]@);
            if j < p {
                assert(bv[j] == before[j]@);
            } else if j > p {
                assert(bv[j - 1] == before[j - 1]@);
            }
        }
        assert(after[p]@ == row);
        assert(after[p].key_of() == name);
        assert forall|k: Seq<char>| has_key(after, k) <==> (has_key(before, k) || k == name) by {
            if has_key(after, k) {
                let j = choose|j: int| 0 <= j < after.len() && #[trigger] after[j].key_of() == k;
                assert(after[j]@.name == k);
                if j < p {
                    assert(before[j].key_of() == k);
                } else if j > p {
                    assert(before[j - 1].key_of() == k);
                }
            }
            if has_key(before, k) {
                let j = choose|j: int| 0 <= j < before.len() && #[trigger] before[j].key_of() == k;
                let j2 = if j < p { j } else { j + 1 };
                assert(after[j2]@ == before[j]@);
                assert(after[j2].key_of() == k);
            }
        }
        assert forall|k: Seq<char>| has_key(before, k) && k != name implies meta_row_of(after, k) == meta_row_of(before, k) by {
            let j = key_index(before, k);
            let j2 = if j < p { j } else { j + 1 };
            assert(before[j].key_of() == k);
            assert(after[j2]@ == before[j]@);
            assert(after[j2].key_of() == k);
            let q = key_index(after, k);
            crate::order::lemma_key_unique(after, j2, q);
        }
        let q = key_index(after, name);
        crate::order::lemma_key_unique(after, p, q);
    }
}

/// Built-in gateway `j < i` was added to `g0` under the name `k`.
pub open spec fn added_before(g0: Seq<Gateway>, k: Seq<char>, i: int) -> bool {
    exists|j: int| 0 <= j < i && (#[trigger] seed_rows()[j]).0 == k && seed_added(g0, j)
}

/// `k` is the interface, not `lo`, of built-in gateway `j < i`.
pub open spec fn iface_before(k: Seq<char>, i: int) -> bool {
    exists|j: int| 0 <= j < i && (#[trigger] seed_rows()[j]).2 == k && k != "lo"@
}

/// Adds the built-in gateways (`seed_rows`) that are missing: a built-in
/// gateway is added, as `seed_view` gives it, exactly when its name is free
/// and its mark unused; rows already there stay as they are. The interface of
/// every built-in gateway, but `lo`, gets the role `extern` (a new meta row is
/// enabled). Once done, seeding again changes nothing.
#[verifier::rlimit(50)]
#[verifier::spinoff_prover]
pub fn seed_gateways(db: &mut Database)
    requires
        old(db).wf(),
    ensures
        final(db).wf(),
        only_gateways_meta_changed(*old(db), *final(db)),
        forall|k: Seq<char>| has_key(final(db).gateways@, k) <==> (has_key(old(db).gateways@, k)
            || added_before(old(db).gateways@, k, seed_rows().len() as int)),
        forall|k: Seq<char>| has_key(old(db).gateways@, k) ==> row_of(final(db).gateways@, k) == row_of(old(db).gateways@, k),
        forall|i: int| 0 <= i < seed_rows().len() && seed_added(old(db).gateways@, i) ==> row_of(
            final(db).gateways@,
            (#[trigger] seed_rows()[i]).0,
        ) == seed_view(i),
        forall|k: Seq<char>| has_key(final(db).interface_meta@, k) <==> (has_key(old(db).interface_meta@, k) || is_seed_iface(k)),
        forall|k: Seq<char>| has_key(final(db).interface_meta@, k) ==> meta_row_of(final(db).interface_meta@, k) == (if is_seed_iface(k) {
            extern_row(old(db).interface_meta@, k)
        } else {
            meta_row_of(old(db).interface_meta@, k)
        }),
        seeding_done(final(db).gateways@, final(db).interface_meta@),
        seeding_done(old(db).gateways@, old(db).interface_meta@) ==> final(db).gateways@ == old(db).gateways@
            && meta_views(final(db).interface_meta@) == meta_views(old(db).interface_meta@),
{
    let ghost g0 = db.gateways@;
    let ghost m0 = db.interface_meta@;
    proof {
        lemma_seed_rows_distinct();
    }
    let mut i: usize = 0;
    while i < 9
        invariant
            i <= 9,
            seed_rows().len() == 9,
            forall|a: int, b: int| 0 <= a < 9 && 0 <= b < 9 && a != b ==> (#[trigger] seed_rows()[a]).0 != (#[trigger] seed_rows()[b]).0
                && seed_rows()[a].5 != seed_rows()[b].5,
            g0 == old(db).gateways@,
            m0 == old(db).interface_meta@,
            db.wf(),
            only_gateways_meta_changed(*old(db), *db),
            forall|k: Seq<char>| has_key(db.gateways@, k) <==> (has_key(g0, k) || added_before(g0, k, i as int)),
            forall|k: Seq<char>| has_key(g0, k) ==> row_of(db.gateways@, k) == row_of(g0, k),
            forall|j: int| 0 <= j < i && seed_added(g0, j) ==> row_of(db.gateways@, (#[trigger] seed_rows()[j]).0) == seed_view(j),
            forall|m: i64| mark_in_use(db.gateways@, m) <==> (mark_in_use(g0, m) || exists|j: int|
                0 <= j < i && seed_added(g0, j) && (#[trigger] seed_rows()[j]).5 == m),
            forall|k: Seq<char>| has_key(db.interface_meta@, k) <==> (has_key(m0, k) || iface_before(k, i as int)),
            forall|k: Seq<char>| has_key(db.interface_meta@, k) ==> meta_row_of(db.interface_meta@, k) == (if iface_before(k, i as int) {
                extern_row(m0, k)
            } else {
                meta_row_of(m0, k)
            }),
            seeding_done(g0, m0) ==> db.gateways@ == g0 && meta_views(db.interface_meta@) == meta_views(m0),
        decreases 9 - i,
    {
        let r = seed_row(i);
        let ghost ii = i as int;
        let ghost name = seed_rows()[ii].0;
        let ghost mark = seed_rows()[ii].5;
        let ghost gb = db.gateways@;
        let ghost mb = db.interface_meta@;
        proof {
            assert(has_key(gb, name) <==> has_key(g0, name)) by {
                if added_before(g0, name, ii) {
                    let j = choose|j: int| 0 <= j < ii && (#[trigger] seed_rows()[j]).0 == name && seed_added(g0, j);
                    assert(seed_rows()[j].0 != seed_rows()[ii].0);
                }
            }
            assert(mark_in_use(gb, mark) <==> mark_in_use(g0, mark)) by {
                if exists|j: int| 0 <= j < ii && seed_added(g0, j) && (#[trigger] seed_rows()[j]).5 == mark {
                    let j = choose|j: int| 0 <= j < ii && seed_added(g0, j) && (#[trigger] seed_rows()[j]).5 == mark;
                    assert(seed_rows()[j].5 != seed_rows()[ii].5);
                }
            }
        }
        let inserted = insert_gateway_if_absent(db, r.0, r.1, r.2, r.3, r.4, r.5);
        proof {
            let ga = db.gateways@;
            assert(inserted == seed_added(g0, ii));
            if inserted {
                assert(seed_view(ii) == gateway_row(r.0@, r.1@, r.2@, opt_str(r.3), r.4@, r.5, None, None));
                lemma_gateway_insert(gb, ga, seed_view(ii));
            }
            assert forall|k: Seq<char>| has_key(ga, k) <==> (has_key(g0, k) || added_before(g0, k, ii + 1)) by {
                if added_before(g0, k, ii + 1) && !added_before(g0, k, ii) {
                    let j = choose|j: int| 0 <= j < ii + 1 && (#[trigger] seed_rows()[j]).0 == k && seed_added(g0, j);
                    assert(j == ii);
                }
                if inserted && k == name {
                    assert(seed_rows()[ii].0 == k);
                }
            }
            assert forall|k: Seq<char>| has_key(g0, k) implies row_of(ga, k) == row_of(g0, k) by {
                assert(has_key(gb, k));
            }
            assert forall|j: int| 0 <= j < ii + 1 && seed_added(g0, j) implies row_of(ga, (#[trigger] seed_rows()[j]).0) == seed_view(j) by {
                if j < ii {
                    assert(added_before(g0, seed_rows()[j].0, ii));
                    assert(has_key(gb, seed_rows()[j].0));
                }
            }
            assert forall|m: i64| mark_in_use(ga, m) <==> (mark_in_use(g0, m) || exists|j: int|
                0 <= j < ii + 1 && seed_added(g0, j) && (#[trigger] seed_rows()[j]).5 == m) by {
                if exists|j: int| 0 <= j < ii + 1 && seed_added(g0, j) && (#[trigger] seed_rows()[j]).5 == m {
                    let j = choose|j: int| 0 <= j < ii + 1 && seed_added(g0, j) && (#[trigger] seed_rows()[j]).5 == m;
                    if j < ii {
                        assert(exists|j2: int| 0 <= j2 < ii && seed_added(g0, j2) && (#[trigger] seed_rows()[j2]).5 == m);
                    }
                }
                if mark_in_use(gb, m) && !mark_in_use(g0, m) {
                    let j = choose|j: int| 0 <= j < ii && seed_added(g0, j) && (#[trigger] seed_rows()[j]).5 == m;
                    assert(0 <= j < ii + 1);
                }
                if inserted && m == mark {
                    assert(seed_rows()[ii].5 == m);
                }
            }
            if seeding_done(g0, m0) {
                assert(has_key(g0, seed_rows()[ii].0) || mark_in_use(g0, seed_rows()[ii].5));
            }
        }
        if !crate::text::str_eq(r.2, "lo") {
            mark_interface_extern(db, r.2);
            proof {
                let iface = seed_rows()[ii].2;
                let ma = db.interface_meta@;
                lemma_meta_extern(mb, ma, iface);
                assert(iface_before(iface, ii + 1)) by {
                    assert(seed_rows()[ii].2 == iface);
                }
                assert forall|k: Seq<char>| iface_before(k, ii + 1) <==> (iface_before(k, ii) || k == iface) by {
                    if iface_before(k, ii + 1) && !iface_before(k, ii) {
                        let j = choose|j: int| 0 <= j < ii + 1 && (#[trigger] seed_rows()[j]).2 == k && k != "lo"@;
                        assert(j == ii);
                    }
                    if k == iface {
                        assert(seed_rows()[ii].2 == k);
                    }
                }
                assert forall|k: Seq<char>| has_key(ma, k) <==> (has_key(m0, k) || iface_before(k, ii + 1)) by {
                    assert(has_key(ma, k) <==> (has_key(mb, k) || k == iface));
                    assert(iface_before(k, ii + 1) <==> (iface_before(k, ii) || k == iface));
                }
                assert forall|k: Seq<char>| has_key(ma, k) implies meta_row_of(ma, k) == (if iface_before(k, ii + 1) {
                    extern_row(m0, k)
                } else {
                    meta_row_of(m0, k)
                }) by {
                    if k == iface {
                        if has_key(mb, k) && !iface_before(k, ii) {
                            assert(has_key(m0, k));
                        }
                        if !has_key(mb, k) {
                            assert(!has_key(m0, k));
                        }
                    }
                }
                if seeding_done(g0, m0) {
                    assert(seed_rows()[ii].2 != "lo"@);
                    assert(has_key(m0, iface) && meta_row_of(m0, iface).role == "extern"@);
                    assert(has_key(mb, iface));
                }
            }
        } else {
            proof {
                assert(seed_rows()[ii].2 == "lo"@);
                assert forall|k: Seq<char>| iface_before(k, ii + 1) <==> iface_before(k, ii) by {
                    if iface_before(k, ii + 1) && !iface_before(k, ii) {
                        let j = choose|j: int| 0 <= j < ii + 1 && (#[trigger] seed_rows()[j]).2 == k && k != "lo"@;
                        assert(j == ii);
                    }
                }
                assert(db.interface_meta@ == mb);
                assert forall|k: Seq<char>| has_key(db.interface_meta@, k) <==> (has_key(m0, k) || iface_before(k, ii + 1)) by {
                    assert(iface_before(k, ii + 1) <==> iface_before(k, ii));
                }
            }
        }
        let ghost before_inc = db.interface_meta@;
        proof {
            assert(forall|k: Seq<char>| has_key(before_inc, k) <==> (has_key(m0, k) || iface_before(k, ii + 1)));
        }
        i = i + 1;
        proof {
            assert(i as int == ii + 1);
            assert forall|k: Seq<char>| has_key(db.interface_meta@, k) <==> (has_key(m0, k) || iface_before(k, i as int)) by {
                assert(has_key(before_inc, k) <==> (has_key(m0, k) || iface_before(k, ii + 1)));
            }
        }
    }
    proof {
        assert forall|k: Seq<char>| is_seed_iface(k) <==> iface_before(k, 9) by {
            if is_seed_iface(k) {
                let j = choose|j: int| 0 <= j < seed_rows().len() && (#[trigger] seed_rows()[j]).2 == k && k != "lo"@;
                assert(0 <= j < 9);
            }
        }
        let gf = db.gateways@;
        let mf = db.interface_meta@;
        assert forall|j: int| 0 <= j < seed_rows().len() implies has_key(gf, (#[trigger] seed_rows()[j]).0)
            || mark_in_use(gf, seed_rows()[j].5) by {
            if seed_added(g0, j) {
                assert(added_before(g0, seed_rows()[j].0, 9));
            } else if !has_key(g0, seed_rows()[j].0) {
                assert(mark_in_use(g0, seed_rows()[j].5));
            }
        }
        assert forall|j: int| 0 <= j < seed_rows().len() && (#[trigger] seed_rows()[j]).2 != "lo"@ implies has_key(mf, seed_rows()[j].2)
            && meta_row_of(mf, seed_rows()[j].2).role == "extern"@ by {
            assert(iface_before(seed_rows()[j].2, 9));
        }
    }
}

/// The marks of the gateways, in table order.
pub open spec fn marks_of(gs: Seq<Gateway>) -> Seq<i64> {
    Seq::new(gs.len(), |i: int| gs[i].mark)
}

/// The firewall marks in use.
pub fn gateway_marks(db: &Database) -> (r: Vec<i64>)
    ensures
        r@ == marks_of(db.gateways@),
{
    let mut r: Vec<i64> = Vec::new();
    let mut i: usize = 0;
    while i < db.gateways.len()
        invariant
            i <= db.gateways@.len(),
            r@ == marks_of(db.gateways@).subrange(0, i as int),
        decreases db.gateways.len() - i,
    {
        r.push(db.gateways[i].mark);
        i = i + 1;
        proof {
            assert(r@ =~= marks_of(db.gateways@).subrange(0, i as int));
        }
    }
    proof {
        assert(r@ =~= marks_of(db.gateways@));
    }
    r
}

/// The DNS server that the entries give the gateway `name`: the last entry
/// for that name, if any.
pub open spec fn dns_override(entries: Seq<(String, String)>, name: Seq<char>) -> Option<Seq<char>>
    decreases entries.len(),
{
    if entries.len() == 0 {
        None
    } else if entries.last().0@ == name {
        Some(entries.last().1@)
    } else {
        dns_override(entries.drop_last(), name)
    }
}

/// The gateways with the DNS servers of the entries set on them.
pub open spec fn with_dns_overrides(gs: Seq<GatewayV>, entries: Seq<(String, String)>) -> Seq<GatewayV> {
    Seq::new(
        gs.len(),
        |j: int|
            match dns_override(entries, gs[j].name) {
                Some(ip) => GatewayV { dns_ip: Some(ip), ..gs[j] },
                None => gs[j],
            },
    )
}

/// Writes the DNS part of the configuration into the store: the gateway for
/// Unbound's queries becomes the setting `unbound-gateway`, and each
/// per-gateway DNS server is set on its gateway (unknown gateways are skipped).
pub fn seed_dns(db: &mut Database, dns: &crate::config::DnsConfig)
    requires
        old(db).wf(),
    ensures
        final(db).wf(),
        frame(*old(db), *final(db), false, true, false, false, false, true, false, false, false),
        gateway_views(final(db).gateways@) == with_dns_overrides(gateway_views(old(db).gateways@), dns.gateway_dns@),
        match dns.gateway {
            Some(g) => setting_value(final(db).settings@, "unbound-gateway"@) == (if g@.len() > 0 {
                Some(g@)
            } else {
                None::<Seq<char>>
            }),
            None => final(db).settings == old(db).settings,
        },
        forall|k: Seq<char>| k != "unbound-gateway"@ ==> setting_value(final(db).settings@, k) == setting_value(old(db).settings@, k),
{
    if let Some(g) = &dns.gateway {
        set_setting(db, "unbound-gateway", g.as_str());
    }
    let ghost mid = *db;
    let ghost entries = dns.gateway_dns@;
    let mut i: usize = 0;
    proof {
        assert(entries.subrange(0, 0).len() == 0);
        assert(with_dns_overrides(gateway_views(mid.gateways@), entries.subrange(0, 0)) =~= gateway_views(mid.gateways@));
    }
    while i < dns.gateway_dns.len()
        invariant
            i <= dns.gateway_dns@.len(),
            entries == dns.gateway_dns@,
            db.wf(),
            frame(mid, *db, false, true, false, false, false, false, false, false, false),
            gateway_views(db.gateways@) == with_dns_overrides(gateway_views(mid.gateways@), entries.subrange(0, i as int)),
        decreases dns.gateway_dns.len() - i,
    {
        let (name, ip) = &dns.gateway_dns[i];
        let ghost before = db.gateways@;
        let found = set_gateway_dns_ip(db, name.as_str(), Some(ip.as_str()));
        proof {
            let e0 = entries.subrange(0, i as int);
            let e1 = entries.subrange(0, i + 1);
            assert(e1.drop_last() =~= e0);
            assert(e1.last() == entries[i as int]);
            let gm = gateway_views(mid.gateways@);
            assert(gateway_views(before) == with_dns_overrides(gm, e0));
            assert(gateway_views(before).len() == before.len());
            assert(with_dns_overrides(gm, e0).len() == gm.len());
            assert(before.len() == gm.len());
            assert forall|j: int| 0 <= j < gm.len() implies #[trigger] with_dns_overrides(gm, e1)[j]
                == gateway_views(db.gateways@)[j] by {
                assert(gateway_views(before)[j] == before[j]@);
                assert(before[j]@ == with_dns_overrides(gm, e0)[j]);
                assert(before[j]@.name == gm[j].name);
                if found {
                    let k = key_index(before, name@);
                    if j != k {
                        if before[j].key_of() == name@ {
                            crate::order::lemma_key_unique(before, j, k);
                        }
                    }
                } else {
                    assert(before[j].key_of() != name@);
                }
            }
            assert(with_dns_overrides(gm, e1) =~= gateway_views(db.gateways@));
        }
        i = i + 1;
    }
    proof {
        assert(entries.subrange(0, i as int) =~= entries);
    }
}

/// All gateways, ascending by name.
pub fn list_gateways(db: &Database) -> (r: Vec<Gateway>)
    requires
        db.wf(),
    ensures
        gateway_views(r@) == gateway_views(db.gateways@),
{
    let mut r: Vec<Gateway> = Vec::new();
    let mut i: usize = 0;
    while i < db.gateways.len()
        invariant
            i <= db.gateways@.len(),
            gateway_views(r@) == gateway_views(db.gateways@.subrange(0, i as int)),
        decreases db.gateways.len() - i,
    {
        let ghost before = gateway_views(r@);
        r.push(db.gateways[i].copy());
        proof {
            assert(gateway_views(r@) =~= before.push(db.gateways@[i as int]@));
        }
        i = i + 1;
        proof {
            assert(gateway_views(r@) =~= gateway_views(db.gateways@.subrange(0, i as int)));
        }
    }
    proof {
        assert(db.gateways@.subrange(0, db.gateways@.len() as int) =~= db.gateways@);
    }
    r
}

/// The gateway named `name`, if any.
pub fn get_gateway(db: &Database, name: &str) -> (r: Option<Gateway>)
    requires
        db.wf(),
    ensures
        has_key(db.gateways@, name@) ==> r is Some && r->0@ == db.gateways@[key_index(db.gateways@, name@)]@,
        !has_key(db.gateways@, name@) ==> r is None,
{
    let key = name.to_owned();
    match locate(&db.gateways, &key) {
        Ok(i) => Some(db.gateways[i].copy()),
        Err(_) => None,
    }
}

/// Sets or clears the DNS server of a gateway; returns whether it exists.
pub fn set_gateway_dns_ip(db: &mut Database, name: &str, dns_ip: Option<&str>) -> (found: bool)
    requires
        old(db).wf(),
    ensures
        final(db).wf(),
        only_gateways_changed(*old(db), *final(db)),
        found == has_key(old(db).gateways@, name@),
        found ==> ({
            let k = key_index(old(db).gateways@, name@);
            gateway_views(final(db).gateways@) == gateway_views(old(db).gateways@).update(
                k,
                GatewayV { dns_ip: opt_str(dns_ip), ..old(db).gateways@[k]@ },
            )
        }),
        !found ==> final(db).gateways == old(db).gateways,
{
    let key = name.to_owned();
    match locate(&db.gateways, &key) {
        Ok(i) => {
            let g = db.gateways[i].copy();
            let g2 = Gateway { dns_ip: own(dns_ip), ..g };
            proof {
                lemma_update_sorted(db.gateways@, i as int, g2);
            }
            let ghost before = db.gateways@;
            db.gateways.set(i, g2);
            proof {
                assert(gateway_views(db.gateways@) =~= gateway_views(old(db).gateways@).update(i as int, g2@));
                assert(forall|j: int| 0 <= j < db.gateways@.len() ==> #[trigger] db.gateways@[j].mark == before[j].mark);
            }
            true
        },
        Err(_) => false,
    }
}

/// Removes the gateway named `name`; returns whether there was one.
pub fn delete_gateway(db: &mut Database, name: &str) -> (found: bool)
    requires
        old(db).wf(),
    ensures
        final(db).wf(),
        only_gateways_changed(*old(db), *final(db)),
        found == has_key(old(db).gateways@, name@),
        found ==> final(db).gateways@ == old(db).gateways@.remove(key_index(old(db).gateways@, name@)),
        !found ==> final(db).gateways == old(db).gateways,
{
    let key = name.to_owned();
    let ghost before = db.gateways@;
    let found = remove_row(&mut db.gateways, &key);
    proof {
        if found {
            let k = key_index(before, name@);
            assert forall|a: int, b: int| 0 <= a < db.gateways@.len() && 0 <= b < db.gateways@.len() && a != b implies #[trigger] db.gateways@[a].mark != #[trigger] db.gateways@[b].mark by {
                let a0 = if a < k { a } else { a + 1 };
                let b0 = if b < k { b } else { b + 1 };
                assert(db.gateways@[a] == before[a0] && db.gateways@[b] == before[b0]);
            }
        }
    }
    found
}

// ---------------------------------------------------------------------------
// Settings
// ---------------------------------------------------------------------------

/// The stored value of a setting, when present and non-empty.
pub open spec fn setting_value(rows: Seq<Setting>, key: Seq<char>) -> Option<Seq<char>> {
    if has_key(rows, key) {
        let v = rows[key_index(rows, key)].value@;
        if v.len() > 0 {
            Some(v)
        } else {
            None
        }
    } else {
        None
    }
}

/// The value of a setting; an empty value counts as unset.
pub fn get_setting(db: &Database, key: &str) -> (r: Option<String>)
    requires
        db.wf(),
    ensures
        opt_view(r) == setting_value(db.settings@, key@),
{
    let k = key.to_owned();
    match locate(&db.settings, &k) {
        Ok(i) => if db.settings[i].value.as_str().is_empty() {
            None
        } else {
            Some(db.settings[i].value.clone())
        },
        Err(_) => None,
    }
}

/// Stores a setting.
pub fn set_setting(db: &mut Database, key: &str, value: &str)
    requires
        old(db).wf(),
    ensures
        final(db).wf(),
        only_settings_changed(*old(db), *final(db)),
        has_key(final(db).settings@, key@),
        final(db).settings@[key_index(final(db).settings@, key@)].value@ == value@,
        setting_value(final(db).settings@, key@) == (if value@.len() > 0 {
            Some(value@)
        } else {
            None::<Seq<char>>
        }),
        forall|k: Seq<char>| k != key@ ==> setting_value(final(db).settings@, k) == setting_value(old(db).settings@, k),
{
    let row = Setting { key: key.to_owned(), value: value.to_owned() };
    let ghost before = db.settings@;
    put_row(&mut db.settings, row);
    proof {
        let after = db.settings@;
        if has_key(before, key@) {
            let k0 = key_index(before, key@);
            assert(after[k0].key_of() == key@);
            assert(has_key(after, key@));
            crate::order::lemma_key_unique(after, key_index(after, key@), k0);
            assert forall|k: Seq<char>| k != key@ implies setting_value(after, k) == setting_value(before, k) by {
                if has_key(before, k) {
                    let j = key_index(before, k);
                    assert(j != k0);
                    assert(after[j] == before[j]);
                    crate::order::lemma_key_unique(after, key_index(after, k), j);
                }
                if has_key(after, k) {
                    let j = key_index(after, k);
                    assert(j != k0);
                    assert(before[j] == after[j]);
                }
            }
        } else {
            let p = count_below(before, key@) as int;
            crate::order::lemma_count_below_le(before, key@);
            assert(after[p].key_of() == key@);
            assert(has_key(after, key@));
            crate::order::lemma_key_unique(after, key_index(after, key@), p);
            assert forall|k: Seq<char>| k != key@ implies setting_value(after, k) == setting_value(before, k) by {
                if has_key(before, k) {
                    let j = key_index(before, k);
                    let j1 = if j < p { j } else { j + 1 };
                    assert(after[j1] == before[j]);
                    crate::order::lemma_key_unique(after, key_index(after, k), j1);
                }
                if has_key(after, k) {
                    let j = key_index(after, k);
                    assert(j != p);
                    let j0 = if j < p { j } else { j - 1 };
                    assert(before[j0] == after[j]);
                }
            }
        }
    }
}

} // verus!

verus! {

// ---------------------------------------------------------------------------
// Networks, groups, interface metadata
// ---------------------------------------------------------------------------

/// All network configurations, ascending by subnet.
pub fn list_networks(db: &Database) -> (r: Vec<NetworkConfig>)
    requires
        db.wf(),
    ensures
        network_views(r@) == network_views(db.networks@),
{
    let mut r: Vec<NetworkConfig> = Vec::new();
    let mut i: usize = 0;
    while i < db.networks.len()
        invariant
            i <= db.networks@.len(),
            network_views(r@) == network_views(db.networks@.subrange(0, i as int)),
        decreases db.networks.len() - i,
    {
        let ghost before = network_views(r@);
        r.push(db.networks[i].copy());
        proof {
            assert(network_views(r@) =~= before.push(db.networks@[i as int]@));
        }
        i = i + 1;
        proof {
            assert(network_views(r@) =~= network_views(db.networks@.subrange(0, i as int)));
        }
    }
    proof {
        assert(db.networks@.subrange(0, db.networks@.len() as int) =~= db.networks@);
    }
    r
}

/// A network configuration as `upsert_network` stores it.
pub open spec fn network_row(
    subnet: Seq<char>,
    default_gateway: Seq<char>,
    internal_only: bool,
    gateway_only: bool,
    dns_ip: Option<Seq<char>>,
) -> NetworkConfigV {
    NetworkConfigV {
        subnet,
        default_gateway,
        internal_only: if internal_only { 1 } else { 0 },
        gateway_only: if gateway_only { 1 } else { 0 },
        dns_ip,
    }
}

/// Creates or replaces the configuration of a subnet.
pub fn upsert_network(
    db: &mut Database,
    subnet: &str,
    default_gateway: &str,
    internal_only: bool,
    gateway_only: bool,
    dns_ip: Option<&str>,
)
    requires
        old(db).wf(),
    ensures
        final(db).wf(),
        only_networks_changed(*old(db), *final(db)),
        ({
            let rows = network_views(old(db).networks@);
            let row = network_row(subnet@, default_gateway@, internal_only, gateway_only, opt_str(dns_ip));
            if has_key(old(db).networks@, subnet@) {
                network_views(final(db).networks@) == rows.update(key_index(old(db).networks@, subnet@), row)
            } else {
                network_views(final(db).networks@) == rows.insert(count_below(old(db).networks@, subnet@) as int, row)
            }
        }),
{
    let n = NetworkConfig {
        subnet: subnet.to_owned(),
        default_gateway: default_gateway.to_owned(),
        internal_only: if internal_only { 1 } else { 0 },
        gateway_only: if gateway_only { 1 } else { 0 },
        dns_ip: own(dns_ip),
    };
    let ghost before = db.networks@;
    put_row(&mut db.networks, n);
    proof {
        if has_key(before, subnet@) {
            assert(network_views(db.networks@) =~= network_views(before).update(key_index(before, subnet@), n@));
        } else {
            crate::order::lemma_count_below_le(before, subnet@);
            assert(network_views(db.networks@) =~= network_views(before).insert(count_below(before, subnet@) as int, n@));
        }
    }
}

/// All groups, ascending by name.
pub fn list_groups(db: &Database) -> (r: Vec<Group>)
    requires
        db.wf(),
    ensures
        group_views(r@) == group_views(db.groups@),
{
    let mut r: Vec<Group> = Vec::new();
    let mut i: usize = 0;
    while i < db.groups.len()
        invariant
            i <= db.groups@.len(),
            group_views(r@) == group_views(db.groups@.subrange(0, i as int)),
        decreases db.groups.len() - i,
    {
        let ghost before = group_views(r@);
        r.push(db.groups[i].copy());
        proof {
            assert(group_views(r@) =~= before.push(db.groups@[i as int]@));
        }
        i = i + 1;
        proof {
            assert(group_views(r@) =~= group_views(db.groups@.subrange(0, i as int)));
        }
    }
    proof {
        assert(db.groups@.subrange(0, db.groups@.len() as int) =~= db.groups@);
    }
    r
}

/// Creates a group (failover inactive) or updates its gateway, failover
/// target and description, keeping its failover state.
pub fn upsert_group(
    db: &mut Database,
    name: &str,
    gateway: &str,
    fallback_gateway: Option<&str>,
    description: Option<&str>,
)
    requires
        old(db).wf(),
    ensures
        final(db).wf(),
        only_groups_changed(*old(db), *final(db)),
        ({
            let rows = group_views(old(db).groups@);
            if has_key(old(db).groups@, name@) {
                let k = key_index(old(db).groups@, name@);
                group_views(final(db).groups@) == rows.update(
                    k,
                    GroupV {
                        name: name@,
                        gateway: gateway@,
                        fallback_gateway: opt_str(fallback_gateway),
                        description: opt_str(description),
                        fallback_active: rows[k].fallback_active,
                    },
                )
            } else {
                group_views(final(db).groups@) == rows.insert(
                    count_below(old(db).groups@, name@) as int,
                    GroupV {
                        name: name@,
                        gateway: gateway@,
                        fallback_gateway: opt_str(fallback_gateway),
                        description: opt_str(description),
                        fallback_active: 0,
                    },
                )
            }
        }),
{
    let key = name.to_owned();
    let active = match locate(&db.groups, &key) {
        Ok(k) => db.groups[k].fallback_active,
        Err(_) => 0,
    };
    let g = Group {
        name: key,
        gateway: gateway.to_owned(),
        fallback_gateway: own(fallback_gateway),
        description: own(description),
        fallback_active: active,
    };
    let ghost before = db.groups@;
    put_row(&mut db.groups, g);
    proof {
        if has_key(before, name@) {
            assert(group_views(db.groups@) =~= group_views(before).update(key_index(before, name@), g@));
        } else {
            crate::order::lemma_count_below_le(before, name@);
            assert(group_views(db.groups@) =~= group_views(before).insert(count_below(before, name@) as int, g@));
        }
    }
}

/// Removes a group; returns whether it existed. Its clients keep their group name.
pub fn delete_group(db: &mut Database, name: &str) -> (found: bool)
    requires
        old(db).wf(),
    ensures
        final(db).wf(),
        only_groups_changed(*old(db), *final(db)),
        found == has_key(old(db).groups@, name@),
        found ==> final(db).groups@ == old(db).groups@.remove(key_index(old(db).groups@, name@)),
        !found ==> final(db).groups == old(db).groups,
{
    let key = name.to_owned();
    remove_row(&mut db.groups, &key)
}

/// A client after its group's clients move to `gateway`.
pub open spec fn with_group_gateway(c: ClientV, group: Seq<char>, gateway: Seq<char>) -> ClientV {
    if c.group_name == Some(group) {
        ClientV { gateway: gateway, ..c }
    } else {
        c
    }
}

/// Moves every client of a group to `gateway`; returns how many there are.
pub fn apply_group_gateway(db: &mut Database, group_name: &str, gateway: &str) -> (n: u64)
    requires
        old(db).wf(),
    ensures
        final(db).wf(),
        only_clients_changed(*old(db), *final(db)),
        client_views(final(db).clients@) == Seq::new(
            old(db).clients@.len(),
            |i: int| with_group_gateway(old(db).clients@[i]@, group_name@, gateway@),
        ),
        n == count_where(client_views(old(db).clients@), |c: ClientV| c.group_name == Some(group_name@)),
{
    let n = db.clients.len();
    let ghost rows = old(db).clients@;
    let ghost p = |c: ClientV| c.group_name == Some(group_name@);
    let mut count: u64 = 0;
    let mut i: usize = 0;
    while i < n
        invariant
            n == rows.len(),
            db.clients@.len() == n,
            i <= n,
            keys_sorted(db.clients@),
            only_clients_changed(*old(db), *db),
            rows == old(db).clients@,
            p == (|c: ClientV| c.group_name == Some(group_name@)),
            count == count_where(client_views(rows).subrange(0, i as int), p),
            forall|j: int| 0 <= j < n ==> #[trigger] db.clients@[j]@ == (if j < i {
                with_group_gateway(rows[j]@, group_name@, gateway@)
            } else {
                rows[j]@
            }),
        decreases n - i,
    {
        let ghost pre = client_views(rows).subrange(0, i as int);
        let ghost post = client_views(rows).subrange(0, i + 1);
        proof {
            assert(post.drop_last() =~= pre);
            assert(post.last() == rows[i as int]@);
            lemma_count_where_le(pre, p);
        }
        let c = db.clients[i].copy();
        let hit = match &c.group_name {
            Some(g) => crate::text::str_eq(g.as_str(), group_name),
            None => false,
        };
        if hit {
            let c2 = Client { gateway: gateway.to_owned(), ..c };
            proof {
                lemma_update_sorted(db.clients@, i as int, c2);
            }
            db.clients.set(i, c2);
            count = count + 1;
        }
        i = i + 1;
    }
    proof {
        assert(client_views(rows).subrange(0, n as int) =~= client_views(rows));
        assert(client_views(db.clients@) =~= Seq::new(rows.len(), |i: int| with_group_gateway(rows[i]@, group_name@, gateway@)));
    }
    count
}

/// Moves every client of the group `name` to the group's gateway; returns
/// how many clients the group has, or `None` when there is no such group.
pub fn apply_group(db: &mut Database, name: &str) -> (r: Option<u64>)
    requires
        old(db).wf(),
    ensures
        final(db).wf(),
        !has_key(old(db).groups@, name@) ==> r is None && *final(db) == *old(db),
        has_key(old(db).groups@, name@) ==> ({
            let g = old(db).groups@[key_index(old(db).groups@, name@)]@;
            &&& only_clients_changed(*old(db), *final(db))
            &&& client_views(final(db).clients@) == Seq::new(
                old(db).clients@.len(),
                |i: int| with_group_gateway(old(db).clients@[i]@, name@, g.gateway),
            )
            &&& r is Some && r->0 == count_where(client_views(old(db).clients@), |c: ClientV| c.group_name == Some(name@))
        }),
{
    let key = name.to_owned();
    match locate(&db.groups, &key) {
        Ok(i) => {
            let gateway = db.groups[i].gateway.clone();
            Some(apply_group_gateway(db, name, gateway.as_str()))
        },
        Err(_) => None,
    }
}

/// The gateway that a group's clients use: the failover target while failover
/// is active (the group gateway when it has none), else the group gateway.
pub open spec fn group_target(g: GroupV, active: bool) -> Seq<char> {
    if active {
        match g.fallback_gateway {
            Some(f) => f,
            None => g.gateway,
        }
    } else {
        g.gateway
    }
}

/// Switches a group into or out of failover: all its clients move to the
/// target gateway and the group records the state. An unknown group changes nothing.
pub fn set_group_fallback(db: &mut Database, group_name: &str, active: bool)
    requires
        old(db).wf(),
    ensures
        final(db).wf(),
        only_clients_groups_changed(*old(db), *final(db)),
        !has_key(old(db).groups@, group_name@) ==> final(db).clients == old(db).clients && final(db).groups
            == old(db).groups,
        has_key(old(db).groups@, group_name@) ==> ({
            let k = key_index(old(db).groups@, group_name@);
            let g = old(db).groups@[k]@;
            &&& client_views(final(db).clients@) == Seq::new(
                old(db).clients@.len(),
                |i: int| with_group_gateway(old(db).clients@[i]@, group_name@, group_target(g, active)),
            )
            &&& group_views(final(db).groups@) == group_views(old(db).groups@).update(
                k,
                GroupV { fallback_active: if active { 1 } else { 0 }, ..g },
            )
        }),
{
    let key = group_name.to_owned();
    match locate(&db.groups, &key) {
        Ok(k) => {
            let g = db.groups[k].copy();
            let target = if active {
                match &g.fallback_gateway {
                    Some(f) => f.clone(),
                    None => g.gateway.clone(),
                }
            } else {
                g.gateway.clone()
            };
            let ghost mid_groups = db.groups;
            apply_group_gateway(db, group_name, target.as_str());
            let g2 = Group { fallback_active: if active { 1 } else { 0 }, ..g };
            proof {
                lemma_update_sorted(db.groups@, k as int, g2);
            }
            db.groups.set(k, g2);
            proof {
                assert(group_views(db.groups@) =~= group_views(old(db).groups@).update(k as int, g2@));
            }
        },
        Err(_) => {},
    }
}

/// All interface metadata, ascending by interface name.
pub fn list_interface_meta(db: &Database) -> (r: Vec<InterfaceMeta>)
    requires
        db.wf(),
    ensures
        meta_views(r@) == meta_views(db.interface_meta@),
{
    let mut r: Vec<InterfaceMeta> = Vec::new();
    let mut i: usize = 0;
    while i < db.interface_meta.len()
        invariant
            i <= db.interface_meta@.len(),
            meta_views(r@) == meta_views(db.interface_meta@.subrange(0, i as int)),
        decreases db.interface_meta.len() - i,
    {
        let ghost before = meta_views(r@);
        r.push(db.interface_meta[i].copy());
        proof {
            assert(meta_views(r@) =~= before.push(db.interface_meta@[i as int]@));
        }
        i = i + 1;
        proof {
            assert(meta_views(r@) =~= meta_views(db.interface_meta@.subrange(0, i as int)));
        }
    }
    proof {
        assert(db.interface_meta@.subrange(0, db.interface_meta@.len() as int) =~= db.interface_meta@);
    }
    r
}

/// Sets the role and enabled state of an interface.
pub fn upsert_interface_meta(db: &mut Database, name: &str, role: &str, enabled: bool)
    requires
        old(db).wf(),
    ensures
        final(db).wf(),
        only_meta_changed(*old(db), *final(db)),
        ({
            let rows = meta_views(old(db).interface_meta@);
            let row = InterfaceMetaV { name: name@, role: role@, enabled: if enabled { 1 } else { 0 } };
            if has_key(old(db).interface_meta@, name@) {
                meta_views(final(db).interface_meta@) == rows.update(key_index(old(db).interface_meta@, name@), row)
            } else {
                meta_views(final(db).interface_meta@) == rows.insert(count_below(old(db).interface_meta@, name@) as int, row)
            }
        }),
{
    let m = InterfaceMeta { name: name.to_owned(), role: role.to_owned(), enabled: if enabled { 1 } else { 0 } };
    let ghost before = db.interface_meta@;
    put_row(&mut db.interface_meta, m);
    proof {
        if has_key(before, name@) {
            assert(meta_views(db.interface_meta@) =~= meta_views(before).update(key_index(before, name@), m@));
        } else {
            crate::order::lemma_count_below_le(before, name@);
            assert(meta_views(db.interface_meta@) =~= meta_views(before).insert(count_below(before, name@) as int, m@));
        }
    }
}

/// Removes the metadata of an interface; returns whether there was any.
pub fn delete_interface_meta(db: &mut Database, name: &str) -> (found: bool)
    requires
        old(db).wf(),
    ensures
        final(db).wf(),
        only_meta_changed(*old(db), *final(db)),
        found == has_key(old(db).interface_meta@, name@),
        found ==> final(db).interface_meta@ == old(db).interface_meta@.remove(key_index(old(db).interface_meta@, name@)),
        !found ==> final(db).interface_meta == old(db).interface_meta,
{
    let key = name.to_owned();
    remove_row(&mut db.interface_meta, &key)
}

} // verus!

verus! {

// ---------------------------------------------------------------------------
// Tunnel gateways
// ---------------------------------------------------------------------------

/// Takes a gateway out of service: its clients move to `fallback`, then the
/// gateway and the meta row of its interface `iface` are removed. When
/// `fallback` is another gateway, no client is left on the retired one.
pub fn retire_gateway(db: &mut Database, name: &str, iface: &str, fallback: &str)
    requires
        old(db).wf(),
    ensures
        final(db).wf(),
        frame(*old(db), *final(db), true, true, false, false, true, false, false, false, false),
        client_views(final(db).clients@) == Seq::new(
            old(db).clients@.len(),
            |i: int| moved_off(old(db).clients@[i]@, name@, fallback@),
        ),
        !has_key(final(db).gateways@, name@),
        has_key(old(db).gateways@, name@) ==> final(db).gateways@ == old(db).gateways@.remove(
            key_index(old(db).gateways@, name@),
        ),
        !has_key(old(db).gateways@, name@) ==> final(db).gateways == old(db).gateways,
        !has_key(final(db).interface_meta@, iface@),
        has_key(old(db).interface_meta@, iface@) ==> final(db).interface_meta@ == old(db).interface_meta@.remove(
            key_index(old(db).interface_meta@, iface@),
        ),
        !has_key(old(db).interface_meta@, iface@) ==> final(db).interface_meta == old(db).interface_meta,
        name@ != fallback@ ==> forall|i: int| 0 <= i < final(db).clients@.len() ==> (#[trigger] final(db).clients@[i]).gateway@ != name@,
{
    reassign_clients(db, name, fallback);
    let ghost mid = *db;
    proof {
        assert(client_views(db.clients@).len() == db.clients@.len());
        assert(db.clients@.len() == old(db).clients@.len());
        assert forall|i: int| 0 <= i < db.clients@.len() implies (#[trigger] db.clients@[i]).gateway@ == moved_off(old(db).clients@[i]@, name@, fallback@).gateway by {
            assert(client_views(db.clients@)[i] == db.clients@[i]@);
            assert(client_views(db.clients@)[i] == moved_off(old(db).clients@[i]@, name@, fallback@));
        }
    }
    delete_gateway(db, name);
    proof {
        lemma_removed_key_absent(mid.gateways@, name@);
    }
    let ghost mid2 = *db;
    delete_interface_meta(db, iface);
    proof {
        lemma_removed_key_absent(mid2.interface_meta@, iface@);
    }
}

/// The DNS server a tunnel gateway ends up with: the one given, else the one
/// its row had (a new row has none).
pub open spec fn tunnel_dns(rows: Seq<Gateway>, name: Seq<char>, dns_ip: Option<Seq<char>>) -> Option<Seq<char>> {
    match dns_ip {
        Some(d) => Some(d),
        None => if has_key(rows, name) {
            rows[key_index(rows, name)]@.dns_ip
        } else {
            None
        },
    }
}

/// `rows` with `row` put under `key`: replacing the row of that key, or
/// inserted where the key sorts.
pub open spec fn put_view<T: Keyed, V>(rows: Seq<T>, views: Seq<V>, key: Seq<char>, row: V) -> Seq<V> {
    if has_key(rows, key) {
        views.update(key_index(rows, key), row)
    } else {
        views.insert(count_below(rows, key) as int, row)
    }
}

/// Registers the gateway `name` of a tunnel interface `iface` that has come
/// up: routed through the table named like the interface, with `mark`, the
/// device it belongs to and (when given) its DNS server; the interface is
/// tagged external and enabled. Fails, changing nothing, when another
/// gateway already uses `mark`.
pub fn register_tunnel_gateway(
    db: &mut Database,
    name: &str,
    iface: &str,
    description: &str,
    mark: i64,
    device_name: Option<&str>,
    dns_ip: Option<&str>,
) -> (r: Result<(), StoreError>)
    requires
        old(db).wf(),
    ensures
        final(db).wf(),
        only_gateways_meta_changed(*old(db), *final(db)),
        mark_taken(old(db).gateways@, name@, mark) ==> r == Err::<(), StoreError>(StoreError::MarkInUse)
            && *final(db) == *old(db),
        !mark_taken(old(db).gateways@, name@, mark) ==> r is Ok
            && gateway_views(final(db).gateways@) == put_view(
                old(db).gateways@,
                gateway_views(old(db).gateways@),
                name@,
                gateway_row(name@, iface@, iface@, None, description@, mark, opt_str(device_name),
                    tunnel_dns(old(db).gateways@, name@, opt_str(dns_ip))),
            )
            && meta_views(final(db).interface_meta@) == put_view(
                old(db).interface_meta@,
                meta_views(old(db).interface_meta@),
                iface@,
                InterfaceMetaV { name: iface@, role: "extern"@, enabled: 1 },
            ),
{
    let ghost g0 = db.gateways@;
    let res = upsert_gateway(db, name, iface, iface, None, description, mark, device_name);
    if res.is_err() {
        return res;
    }
    let ghost g1 = db.gateways@;
    let ghost p: int = if has_key(g0, name@) { key_index(g0, name@) } else { count_below(g0, name@) as int };
    proof {
        assert(!mark_taken(g0, name@, mark));
        let row = gateway_row(name@, iface@, iface@, None, description@, mark, opt_str(device_name),
            tunnel_dns(g0, name@, None));
        if !has_key(g0, name@) {
            crate::order::lemma_count_below_le(g0, name@);
            assert(gateway_views(g1) == gateway_views(g0).insert(p, row));
        } else {
            assert(gateway_views(g1) == gateway_views(g0).update(p, row));
        }
        assert(gateway_views(g1).len() == g1.len());
        assert(0 <= p < g1.len());
        assert(gateway_views(g1)[p] == row);
        assert(gateway_views(g1)[p] == g1[p]@);
        assert(g1[p].key_of() == name@);
        assert(has_key(g1, name@));
        let q = key_index(g1, name@);
        crate::order::lemma_key_unique(g1, p, q);
    }
    if let Some(d) = dns_ip {
        set_gateway_dns_ip(db, name, Some(d));
        proof {
            assert(gateway_views(db.gateways@) =~= put_view(
                g0,
                gateway_views(g0),
                name@,
                gateway_row(name@, iface@, iface@, None, description@, mark, opt_str(device_name),
                    tunnel_dns(g0, name@, opt_str(dns_ip))),
            ));
        }
    }
    upsert_interface_meta(db, iface, "extern", true);
    proof {
        reveal_strlit("extern");
    }
    Ok(())
}

/// The name of the first gateway (in name order) on interface `iface`.
pub fn gateway_on_interface(db: &Database, iface: &str) -> (r: Option<String>)
    ensures
        r is None <==> forall|i: int| 0 <= i < db.gateways@.len() ==> (#[trigger] db.gateways@[i]).interface@ != iface@,
        r is Some ==> exists|i: int|
            0 <= i < db.gateways@.len() && (#[trigger] db.gateways@[i]).interface@ == iface@ && db.gateways@[i].name@ == r->0@
                && forall|j: int| 0 <= j < i ==> (#[trigger] db.gateways@[j]).interface@ != iface@,
{
    let mut i: usize = 0;
    while i < db.gateways.len()
        invariant
            i <= db.gateways@.len(),
            forall|j: int| 0 <= j < i ==> (#[trigger] db.gateways@[j]).interface@ != iface@,
        decreases db.gateways.len() - i,
    {
        if crate::text::str_eq(db.gateways[i].interface.as_str(), iface) {
            let r = db.gateways[i].name.clone();
            assert(db.gateways@[i as int].interface@ == iface@);
            return Some(r);
        }
        i = i + 1;
    }
    None
}

/// Retiring a tunnel gateway undoes its registration: when neither the
/// gateway nor the meta row of its interface existed before, removing them
/// again (as `retire_gateway` does) gives back the tables that
/// `register_tunnel_gateway` started from.
pub proof fn law_retire_undoes_register(
    g0: Seq<Gateway>,
    g1: Seq<Gateway>,
    m0: Seq<InterfaceMeta>,
    m1: Seq<InterfaceMeta>,
    name: Seq<char>,
    iface: Seq<char>,
    grow: GatewayV,
    mrow: InterfaceMetaV,
)
    requires
        keys_sorted(g0),
        keys_sorted(g1),
        keys_sorted(m0),
        keys_sorted(m1),
        !has_key(g0, name),
        !has_key(m0, iface),
        grow.name == name,
        mrow.name == iface,
        gateway_views(g1) == put_view(g0, gateway_views(g0), name, grow),
        meta_views(m1) == put_view(m0, meta_views(m0), iface, mrow),
    ensures
        has_key(g1, name),
        has_key(m1, iface),
        gateway_views(g1.remove(key_index(g1, name))) == gateway_views(g0),
        meta_views(m1.remove(key_index(m1, iface))) == meta_views(m0),
{
    let p = count_below(g0, name) as int;
    crate::order::lemma_count_below_le(g0, name);
    assert(gateway_views(g1).len() == g1.len());
    assert(gateway_views(g1)[p] == g1[p]@);
    assert(g1[p].key_of() == name);
    let k = key_index(g1, name);
    crate::order::lemma_key_unique(g1, p, k);
    assert(gateway_views(g1.remove(p)) =~= gateway_views(g0)) by {
        assert forall|j: int| 0 <= j < g0.len() implies gateway_views(g1.remove(p))[j] == gateway_views(g0)[j] by {
            if j < p {
                assert(gateway_views(g1)[j] == g1[j]@);
            } else {
                assert(gateway_views(g1)[j + 1] == g1[j + 1]@);
            }
        }
    }
    let q = count_below(m0, iface) as int;
    crate::order::lemma_count_below_le(m0, iface);
    assert(meta_views(m1).len() == m1.len());
    assert(meta_views(m1)[q] == m1[q]@);
    assert(m1[q].key_of() == iface);
    let l = key_index(m1, iface);
    crate::order::lemma_key_unique(m1, q, l);
    assert(meta_views(m1.remove(q)) =~= meta_views(m0)) by {
        assert forall|j: int| 0 <= j < m0.len() implies meta_views(m1.remove(q))[j] == meta_views(m0)[j] by {
            if j < q {
                assert(meta_views(m1)[j] == m1[j]@);
            } else {
                assert(meta_views(m1)[j + 1] == m1[j + 1]@);
            }
        }
    }
}

/// Removing the row with a key leaves no row with that key.
proof fn lemma_removed_key_absent<T: Keyed>(rows: Seq<T>, k: Seq<char>)
    requires
        keys_sorted(rows),
    ensures
        has_key(rows, k) ==> !has_key(rows.remove(key_index(rows, k)), k),
{
    if has_key(rows, k) {
        let p = key_index(rows, k);
        let r = rows.remove(p);
        if has_key(r, k) {
            let j = choose|j: int| 0 <= j < r.len() && #[trigger] r[j].key_of() == k;
            let j0 = if j < p { j } else { j + 1 };
            assert(rows[j0].key_of() == k);
            crate::order::lemma_key_unique(rows, j0, p);
        }
    }
}

} // verus!

verus! {

// ---------------------------------------------------------------------------
// Mullvad devices
// ---------------------------------------------------------------------------

/// Stores a WireGuard device, replacing one of the same name.
pub fn insert_mullvad_device(
    db: &mut Database,
    name: &str,
    private_key: &str,
    public_key: &str,
    address: &str,
    now: i64,
)
    requires
        old(db).wf(),
    ensures
        final(db).wf(),
        only_devices_changed(*old(db), *final(db)),
        ({
            let rows = device_views(old(db).mullvad_devices@);
            let row = MullvadDeviceV {
                name: name@,
                private_key: private_key@,
                public_key: public_key@,
                address: address@,
                created_at: now,
            };
            if has_key(old(db).mullvad_devices@, name@) {
                device_views(final(db).mullvad_devices@) == rows.update(key_index(old(db).mullvad_devices@, name@), row)
            } else {
                device_views(final(db).mullvad_devices@) == rows.insert(
                    count_below(old(db).mullvad_devices@, name@) as int,
                    row,
                )
            }
        }),
{
    let d = MullvadDevice {
        name: name.to_owned(),
        private_key: private_key.to_owned(),
        public_key: public_key.to_owned(),
        address: address.to_owned(),
        created_at: now,
    };
    let ghost before = db.mullvad_devices@;
    put_row(&mut db.mullvad_devices, d);
    proof {
        if has_key(before, name@) {
            assert(device_views(db.mullvad_devices@) =~= device_views(before).update(key_index(before, name@), d@));
        } else {
            crate::order::lemma_count_below_le(before, name@);
            assert(device_views(db.mullvad_devices@) =~= device_views(before).insert(count_below(before, name@) as int, d@));
        }
    }
}

/// The creation times of the devices, as sort keys.
pub open spec fn created_keys(rows: Seq<MullvadDevice>) -> Seq<i128> {
    Seq::new(rows.len(), |i: int| rows[i].created_at as i128)
}

/// All devices, oldest first (devices created at the same time by name).
pub fn list_mullvad_devices(db: &Database) -> (r: Vec<MullvadDevice>)
    requires
        db.wf(),
    ensures
        exists|perm: Seq<usize>| #![trigger is_stable_order(created_keys(db.mullvad_devices@), false, perm)]
            is_stable_order(created_keys(db.mullvad_devices@), false, perm) && device_views(r@) == Seq::new(
                perm.len(),
                |i: int| db.mullvad_devices@[perm[i] as int]@,
            ),
{
    let mut keys: Vec<i128> = Vec::new();
    let mut i: usize = 0;
    while i < db.mullvad_devices.len()
        invariant
            i <= db.mullvad_devices@.len(),
            keys@ == created_keys(db.mullvad_devices@).subrange(0, i as int),
        decreases db.mullvad_devices.len() - i,
    {
        keys.push(db.mullvad_devices[i].created_at as i128);
        i = i + 1;
        proof {
            assert(keys@ =~= created_keys(db.mullvad_devices@).subrange(0, i as int));
        }
    }
    proof {
        assert(keys@ =~= created_keys(db.mullvad_devices@));
    }
    let perm = stable_order(&keys, false);
    let mut r: Vec<MullvadDevice> = Vec::new();
    let mut j: usize = 0;
    while j < perm.len()
        invariant
            j <= perm@.len(),
            is_stable_order(created_keys(db.mullvad_devices@), false, perm@),
            device_views(r@) == Seq::new(j as nat, |i: int| db.mullvad_devices@[perm@[i] as int]@),
        decreases perm.len() - j,
    {
        let ghost before = device_views(r@);
        let idx = perm[j];
        proof {
            assert(perm@[j as int] < db.mullvad_devices@.len());
        }
        r.push(db.mullvad_devices[idx].copy());
        proof {
            assert(device_views(r@) =~= before.push(db.mullvad_devices@[perm@[j as int] as int]@));
        }
        j = j + 1;
        proof {
            assert(device_views(r@) =~= Seq::new(j as nat, |i: int| db.mullvad_devices@[perm@[i] as int]@));
        }
    }
    r
}

/// The device named `name`, if any.
pub fn get_mullvad_device(db: &Database, name: &str) -> (r: Option<MullvadDevice>)
    requires
        db.wf(),
    ensures
        has_key(db.mullvad_devices@, name@) ==> r is Some && r->0@ == db.mullvad_devices@[key_index(
            db.mullvad_devices@,
            name@,
        )]@,
        !has_key(db.mullvad_devices@, name@) ==> r is None,
{
    let key = name.to_owned();
    match locate(&db.mullvad_devices, &key) {
        Ok(i) => Some(db.mullvad_devices[i].copy()),
        Err(_) => None,
    }
}

/// Removes a device; returns whether it existed.
pub fn delete_mullvad_device(db: &mut Database, name: &str) -> (found: bool)
    requires
        old(db).wf(),
    ensures
        final(db).wf(),
        only_devices_changed(*old(db), *final(db)),
        found == has_key(old(db).mullvad_devices@, name@),
        found ==> final(db).mullvad_devices@ == old(db).mullvad_devices@.remove(key_index(old(db).mullvad_devices@, name@)),
        !found ==> final(db).mullvad_devices == old(db).mullvad_devices,
{
    let key = name.to_owned();
    remove_row(&mut db.mullvad_devices, &key)
}

// ---------------------------------------------------------------------------
// Monitor events
// ---------------------------------------------------------------------------

/// Appends an event to the log with the next id.
pub fn insert_monitor_event(db: &mut Database, event: &str, detail: Option<&str>, now: i64)
    requires
        old(db).wf(),
        old(db).next_event_id < i64::MAX,
    ensures
        final(db).wf(),
        frame(*old(db), *final(db), false, false, false, false, false, false, false, true, false),
        event_views(final(db).monitor_events@) == event_views(old(db).monitor_events@).push(
            MonitorEventV { id: old(db).next_event_id, ts: now, event: event@, detail: opt_str(detail) },
        ),
        final(db).next_event_id == old(db).next_event_id + 1,
{
    let e = MonitorEvent { id: db.next_event_id, ts: now, event: event.to_owned(), detail: own(detail) };
    let ghost before = event_views(db.monitor_events@);
    db.monitor_events.push(e);
    db.next_event_id = db.next_event_id + 1;
    proof {
        assert(event_views(db.monitor_events@) =~= before.push(e@));
    }
}

/// The times of the events, as sort keys.
pub open spec fn event_keys(rows: Seq<MonitorEvent>) -> Seq<i128> {
    Seq::new(rows.len(), |i: int| rows[i].ts as i128)
}

/// How many rows a limit lets through: all of them for a negative limit.
pub open spec fn limited(len: nat, limit: i64) -> nat {
    if limit < 0 || limit >= len {
        len
    } else {
        limit as nat
    }
}

/// The latest events, newest first (events of the same time in log order),
/// at most `limit` of them; a negative limit means no limit.
pub fn list_recent_events(db: &Database, limit: i64) -> (r: Vec<MonitorEvent>)
    requires
        db.wf(),
    ensures
        exists|perm: Seq<usize>| #![trigger is_stable_order(event_keys(db.monitor_events@), true, perm)]
            is_stable_order(event_keys(db.monitor_events@), true, perm) && event_views(r@) == Seq::new(
                limited(perm.len(), limit),
                |i: int| db.monitor_events@[perm[i] as int]@,
            ),
{
    let mut keys: Vec<i128> = Vec::new();
    let mut i: usize = 0;
    while i < db.monitor_events.len()
        invariant
            i <= db.monitor_events@.len(),
            keys@ == event_keys(db.monitor_events@).subrange(0, i as int),
        decreases db.monitor_events.len() - i,
    {
        keys.push(db.monitor_events[i].ts as i128);
        i = i + 1;
        proof {
            assert(keys@ =~= event_keys(db.monitor_events@).subrange(0, i as int));
        }
    }
    proof {
        assert(keys@ =~= event_keys(db.monitor_events@));
    }
    let perm = stable_order(&keys, true);
    let take: usize = if limit < 0 || limit as i128 >= perm.len() as i128 {
        perm.len()
    } else {
        limit as usize
    };
    let mut r: Vec<MonitorEvent> = Vec::new();
    let mut j: usize = 0;
    while j < take
        invariant
            take <= perm@.len(),
            take == limited(perm@.len(), limit),
            j <= take,
            is_stable_order(event_keys(db.monitor_events@), true, perm@),
            event_views(r@) == Seq::new(j as nat, |i: int| db.monitor_events@[perm@[i] as int]@),
        decreases take - j,
    {
        let ghost before = event_views(r@);
        let idx = perm[j];
        proof {
            assert(perm@[j as int] < db.monitor_events@.len());
        }
        r.push(db.monitor_events[idx].copy());
        proof {
            assert(event_views(r@) =~= before.push(db.monitor_events@[perm@[j as int] as int]@));
        }
        j = j + 1;
        proof {
            assert(event_views(r@) =~= Seq::new(j as nat, |i: int| db.monitor_events@[perm@[i] as int]@));
        }
    }
    r
}

} // verus!

verus! {

// ---------------------------------------------------------------------------
// Traffic
// ---------------------------------------------------------------------------

/// The value of a stored traffic delta.
pub struct TrafficRowV {
    pub id: i64,
    pub ip: Seq<char>,
    pub ts: i64,
    pub bytes_in: i64,
    pub bytes_out: i64,
    pub bytes_in_intern: i64,
    pub bytes_out_intern: i64,
    pub gateway: Seq<char>,
}

impl View for TrafficRow {
    type V = TrafficRowV;

    open spec fn view(&self) -> TrafficRowV {
        TrafficRowV {
            id: self.id,
            ip: self.ip@,
            ts: self.ts,
            bytes_in: self.bytes_in,
            bytes_out: self.bytes_out,
            bytes_in_intern: self.bytes_in_intern,
            bytes_out_intern: self.bytes_out_intern,
            gateway: self.gateway@,
        }
    }
}

/// The views of traffic rows.
pub open spec fn traffic_views(s: Seq<TrafficRow>) -> Seq<TrafficRowV> {
    Seq::new(s.len(), |i: int| s[i]@)
}

/// Stores one traffic delta of a client at time `now`, with the next id.
pub fn insert_traffic(
    db: &mut Database,
    ip: &str,
    bytes_in: i64,
    bytes_out: i64,
    bytes_in_intern: i64,
    bytes_out_intern: i64,
    gateway: &str,
    now: i64,
)
    requires
        old(db).wf(),
        old(db).next_traffic_id < i64::MAX,
    ensures
        final(db).wf(),
        only_traffic_changed(*old(db), *final(db)),
        traffic_views(final(db).traffic@) == traffic_views(old(db).traffic@).push(
            TrafficRowV {
                id: old(db).next_traffic_id,
                ip: ip@,
                ts: now,
                bytes_in,
                bytes_out,
                bytes_in_intern,
                bytes_out_intern,
                gateway: gateway@,
            },
        ),
        final(db).next_traffic_id == old(db).next_traffic_id + 1,
{
    let row = TrafficRow {
        id: db.next_traffic_id,
        ip: ip.to_owned(),
        ts: now,
        bytes_in,
        bytes_out,
        bytes_in_intern,
        bytes_out_intern,
        gateway: gateway.to_owned(),
    };
    let ghost before = traffic_views(db.traffic@);
    db.traffic.push(row);
    db.next_traffic_id = db.next_traffic_id + 1;
    proof {
        assert(traffic_views(db.traffic@) =~= before.push(row@));
    }
}

/// The rows kept by a cleanup: those not older than `cutoff`, in order.
pub open spec fn rows_kept(rows: Seq<TrafficRowV>, cutoff: int) -> Seq<TrafficRowV>
    decreases rows.len(),
{
    if rows.len() == 0 {
        Seq::empty()
    } else {
        let rest = rows_kept(rows.drop_last(), cutoff);
        if rows.last().ts < cutoff {
            rest
        } else {
            rest.push(rows.last())
        }
    }
}

/// Deletes the traffic rows older than `days` days before `now`; returns how many went.
pub fn cleanup_old_traffic(db: &mut Database, days: i64, now: i64) -> (n: u64)
    requires
        old(db).wf(),
        i64::MIN <= now - days * 86400 <= i64::MAX,
        i64::MIN <= days * 86400 <= i64::MAX,
    ensures
        final(db).wf(),
        only_traffic_changed(*old(db), *final(db)),
        final(db).next_traffic_id == old(db).next_traffic_id,
        traffic_views(final(db).traffic@) == rows_kept(traffic_views(old(db).traffic@), now - days * 86400),
        n == old(db).traffic@.len() - final(db).traffic@.len(),
{
    let cutoff: i64 = now - days * 86400;
    let ghost rows = traffic_views(old(db).traffic@);
    let mut kept: Vec<TrafficRow> = Vec::new();
    let mut i: usize = 0;
    let old_len = db.traffic.len();
    proof {
        assert(rows.subrange(0, 0) =~= Seq::<TrafficRowV>::empty());
        assert(traffic_views(kept@) =~= rows_kept(rows.subrange(0, 0), cutoff as int));
    }
    while i < db.traffic.len()
        invariant
            i <= db.traffic@.len(),
            db.traffic == old(db).traffic,
            old_len == db.traffic@.len(),
            rows == traffic_views(db.traffic@),
            kept@.len() <= i,
            traffic_views(kept@) == rows_kept(rows.subrange(0, i as int), cutoff as int),
        decreases db.traffic.len() - i,
    {
        let ghost pre = rows.subrange(0, i as int);
        let ghost post = rows.subrange(0, i + 1);
        proof {
            assert(post.drop_last() =~= pre);
            assert(post.last() == db.traffic@[i as int]@);
        }
        if db.traffic[i].ts >= cutoff {
            let t = &db.traffic[i];
            let row = TrafficRow {
                id: t.id,
                ip: t.ip.clone(),
                ts: t.ts,
                bytes_in: t.bytes_in,
                bytes_out: t.bytes_out,
                bytes_in_intern: t.bytes_in_intern,
                bytes_out_intern: t.bytes_out_intern,
                gateway: t.gateway.clone(),
            };
            let ghost before = traffic_views(kept@);
            kept.push(row);
            proof {
                assert(traffic_views(kept@) =~= before.push(db.traffic@[i as int]@));
            }
        }
        i = i + 1;
    }
    proof {
        assert(rows.subrange(0, old_len as int) =~= rows);
    }
    let removed = (old_len - kept.len()) as u64;
    db.traffic = kept;
    removed
}

/// Traffic of one client summed over a period (unbounded sums).
pub struct TrafficSum {
    pub ip: Seq<char>,
    pub gateway: Seq<char>,
    pub bytes_in: int,
    pub bytes_out: int,
    pub bytes_in_intern: int,
    pub bytes_out_intern: int,
}

/// The position of the sum for client `ip`.
pub open spec fn sum_index(gs: Seq<TrafficSum>, ip: Seq<char>) -> Option<int>
    decreases gs.len(),
{
    if gs.len() == 0 {
        None
    } else if gs[0].ip == ip {
        Some(0)
    } else {
        match sum_index(gs.drop_first(), ip) {
            Some(k) => Some(k + 1),
            None => None,
        }
    }
}

/// A value that a 64-bit integer holds.
pub open spec fn fits_i64(x: int) -> bool {
    i64::MIN <= x <= i64::MAX
}

/// The per-client sums of the rows newer than `since`, clients in order of
/// their first row, the gateway of each client's latest row; `None` when a
/// running sum leaves the 64-bit range.
pub open spec fn traffic_sums(rows: Seq<TrafficRowV>, since: int) -> Option<Seq<TrafficSum>>
    decreases rows.len(),
{
    if rows.len() == 0 {
        Some(Seq::empty())
    } else {
        match traffic_sums(rows.drop_last(), since) {
            None => None,
            Some(gs) => {
                let r = rows.last();
                if r.ts <= since {
                    Some(gs)
                } else {
                    match sum_index(gs, r.ip) {
                        Some(k) => {
                            let g = gs[k];
                            let s = TrafficSum {
                                ip: g.ip,
                                gateway: r.gateway,
                                bytes_in: g.bytes_in + r.bytes_in,
                                bytes_out: g.bytes_out + r.bytes_out,
                                bytes_in_intern: g.bytes_in_intern + r.bytes_in_intern,
                                bytes_out_intern: g.bytes_out_intern + r.bytes_out_intern,
                            };
                            if fits_i64(s.bytes_in) && fits_i64(s.bytes_out) && fits_i64(s.bytes_in_intern)
                                && fits_i64(s.bytes_out_intern) {
                                Some(gs.update(k, s))
                            } else {
                                None
                            }
                        },
                        None => Some(
                            gs.push(
                                TrafficSum {
                                    ip: r.ip,
                                    gateway: r.gateway,
                                    bytes_in: r.bytes_in as int,
                                    bytes_out: r.bytes_out as int,
                                    bytes_in_intern: r.bytes_in_intern as int,
                                    bytes_out_intern: r.bytes_out_intern as int,
                                },
                            ),
                        ),
                    }
                }
            },
        }
    }
}

/// The value of a summed record.
pub open spec fn record_sum(r: TrafficRecord) -> TrafficSum {
    TrafficSum {
        ip: r.ip@,
        gateway: r.gateway@,
        bytes_in: r.bytes_in as int,
        bytes_out: r.bytes_out as int,
        bytes_in_intern: r.bytes_in_intern as int,
        bytes_out_intern: r.bytes_out_intern as int,
    }
}

/// The views of summed records.
pub open spec fn record_sums(s: Seq<TrafficRecord>) -> Seq<TrafficSum> {
    Seq::new(s.len(), |i: int| record_sum(s[i]))
}

/// The total traffic of each sum, as sort keys.
pub open spec fn total_keys(s: Seq<TrafficSum>) -> Seq<i128> {
    Seq::new(s.len(), |i: int| (s[i].bytes_in + s[i].bytes_out) as i128)
}

/// A found sum index points at the sum for that client.
pub proof fn lemma_sum_index(gs: Seq<TrafficSum>, ip: Seq<char>)
    ensures
        sum_index(gs, ip) matches Some(k) ==> 0 <= k < gs.len() && gs[k].ip == ip,
    decreases gs.len(),
{
    if gs.len() > 0 && gs[0].ip != ip {
        lemma_sum_index(gs.drop_first(), ip);
    }
}

proof fn lemma_sum_index_update(gs: Seq<TrafficSum>, ip: Seq<char>, k: int, x: TrafficSum)
    requires
        sum_index(gs, ip) == Some(k),
        x.ip == ip,
    ensures
        sum_index(gs.update(k, x), ip) == Some(k),
    decreases gs.len(),
{
    lemma_sum_index(gs, ip);
    if k > 0 {
        let t = gs.drop_first();
        assert(gs[0].ip != ip);
        assert(sum_index(t, ip) == Some(k - 1));
        lemma_sum_index_update(t, ip, k - 1, x);
        assert(gs.update(k, x).drop_first() =~= t.update(k - 1, x));
    }
}

proof fn lemma_sum_index_push(gs: Seq<TrafficSum>, ip: Seq<char>, x: TrafficSum)
    requires
        sum_index(gs, ip) is None,
        x.ip == ip,
    ensures
        sum_index(gs.push(x), ip) == Some(gs.len() as int),
    decreases gs.len(),
{
    if gs.len() > 0 {
        let t = gs.drop_first();
        assert(gs.push(x).drop_first() =~= t.push(x));
        lemma_sum_index_push(t, ip, x);
    }
}

/// The bytes that a client has in the sums so far (none: zero).
pub open spec fn client_bytes(gs: Seq<TrafficSum>, ip: Seq<char>) -> (int, int) {
    match sum_index(gs, ip) {
        Some(k) => (gs[k].bytes_in, gs[k].bytes_out),
        None => (0, 0),
    }
}

/// Rows older than a day count for nothing: a row at or before the cutoff,
/// wherever it stands among the rows, leaves the day's sums as they were.
pub proof fn law_old_rows_count_nothing(rows: Seq<TrafficRowV>, p: int, r: TrafficRowV, since: int)
    requires
        0 <= p <= rows.len(),
        r.ts <= since,
    ensures
        traffic_sums(rows.insert(p, r), since) == traffic_sums(rows, since),
    decreases rows.len(),
{
    let x = rows.insert(p, r);
    if p == rows.len() {
        assert(x.drop_last() =~= rows);
        assert(x.last() == r);
    } else {
        law_old_rows_count_nothing(rows.drop_last(), p, r, since);
        assert(x.drop_last() =~= rows.drop_last().insert(p, r));
        assert(x.last() == rows.last());
    }
}

/// A row of the last day adds its bytes to its own client's sums: after it,
/// the client's received and sent bytes are what they were plus the row's.
pub proof fn law_new_row_adds_its_bytes(rows: Seq<TrafficRowV>, r: TrafficRowV, since: int)
    requires
        r.ts > since,
        traffic_sums(rows, since) is Some,
        traffic_sums(rows.push(r), since) is Some,
    ensures
        ({
            let before = client_bytes(traffic_sums(rows, since)->0, r.ip);
            let after = client_bytes(traffic_sums(rows.push(r), since)->0, r.ip);
            &&& sum_index(traffic_sums(rows.push(r), since)->0, r.ip) is Some
            &&& after.0 == before.0 + r.bytes_in
            &&& after.1 == before.1 + r.bytes_out
        }),
{
    let x = rows.push(r);
    assert(x.drop_last() =~= rows);
    assert(x.last() == r);
    let gs = traffic_sums(rows, since)->0;
    lemma_sum_index(gs, r.ip);
    match sum_index(gs, r.ip) {
        Some(k) => {
            let g = gs[k];
            let s = TrafficSum {
                ip: g.ip,
                gateway: r.gateway,
                bytes_in: g.bytes_in + r.bytes_in,
                bytes_out: g.bytes_out + r.bytes_out,
                bytes_in_intern: g.bytes_in_intern + r.bytes_in_intern,
                bytes_out_intern: g.bytes_out_intern + r.bytes_out_intern,
            };
            lemma_sum_index_update(gs, r.ip, k, s);
        },
        None => {
            let s = TrafficSum {
                ip: r.ip,
                gateway: r.gateway,
                bytes_in: r.bytes_in as int,
                bytes_out: r.bytes_out as int,
                bytes_in_intern: r.bytes_in_intern as int,
                bytes_out_intern: r.bytes_out_intern as int,
            };
            lemma_sum_index_push(gs, r.ip, s);
        },
    }
}

/// The sums in the order that `perm` gives.
pub open spec fn arrange_sums(sums: Seq<TrafficSum>, perm: Seq<usize>) -> Seq<TrafficSum> {
    Seq::new(perm.len(), |i: int| sums[perm[i] as int])
}

fn find_sum(acc: &Vec<TrafficRecord>, ip: &String) -> (r: Option<usize>)
    ensures
        match sum_index(record_sums(acc@), ip@) {
            Some(k) => r == Some(k as usize),
            None => r is None,
        },
{
    let ghost s = record_sums(acc@);
    let mut i: usize = 0;
    proof {
        assert(s.subrange(0, s.len() as int) =~= s);
    }
    while i < acc.len()
        invariant
            i <= acc@.len(),
            s == record_sums(acc@),
            forall|j: int| 0 <= j < i ==> #[trigger] s[j].ip != ip@,
            sum_index(s, ip@) == (match sum_index(s.subrange(i as int, s.len() as int), ip@) {
                Some(k) => Some(k + i),
                None => None,
            }),
        decreases acc.len() - i,
    {
        let ghost rest = s.subrange(i as int, s.len() as int);
        proof {
            assert(rest.drop_first() =~= s.subrange(i + 1, s.len() as int));
            assert(rest[0] == s[i as int]);
        }
        if acc[i].ip == *ip {
            return Some(i);
        }
        i = i + 1;
    }
    None
}

/// Traffic per client over the day before `now`, busiest first (clients
/// with equal totals in order of their first row). Fails when a sum
/// overflows a 64-bit integer.
pub fn get_traffic_24h(db: &Database, now: i64) -> (r: Result<Vec<TrafficRecord>, StoreError>)
    requires
        db.wf(),
    ensures
        traffic_sums(traffic_views(db.traffic@), now - 86400) is None ==> r == Err::<Vec<TrafficRecord>, StoreError>(
            StoreError::SumOverflow,
        ),
        traffic_sums(traffic_views(db.traffic@), now - 86400) matches Some(sums) ==> r matches Ok(v) && exists|
            perm: Seq<usize>,
        | #![trigger is_stable_order(total_keys(sums), true, perm)]
            is_stable_order(total_keys(sums), true, perm) && record_sums(v@) == arrange_sums(sums, perm),
{
    let since: i128 = now as i128 - 86400;
    let ghost rows = traffic_views(db.traffic@);
    let mut acc: Vec<TrafficRecord> = Vec::new();
    let mut i: usize = 0;
    proof {
        assert(rows.subrange(0, 0) =~= Seq::<TrafficRowV>::empty());
        assert(record_sums(acc@) =~= Seq::<TrafficSum>::empty());
    }
    while i < db.traffic.len()
        invariant
            i <= db.traffic@.len(),
            rows == traffic_views(db.traffic@),
            since == now - 86400,
            traffic_sums(rows.subrange(0, i as int), since as int) == Some(record_sums(acc@)),
        decreases db.traffic.len() - i,
    {
        let ghost pre = rows.subrange(0, i as int);
        let ghost post = rows.subrange(0, i + 1);
        proof {
            assert(post.drop_last() =~= pre);
            assert(post.last() == db.traffic@[i as int]@);
        }
        let t = &db.traffic[i];
        if (t.ts as i128) > since {
            let found = find_sum(&acc, &t.ip);
            proof {
                lemma_sum_index(record_sums(acc@), t.ip@);
            }
            match found {
                Some(k) => {
                    let g = &acc[k];
                    let bi = g.bytes_in.checked_add(t.bytes_in);
                    let bo = g.bytes_out.checked_add(t.bytes_out);
                    let bii = g.bytes_in_intern.checked_add(t.bytes_in_intern);
                    let boi = g.bytes_out_intern.checked_add(t.bytes_out_intern);
                    if bi.is_none() || bo.is_none() || bii.is_none() || boi.is_none() {
                        proof {
                            assert(traffic_sums(post, since as int) is None);
                            lemma_sums_stay_none(rows, i as int + 1, since as int);
                            assert(rows.subrange(0, rows.len() as int) =~= rows);
                        }
                        return Err(StoreError::SumOverflow);
                    }
                    let rec = TrafficRecord {
                        ip: g.ip.clone(),
                        gateway: t.gateway.clone(),
                        bytes_in: bi.unwrap(),
                        bytes_out: bo.unwrap(),
                        bytes_in_intern: bii.unwrap(),
                        bytes_out_intern: boi.unwrap(),
                    };
                    let ghost before = record_sums(acc@);
                    acc.set(k, rec);
                    proof {
                        assert(record_sums(acc@) =~= before.update(k as int, record_sum(rec)));
                    }
                },
                None => {
                    let rec = TrafficRecord {
                        ip: t.ip.clone(),
                        gateway: t.gateway.clone(),
                        bytes_in: t.bytes_in,
                        bytes_out: t.bytes_out,
                        bytes_in_intern: t.bytes_in_intern,
                        bytes_out_intern: t.bytes_out_intern,
                    };
                    let ghost before = record_sums(acc@);
                    acc.push(rec);
                    proof {
                        assert(record_sums(acc@) =~= before.push(record_sum(rec)));
                    }
                },
            }
        }
        i = i + 1;
    }
    proof {
        assert(rows.subrange(0, db.traffic@.len() as int) =~= rows);
    }
    let ghost sums = record_sums(acc@);
    assert(traffic_sums(traffic_views(db.traffic@), now - 86400) == Some(sums));
    let mut keys: Vec<i128> = Vec::new();
    let mut j: usize = 0;
    while j < acc.len()
        invariant
            j <= acc@.len(),
            sums == record_sums(acc@),
            keys@ == total_keys(sums).subrange(0, j as int),
        decreases acc.len() - j,
    {
        keys.push(acc[j].bytes_in as i128 + acc[j].bytes_out as i128);
        j = j + 1;
        proof {
            assert(keys@ =~= total_keys(sums).subrange(0, j as int));
        }
    }
    proof {
        assert(keys@ =~= total_keys(sums));
    }
    let perm = stable_order(&keys, true);
    let mut out: Vec<TrafficRecord> = Vec::new();
    let ghost fin = perm@;
    let mut m: usize = 0;
    while m < perm.len()
        invariant
            m <= perm@.len(),
            sums == record_sums(acc@),
            is_stable_order(total_keys(sums), true, perm@),
            record_sums(out@) == Seq::new(m as nat, |i: int| sums[perm@[i] as int]),
        decreases perm.len() - m,
    {
        let idx = perm[m];
        proof {
            assert(perm@[m as int] < sums.len());
        }
        let a = &acc[idx];
        let rec = TrafficRecord {
            ip: a.ip.clone(),
            gateway: a.gateway.clone(),
            bytes_in: a.bytes_in,
            bytes_out: a.bytes_out,
            bytes_in_intern: a.bytes_in_intern,
            bytes_out_intern: a.bytes_out_intern,
        };
        let ghost before = record_sums(out@);
        out.push(rec);
        proof {
            assert(record_sums(out@) =~= before.push(sums[perm@[m as int] as int]));
        }
        m = m + 1;
    }
    proof {
        assert(record_sums(out@) =~= Seq::new(perm@.len(), |i: int| sums[perm@[i] as int]));
        assert(is_stable_order(total_keys(sums), true, perm@));
        assert(traffic_sums(traffic_views(db.traffic@), now - 86400) == Some(sums));
        assert(record_sums(out@) =~= arrange_sums(sums, perm@));
    }
    let r: Result<Vec<TrafficRecord>, StoreError> = Ok(out);
    proof {
        assert(r is Ok);
        assert(r->Ok_0@ == out@);
        assert(is_stable_order(total_keys(sums), true, perm@));
        assert(record_sums(r->Ok_0@) == arrange_sums(sums, perm@));
        assert(exists|p: Seq<usize>| #![trigger is_stable_order(total_keys(sums), true, p)]
            is_stable_order(total_keys(sums), true, p) && record_sums(r->Ok_0@) == arrange_sums(sums, p));
        let ts = traffic_sums(traffic_views(db.traffic@), now - 86400);
        assert(ts is Some);
        assert(ts->0 == sums);
        assert(ts matches Some(s3) ==> r matches Ok(v) && exists|p: Seq<usize>| #![trigger is_stable_order(total_keys(s3), true, p)]
            is_stable_order(total_keys(s3), true, p) && record_sums(v@) == arrange_sums(s3, p));
    }
    r
}

/// Once a running sum overflows, the sums of any longer prefix stay undefined.
pub proof fn lemma_sums_stay_none(rows: Seq<TrafficRowV>, i: int, since: int)
    requires
        0 <= i <= rows.len(),
        traffic_sums(rows.subrange(0, i), since) is None,
    ensures
        traffic_sums(rows.subrange(0, rows.len() as int), since) is None,
    decreases rows.len() - i,
{
    if i < rows.len() {
        assert(rows.subrange(0, i + 1).drop_last() =~= rows.subrange(0, i));
        lemma_sums_stay_none(rows, i + 1, since);
    }
}

} // verus!

verus! {

// ---------------------------------------------------------------------------
// Laws of the store
// ---------------------------------------------------------------------------

/// Automatic fallback followed by restoring on the same gateways puts every
/// client back as it was, provided no client already remembered one of
/// those gateways.
pub proof fn law_restore_undoes_fallback(rows: Seq<ClientV>, names: Seq<Seq<char>>)
    requires
        forall|i: int| 0 <= i < rows.len() ==> !is_restored(#[trigger] rows[i], names),
    ensures
        Seq::new(rows.len(), |i: int| after_restore(after_fallback(rows[i], names), names)) == rows,
{
    assert(Seq::new(rows.len(), |i: int| after_restore(after_fallback(rows[i], names), names)) =~= rows);
}

proof fn lemma_count_where_map(
    rows: Seq<ClientV>,
    f: spec_fn(ClientV) -> ClientV,
    p: spec_fn(ClientV) -> bool,
    q: spec_fn(ClientV) -> bool,
)
    requires
        forall|i: int| 0 <= i < rows.len() ==> p(f(#[trigger] rows[i])) == q(rows[i]),
    ensures
        count_where(Seq::new(rows.len(), |i: int| f(rows[i])), p) == count_where(rows, q),
    decreases rows.len(),
{
    if rows.len() > 0 {
        let d = rows.drop_last();
        assert forall|i: int| 0 <= i < d.len() implies p(f(#[trigger] d[i])) == q(d[i]) by {
            assert(d[i] == rows[i]);
        }
        lemma_count_where_map(d, f, p, q);
        let m = Seq::new(rows.len(), |i: int| f(rows[i]));
        assert(m.drop_last() =~= Seq::new(d.len(), |i: int| f(d[i])));
        assert(m.last() == f(rows.last()));
    }
}

/// Restoring after an automatic fallback moves back exactly as many clients
/// as the fallback moved, when no client was in fallback before: the count
/// that `restore_fallback_clients` returns equals the one that
/// `activate_fallback_for_clients` returned.
pub proof fn law_restore_counts_the_fallback(rows: Seq<ClientV>, names: Seq<Seq<char>>)
    requires
        forall|i: int| 0 <= i < rows.len() ==> (#[trigger] rows[i]).original_gateway is None,
    ensures
        count_where(
            Seq::new(rows.len(), |i: int| after_fallback(rows[i], names)),
            |c: ClientV| is_restored(c, names),
        ) == count_where(rows, |c: ClientV| falls_back(c, names)),
{
    let f = |c: ClientV| after_fallback(c, names);
    let p = |c: ClientV| is_restored(c, names);
    let q = |c: ClientV| falls_back(c, names);
    assert forall|i: int| 0 <= i < rows.len() implies p(f(#[trigger] rows[i])) == q(rows[i]) by {
        assert(rows[i].original_gateway is None);
    }
    lemma_count_where_map(rows, f, p, q);
    assert(Seq::new(rows.len(), |i: int| after_fallback(rows[i], names)) =~= Seq::new(rows.len(), |i: int| f(rows[i])));
}

/// Switching a group into failover and back out leaves each of its clients on
/// the group's own gateway, whatever gateway they had before.
pub proof fn law_group_failover_round_trip(c: ClientV, g: GroupV)
    ensures
        with_group_gateway(
            with_group_gateway(c, g.name, group_target(g, true)),
            g.name,
            group_target(GroupV { fallback_active: 1, ..g }, false),
        ) == with_group_gateway(c, g.name, g.gateway),
        c.group_name == Some(g.name) ==> with_group_gateway(c, g.name, g.gateway).gateway == g.gateway,
{
}

/// Seeing a known client again never changes what the administrator assigned
/// to it: gateway, label, group, DNS override, fallback state, first sighting.
pub proof fn law_rediscovery_keeps_assignments(
    c: ClientV,
    mac: Option<Seq<char>>,
    hostname: Option<Seq<char>>,
    now: i64,
)
    ensures
        ({
            let d = seen_again(c, mac, hostname, now);
            &&& d.ip == c.ip
            &&& d.gateway == c.gateway
            &&& d.label == c.label
            &&& d.group_name == c.group_name
            &&& d.dns_ip == c.dns_ip
            &&& d.autofallback == c.autofallback
            &&& d.original_gateway == c.original_gateway
            &&& d.first_seen == c.first_seen
            &&& d.ipv6 == c.ipv6
            &&& d.active == 1
            &&& d.last_seen == now
        }),
{
}

} // verus!
