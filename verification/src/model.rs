//! The records that the router keeps: clients, gateways, networks, groups,
//! interface metadata, Mullvad devices, monitor events and traffic.
//!
//! Each record has a view with `Seq<char>` in place of `String`, over which
//! the contracts of the store and of the generators are stated.

use vstd::prelude::*;

verus! {

/// The character sequence of an optional string.
pub open spec fn opt_view(o: Option<String>) -> Option<Seq<char>> {
    match o {
        Some(s) => Some(s@),
        None => None,
    }
}

/// A copy of an optional string.
pub fn clone_opt(o: &Option<String>) -> (r: Option<String>)
    ensures
        opt_view(r) == opt_view(*o),
{
    match o {
        Some(s) => Some(s.clone()),
        None => None,
    }
}

/// A LAN client known to the router.
#[derive(Debug, Clone)]
pub struct Client {
    pub ip: String,
    pub mac: Option<String>,
    pub hostname: Option<String>,
    pub label: Option<String>,
    pub group_name: Option<String>,
    pub gateway: String,
    pub first_seen: i64,
    pub last_seen: i64,
    pub active: i64,
    pub ipv6: Option<String>,
    pub dns_ip: Option<String>,
    pub autofallback: i64,
    pub original_gateway: Option<String>,
    /// Where automatic fallback sends the client (`ppp0` when unset).
    pub fallback_gateway: Option<String>,
}

/// The value of a client record.
pub struct ClientV {
    pub ip: Seq<char>,
    pub mac: Option<Seq<char>>,
    pub hostname: Option<Seq<char>>,
    pub label: Option<Seq<char>>,
    pub group_name: Option<Seq<char>>,
    pub gateway: Seq<char>,
    pub first_seen: i64,
    pub last_seen: i64,
    pub active: i64,
    pub ipv6: Option<Seq<char>>,
    pub dns_ip: Option<Seq<char>>,
    pub autofallback: i64,
    pub original_gateway: Option<Seq<char>>,
    pub fallback_gateway: Option<Seq<char>>,
}

impl View for Client {
    type V = ClientV;

    open spec fn view(&self) -> ClientV {
        ClientV {
            ip: self.ip@,
            mac: opt_view(self.mac),
            hostname: opt_view(self.hostname),
            label: opt_view(self.label),
            group_name: opt_view(self.group_name),
            gateway: self.gateway@,
            first_seen: self.first_seen,
            last_seen: self.last_seen,
            active: self.active,
            ipv6: opt_view(self.ipv6),
            dns_ip: opt_view(self.dns_ip),
            autofallback: self.autofallback,
            original_gateway: opt_view(self.original_gateway),
            fallback_gateway: opt_view(self.fallback_gateway),
        }
    }
}

impl Client {
    /// A copy with the same value.
    pub fn copy(&self) -> (r: Client)
        ensures
            r@ == self@,
    {
        Client {
            ip: self.ip.clone(),
            mac: clone_opt(&self.mac),
            hostname: clone_opt(&self.hostname),
            label: clone_opt(&self.label),
            group_name: clone_opt(&self.group_name),
            gateway: self.gateway.clone(),
            first_seen: self.first_seen,
            last_seen: self.last_seen,
            active: self.active,
            ipv6: clone_opt(&self.ipv6),
            dns_ip: clone_opt(&self.dns_ip),
            autofallback: self.autofallback,
            original_gateway: clone_opt(&self.original_gateway),
            fallback_gateway: clone_opt(&self.fallback_gateway),
        }
    }
}

/// An egress gateway: a routing table reached through an interface.
#[derive(Debug, Clone)]
pub struct Gateway {
    pub name: String,
    pub table_name: String,
    pub interface: String,
    pub src_ip: Option<String>,
    pub description: Option<String>,
    pub mark: i64,
    pub dns_ip: Option<String>,
    pub device_name: Option<String>,
}

/// The value of a gateway record.
pub struct GatewayV {
    pub name: Seq<char>,
    pub table_name: Seq<char>,
    pub interface: Seq<char>,
    pub src_ip: Option<Seq<char>>,
    pub description: Option<Seq<char>>,
    pub mark: i64,
    pub dns_ip: Option<Seq<char>>,
    pub device_name: Option<Seq<char>>,
}

impl View for Gateway {
    type V = GatewayV;

    open spec fn view(&self) -> GatewayV {
        GatewayV {
            name: self.name@,
            table_name: self.table_name@,
            interface: self.interface@,
            src_ip: opt_view(self.src_ip),
            description: opt_view(self.description),
            mark: self.mark,
            dns_ip: opt_view(self.dns_ip),
            device_name: opt_view(self.device_name),
        }
    }
}

impl Gateway {
    /// A copy with the same value.
    pub fn copy(&self) -> (r: Gateway)
        ensures
            r@ == self@,
    {
        Gateway {
            name: self.name.clone(),
            table_name: self.table_name.clone(),
            interface: self.interface.clone(),
            src_ip: clone_opt(&self.src_ip),
            description: clone_opt(&self.description),
            mark: self.mark,
            dns_ip: clone_opt(&self.dns_ip),
            device_name: clone_opt(&self.device_name),
        }
    }
}

/// A WireGuard device registered with a Mullvad account.
#[derive(Debug, Clone)]
pub struct MullvadDevice {
    pub name: String,
    pub private_key: String,
    pub public_key: String,
    pub address: String,
    pub created_at: i64,
}

/// The value of a Mullvad device record.
pub struct MullvadDeviceV {
    pub name: Seq<char>,
    pub private_key: Seq<char>,
    pub public_key: Seq<char>,
    pub address: Seq<char>,
    pub created_at: i64,
}

impl View for MullvadDevice {
    type V = MullvadDeviceV;

    open spec fn view(&self) -> MullvadDeviceV {
        MullvadDeviceV {
            name: self.name@,
            private_key: self.private_key@,
            public_key: self.public_key@,
            address: self.address@,
            created_at: self.created_at,
        }
    }
}

impl MullvadDevice {
    /// A copy with the same value.
    pub fn copy(&self) -> (r: MullvadDevice)
        ensures
            r@ == self@,
    {
        MullvadDevice {
            name: self.name.clone(),
            private_key: self.private_key.clone(),
            public_key: self.public_key.clone(),
            address: self.address.clone(),
            created_at: self.created_at,
        }
    }
}

/// An entry of the monitor's event log.
#[derive(Debug, Clone)]
pub struct MonitorEvent {
    pub id: i64,
    pub ts: i64,
    pub event: String,
    pub detail: Option<String>,
}

/// The value of a monitor event.
pub struct MonitorEventV {
    pub id: i64,
    pub ts: i64,
    pub event: Seq<char>,
    pub detail: Option<Seq<char>>,
}

impl View for MonitorEvent {
    type V = MonitorEventV;

    open spec fn view(&self) -> MonitorEventV {
        MonitorEventV { id: self.id, ts: self.ts, event: self.event@, detail: opt_view(self.detail) }
    }
}

impl MonitorEvent {
    /// A copy with the same value.
    pub fn copy(&self) -> (r: MonitorEvent)
        ensures
            r@ == self@,
    {
        MonitorEvent {
            id: self.id,
            ts: self.ts,
            event: self.event.clone(),
            detail: clone_opt(&self.detail),
        }
    }
}

/// Per-subnet routing configuration.
#[derive(Debug, Clone)]
pub struct NetworkConfig {
    pub subnet: String,
    pub default_gateway: String,
    pub internal_only: i64,
    pub gateway_only: i64,
    pub dns_ip: Option<String>,
}

/// The value of a network configuration.
pub struct NetworkConfigV {
    pub subnet: Seq<char>,
    pub default_gateway: Seq<char>,
    pub internal_only: i64,
    pub gateway_only: i64,
    pub dns_ip: Option<Seq<char>>,
}

impl View for NetworkConfig {
    type V = NetworkConfigV;

    open spec fn view(&self) -> NetworkConfigV {
        NetworkConfigV {
            subnet: self.subnet@,
            default_gateway: self.default_gateway@,
            internal_only: self.internal_only,
            gateway_only: self.gateway_only,
            dns_ip: opt_view(self.dns_ip),
        }
    }
}

impl NetworkConfig {
    /// A copy with the same value.
    pub fn copy(&self) -> (r: NetworkConfig)
        ensures
            r@ == self@,
    {
        NetworkConfig {
            subnet: self.subnet.clone(),
            default_gateway: self.default_gateway.clone(),
            internal_only: self.internal_only,
            gateway_only: self.gateway_only,
            dns_ip: clone_opt(&self.dns_ip),
        }
    }
}

/// A named group of clients that share a gateway and a failover target.
#[derive(Debug, Clone)]
pub struct Group {
    pub name: String,
    pub gateway: String,
    pub fallback_gateway: Option<String>,
    pub description: Option<String>,
    pub fallback_active: i64,
}

/// The value of a group.
pub struct GroupV {
    pub name: Seq<char>,
    pub gateway: Seq<char>,
    pub fallback_gateway: Option<Seq<char>>,
    pub description: Option<Seq<char>>,
    pub fallback_active: i64,
}

impl View for Group {
    type V = GroupV;

    open spec fn view(&self) -> GroupV {
        GroupV {
            name: self.name@,
            gateway: self.gateway@,
            fallback_gateway: opt_view(self.fallback_gateway),
            description: opt_view(self.description),
            fallback_active: self.fallback_active,
        }
    }
}

impl Group {
    /// A copy with the same value.
    pub fn copy(&self) -> (r: Group)
        ensures
            r@ == self@,
    {
        Group {
            name: self.name.clone(),
            gateway: self.gateway.clone(),
            fallback_gateway: clone_opt(&self.fallback_gateway),
            description: clone_opt(&self.description),
            fallback_active: self.fallback_active,
        }
    }
}

/// Traffic of one client summed over a period.
#[derive(Debug, Clone)]
pub struct TrafficRecord {
    pub ip: String,
    pub gateway: String,
    pub bytes_in: i64,
    pub bytes_out: i64,
    pub bytes_in_intern: i64,
    pub bytes_out_intern: i64,
}

/// Role and state that the UI records for a network interface.
#[derive(Debug, Clone)]
pub struct InterfaceMeta {
    pub name: String,
    pub role: String,
    pub enabled: i64,
}

/// The value of interface metadata.
pub struct InterfaceMetaV {
    pub name: Seq<char>,
    pub role: Seq<char>,
    pub enabled: i64,
}

impl View for InterfaceMeta {
    type V = InterfaceMetaV;

    open spec fn view(&self) -> InterfaceMetaV {
        InterfaceMetaV { name: self.name@, role: self.role@, enabled: self.enabled }
    }
}

impl InterfaceMeta {
    /// A copy with the same value.
    pub fn copy(&self) -> (r: InterfaceMeta)
        ensures
            r@ == self@,
    {
        InterfaceMeta { name: self.name.clone(), role: self.role.clone(), enabled: self.enabled }
    }
}

} // verus!
