//! The decisions of the web API: request bodies, their checks, and the
//! store changes and plans behind the endpoints.

use vstd::prelude::*;
use crate::lookup::sviews;
use crate::model::{opt_view, Gateway, GatewayV};
use crate::mullvad::{country_of, has_mullvad_form, is_mullvad_iface, is_mullvad_interface, is_mullvad_name, listed, country_code_of};
use crate::store::{
    client_views, gateway_views, get_gateway, get_mullvad_device, set_client_gateway, Database,
};
use crate::order::{has_key, key_index};
use crate::model::ClientV;
use crate::text::{
    chars_of, lowercase_of, string_from_chars, to_lowercase, to_uppercase, trim_chars, trim_spec,
    uppercase_of,
};

verus! {

// ---------------------------------------------------------------------------
// Request bodies
// ---------------------------------------------------------------------------

/// `PUT /api/clients/:ip/gateway`
#[derive(Debug, Clone)]
pub struct SetGatewayBody {
    pub gateway: String,
}

/// `PUT /api/clients/:ip/label`
#[derive(Debug, Clone)]
pub struct SetLabelBody {
    pub label: String,
}

/// `PUT /api/clients/:ip/group`
#[derive(Debug, Clone)]
pub struct SetGroupBody {
    pub group_name: String,
}

/// `PUT /api/clients/:ip/autofallback`
#[derive(Debug, Clone)]
pub struct SetAutofallbackBody {
    /// The gateway to fall back to; `None` or blank turns fallback off.
    pub fallback_gateway: Option<String>,
}

/// `PUT /api/gateways/:name/dns`
#[derive(Debug, Clone)]
pub struct SetGatewayDnsBody {
    pub dns_ip: String,
}

/// `PUT /api/clients/:ip/dns`
#[derive(Debug, Clone)]
pub struct SetClientDnsBody {
    pub dns_ip: String,
}

/// `PUT /api/settings/:key`
#[derive(Debug, Clone)]
pub struct SetSettingBody {
    pub value: String,
}

/// `PUT /api/ifaces/:name`
#[derive(Debug, Clone)]
pub struct SetInterfaceBody {
    pub role: String,
    pub enabled: bool,
}

/// `PUT /api/networks/:subnet`; a missing `dns_ip` reads as empty.
#[derive(Debug, Clone)]
pub struct SetNetworkBody {
    pub default_gateway: String,
    pub internal_only: bool,
    pub gateway_only: bool,
    pub dns_ip: String,
}

/// `POST /api/login`
#[derive(Debug, Clone)]
pub struct LoginBody {
    pub username: String,
    pub password: String,
}

/// `POST /api/mullvad/devices`
#[derive(Debug, Clone)]
pub struct CreateDeviceBody {
    pub name: String,
}

/// `POST /api/mullvad/connect`
#[derive(Debug, Clone)]
pub struct MullvadConnectBody {
    pub device_name: String,
    pub country_code: String,
}

// ---------------------------------------------------------------------------
// Small checks
// ---------------------------------------------------------------------------

/// A DNS field: trimmed, and absent when nothing is left.
pub open spec fn optional_text_spec(s: Seq<char>) -> Option<Seq<char>> {
    if trim_spec(s).len() == 0 {
        None
    } else {
        Some(trim_spec(s))
    }
}

/// A form field trimmed, or nothing when it is blank.
pub fn optional_text(s: &str) -> (r: Option<String>)
    ensures
        opt_view(r) == optional_text_spec(s@),
{
    let cs = chars_of(s);
    let t = trim_chars(&cs);
    if t.len() == 0 {
        None
    } else {
        Some(string_from_chars(&t))
    }
}

/// The outcome of assigning a gateway to a client.
#[derive(Debug, Clone, Copy, PartialEq, Eq, Structural)]
pub enum GatewayAssignment {
    /// No gateway of that name exists.
    UnknownGateway,
    /// No client with that address exists.
    UnknownClient,
    /// The client now uses the gateway.
    Assigned,
}

/// Assigns a known gateway to a known client.
pub fn set_gateway(db: &mut Database, ip: &str, body: &SetGatewayBody) -> (r: GatewayAssignment)
    requires
        old(db).wf(),
    ensures
        final(db).wf(),
        !has_key(old(db).gateways@, body.gateway@) ==> r == GatewayAssignment::UnknownGateway && *final(db) == *old(db),
        has_key(old(db).gateways@, body.gateway@) && !has_key(old(db).clients@, ip@) ==> r == GatewayAssignment::UnknownClient
            && *final(db) == *old(db),
        has_key(old(db).gateways@, body.gateway@) && has_key(old(db).clients@, ip@) ==> r == GatewayAssignment::Assigned && ({
            let k = key_index(old(db).clients@, ip@);
            client_views(final(db).clients@) == client_views(old(db).clients@).update(
                k,
                ClientV { gateway: body.gateway@, ..old(db).clients@[k]@ },
            )
        }) && final(db).gateways == old(db).gateways,
{
    if get_gateway(db, body.gateway.as_str()).is_none() {
        return GatewayAssignment::UnknownGateway;
    }
    if set_client_gateway(db, ip, body.gateway.as_str()) {
        GatewayAssignment::Assigned
    } else {
        GatewayAssignment::UnknownClient
    }
}

// ---------------------------------------------------------------------------
// Mullvad devices and tunnels
// ---------------------------------------------------------------------------

/// The number of bytes of a character in UTF-8.
pub open spec fn utf8_width(c: char) -> nat {
    if (c as u32) < 0x80 {
        1
    } else if (c as u32) < 0x800 {
        2
    } else if (c as u32) < 0x10000 {
        3
    } else {
        4
    }
}

/// The length of a text in UTF-8 bytes (what `str::len` reports).
pub open spec fn utf8_len(s: Seq<char>) -> nat
    decreases s.len(),
{
    if s.len() == 0 {
        0
    } else {
        utf8_len(s.drop_last()) + utf8_width(s.last())
    }
}

/// A prefix is no longer in UTF-8 than the whole text.
proof fn lemma_utf8_len_prefix(s: Seq<char>, i: int)
    requires
        0 <= i <= s.len(),
    ensures
        utf8_len(s.subrange(0, i)) <= utf8_len(s),
    decreases s.len() - i,
{
    if i < s.len() {
        lemma_utf8_len_prefix(s, i + 1);
        assert(s.subrange(0, i + 1).drop_last() =~= s.subrange(0, i));
    } else {
        assert(s.subrange(0, i) =~= s);
    }
}

/// Why a device cannot be created.
#[derive(Debug, Clone, Copy, PartialEq, Eq, Structural)]
pub enum DeviceRequestError {
    /// The configuration has no `[mullvad]` section.
    NotConfigured,
    /// The trimmed name is empty or longer than 64 bytes.
    BadName,
    /// A device of that name exists.
    Exists,
}

/// Checks a request to create a device; on success, the trimmed name.
pub fn check_new_device(db: &Database, mullvad_configured: bool, body: &CreateDeviceBody) -> (r: Result<String, DeviceRequestError>)
    requires
        db.wf(),
    ensures
        !mullvad_configured ==> r == Err::<String, DeviceRequestError>(DeviceRequestError::NotConfigured),
        mullvad_configured && (trim_spec(body.name@).len() == 0 || utf8_len(trim_spec(body.name@)) > 64) ==> r
            == Err::<String, DeviceRequestError>(DeviceRequestError::BadName),
        mullvad_configured && trim_spec(body.name@).len() > 0 && utf8_len(trim_spec(body.name@)) <= 64 && has_key(
            db.mullvad_devices@,
            trim_spec(body.name@),
        ) ==> r == Err::<String, DeviceRequestError>(DeviceRequestError::Exists),
        mullvad_configured && trim_spec(body.name@).len() > 0 && utf8_len(trim_spec(body.name@)) <= 64 && !has_key(
            db.mullvad_devices@,
            trim_spec(body.name@),
        ) ==> r is Ok && r->Ok_0@ == trim_spec(body.name@),
{
    if !mullvad_configured {
        return Err(DeviceRequestError::NotConfigured);
    }
    let cs = chars_of(body.name.as_str());
    let t = trim_chars(&cs);
    let mut bytes: u64 = 0;
    let mut i: usize = 0;
    proof {
        assert(t@.subrange(0, 0) =~= Seq::<char>::empty());
    }
    while i < t.len() && bytes <= 64
        invariant
            i <= t@.len(),
            bytes == utf8_len(t@.subrange(0, i as int)),
            bytes <= 68,
        decreases t.len() - i,
    {
        let ghost pre = t@.subrange(0, i as int);
        let ghost post = t@.subrange(0, i + 1);
        proof {
            assert(post.drop_last() =~= pre);
            assert(post.last() == t@[i as int]);
        }
        let u = t[i] as u32;
        let w: u64 = if u < 0x80 {
            1
        } else if u < 0x800 {
            2
        } else if u < 0x10000 {
            3
        } else {
            4
        };
        bytes = bytes + w;
        i = i + 1;
    }
    proof {
        lemma_utf8_len_prefix(t@, i as int);
        if i == t.len() {
            assert(t@.subrange(0, t@.len() as int) =~= t@);
        }
    }
    if t.len() == 0 || bytes > 64 {
        return Err(DeviceRequestError::BadName);
    }
    let name = string_from_chars(&t);
    if get_mullvad_device(db, name.as_str()).is_some() {
        return Err(DeviceRequestError::Exists);
    }
    Ok(name)
}

/// A country code as the API takes it: lower-cased, then trimmed.
pub open spec fn normalized_code(cc: Seq<char>) -> Seq<char> {
    trim_spec(lowercase_of(cc))
}

/// Normalises a country code from a request.
pub fn normalize_country_code(cc: &str) -> (r: String)
    ensures
        r@ == normalized_code(cc@),
{
    let lower = to_lowercase(cc);
    let cs = chars_of(lower.as_str());
    let t = trim_chars(&cs);
    string_from_chars(&t)
}

/// The description of a Mullvad gateway: `Mullvad <CC> (<device>)`.
pub open spec fn mullvad_description_text(cc: Seq<char>, device: Seq<char>) -> Seq<char> {
    "Mullvad "@ + uppercase_of(cc) + " ("@ + device + ")"@
}

/// The description of the gateway of a Mullvad tunnel.
pub fn mullvad_description(cc: &str, device_name: &str) -> (r: String)
    ensures
        r@ == mullvad_description_text(cc@, device_name@),
{
    let up = to_uppercase(cc);
    let mut r = String::from_str("Mullvad ");
    r.append(up.as_str());
    r.append(" (");
    r.append(device_name);
    r.append(")");
    r
}

/// The gateway name of a Mullvad tunnel: `<device>-<cc>`.
pub open spec fn mullvad_gateway_name_text(device: Seq<char>, cc: Seq<char>) -> Seq<char> {
    device + "-"@ + cc
}

/// The name of the gateway of a device's Mullvad tunnel to a country.
pub fn mullvad_gateway_name(device_name: &str, cc: &str) -> (r: String)
    ensures
        r@ == mullvad_gateway_name_text(device_name@, cc@),
{
    let mut r = String::from_str(device_name);
    r.append("-");
    r.append(cc);
    r
}

/// The description of a gateway created for a WireGuard interface.
pub open spec fn wireguard_description_text(iface: Seq<char>) -> Seq<char> {
    "WireGuard: "@ + iface
}

/// The description of the gateway of a plain WireGuard interface.
pub fn wireguard_description(iface: &str) -> (r: String)
    ensures
        r@ == wireguard_description_text(iface@),
{
    let mut r = String::from_str("WireGuard: ");
    r.append(iface);
    r
}

/// The DNS server that Mullvad tunnels use.
pub open spec fn mullvad_dns_text() -> Seq<char> {
    "10.64.0.1"@
}

/// The DNS server of Mullvad tunnels (DNS leak protection).
pub fn mullvad_dns() -> (r: String)
    ensures
        r@ == mullvad_dns_text(),
{
    String::from_str("10.64.0.1")
}

/// A Mullvad tunnel as `/api/mullvad/connections` lists it.
#[derive(Debug, Clone)]
pub struct MullvadConnection {
    pub country_code: String,
    pub name: String,
    pub interface: String,
    pub description: Option<String>,
    pub device_name: Option<String>,
}

/// The view of a listed tunnel.
pub open spec fn connection_view(c: MullvadConnection) -> (Seq<char>, Seq<char>, Seq<char>, Option<Seq<char>>, Option<Seq<char>>) {
    (c.country_code@, c.name@, c.interface@, opt_view(c.description), opt_view(c.device_name))
}

/// The views of listed tunnels.
pub open spec fn connection_views(v: Seq<MullvadConnection>) -> Seq<(Seq<char>, Seq<char>, Seq<char>, Option<Seq<char>>, Option<Seq<char>>)> {
    Seq::new(v.len(), |i: int| connection_view(v[i]))
}

/// The tunnels among the gateways, in order: those on a Mullvad interface
/// (among the WireGuard interfaces `wg`), with the country code taken from
/// the interface name.
pub open spec fn connections_spec(
    gs: Seq<GatewayV>,
    wg: Seq<Seq<char>>,
) -> Seq<(Seq<char>, Seq<char>, Seq<char>, Option<Seq<char>>, Option<Seq<char>>)>
    decreases gs.len(),
{
    if gs.len() == 0 {
        Seq::empty()
    } else {
        let rest = connections_spec(gs.drop_last(), wg);
        let g = gs.last();
        if is_mullvad_iface(g.interface, wg) {
            rest.push((country_of(g.interface), g.name, g.interface, g.description, g.device_name))
        } else {
            rest
        }
    }
}

/// Lists the Mullvad tunnels among the gateways; `wg_interfaces` are the
/// WireGuard interfaces (`wg show interfaces`).
pub fn mullvad_connections(gateways: &Vec<Gateway>, wg_interfaces: &Vec<String>) -> (r: Vec<MullvadConnection>)
    ensures
        connection_views(r@) == connections_spec(gateway_views(gateways@), sviews(wg_interfaces@)),
{
    let ghost gs = gateway_views(gateways@);
    let mut out: Vec<MullvadConnection> = Vec::new();
    let mut i: usize = 0;
    proof {
        assert(gs.subrange(0, 0) =~= Seq::<GatewayV>::empty());
    }
    while i < gateways.len()
        invariant
            i <= gateways@.len(),
            gs == gateway_views(gateways@),
            connection_views(out@) == connections_spec(gs.subrange(0, i as int), sviews(wg_interfaces@)),
        decreases gateways.len() - i,
    {
        let ghost pre = gs.subrange(0, i as int);
        let ghost post = gs.subrange(0, i + 1);
        proof {
            assert(post.drop_last() =~= pre);
            assert(post.last() == gateways@[i as int]@);
        }
        let g = &gateways[i];
        if is_mullvad_interface(g.interface.as_str(), wg_interfaces) {
            let c = MullvadConnection {
                country_code: country_code_of(g.interface.as_str()),
                name: g.name.clone(),
                interface: g.interface.clone(),
                description: crate::model::clone_opt(&g.description),
                device_name: crate::model::clone_opt(&g.device_name),
            };
            let ghost before = connection_views(out@);
            let ghost cv = connection_view(c);
            out.push(c);
            proof {
                assert(connection_views(out@) =~= before.push(cv));
            }
        }
        i = i + 1;
    }
    proof {
        assert(gs.subrange(0, gs.len() as int) =~= gs);
    }
    out
}

// ---------------------------------------------------------------------------
// WireGuard interface sync
// ---------------------------------------------------------------------------

/// Some gateway uses the interface.
pub open spec fn iface_has_gateway(gs: Seq<GatewayV>, iface: Seq<char>) -> bool {
    exists|i: int| 0 <= i < gs.len() && (#[trigger] gs[i]).interface == iface
}

/// The active WireGuard interfaces that get a gateway: not Mullvad tunnels
/// and not used by any gateway yet, in order.
pub open spec fn wg_additions(active: Seq<Seq<char>>, gs: Seq<GatewayV>) -> Seq<Seq<char>>
    decreases active.len(),
{
    if active.len() == 0 {
        Seq::empty()
    } else {
        let rest = wg_additions(active.drop_last(), gs);
        let a = active.last();
        if !is_mullvad_iface(a, active) && !iface_has_gateway(gs, a) {
            rest.push(a)
        } else {
            rest
        }
    }
}

/// The gateways whose WireGuard interface is gone: created by the sync (name
/// equals interface, not a built-in gateway), not named like a Mullvad tunnel
/// (those have their own connect and disconnect), interface no longer active;
/// in order.
pub open spec fn wg_removals(active: Seq<Seq<char>>, gs: Seq<GatewayV>) -> Seq<Seq<char>>
    decreases gs.len(),
{
    if gs.len() == 0 {
        Seq::empty()
    } else {
        let rest = wg_removals(active, gs.drop_last());
        let g = gs.last();
        if !crate::store::is_seed_name(g.name) && !is_mullvad_name(g.interface) && g.name == g.interface
            && !active.contains(g.interface) {
            rest.push(g.name)
        } else {
            rest
        }
    }
}

fn has_gateway_on(gateways: &Vec<Gateway>, iface: &String) -> (r: bool)
    ensures
        r == iface_has_gateway(gateway_views(gateways@), iface@),
{
    let mut i: usize = 0;
    while i < gateways.len()
        invariant
            i <= gateways@.len(),
            forall|j: int| 0 <= j < i ==> (#[trigger] gateway_views(gateways@)[j]).interface != iface@,
        decreases gateways.len() - i,
    {
        if crate::text::str_eq(gateways[i].interface.as_str(), iface.as_str()) {
            proof {
                assert(gateway_views(gateways@)[i as int].interface == iface@);
            }
            return true;
        }
        i = i + 1;
    }
    false
}

/// The interfaces that a WireGuard sync registers as gateways.
pub fn wg_sync_additions(active: &Vec<String>, gateways: &Vec<Gateway>) -> (r: Vec<String>)
    ensures
        sviews(r@) == wg_additions(sviews(active@), gateway_views(gateways@)),
{
    let ghost av = sviews(active@);
    let mut out: Vec<String> = Vec::new();
    let mut i: usize = 0;
    proof {
        assert(av.subrange(0, 0) =~= Seq::<Seq<char>>::empty());
    }
    while i < active.len()
        invariant
            i <= active@.len(),
            av == sviews(active@),
            sviews(out@) == wg_additions(av.subrange(0, i as int), gateway_views(gateways@)),
        decreases active.len() - i,
    {
        let ghost pre = av.subrange(0, i as int);
        let ghost post = av.subrange(0, i + 1);
        proof {
            assert(post.drop_last() =~= pre);
            assert(post.last() == active@[i as int]@);
        }
        let a = &active[i];
        if !is_mullvad_interface(a.as_str(), active) && !has_gateway_on(gateways, a) {
            crate::routing::push_arg_string(&mut out, a.clone());
        }
        i = i + 1;
    }
    proof {
        assert(av.subrange(0, av.len() as int) =~= av);
    }
    out
}

/// The gateways that a WireGuard sync removes, by name.
pub fn wg_sync_removals(active: &Vec<String>, gateways: &Vec<Gateway>) -> (r: Vec<String>)
    ensures
        sviews(r@) == wg_removals(sviews(active@), gateway_views(gateways@)),
{
    let ghost gs = gateway_views(gateways@);
    let ghost av = sviews(active@);
    let mut out: Vec<String> = Vec::new();
    let mut i: usize = 0;
    proof {
        assert(gs.subrange(0, 0) =~= Seq::<GatewayV>::empty());
    }
    while i < gateways.len()
        invariant
            i <= gateways@.len(),
            gs == gateway_views(gateways@),
            av == sviews(active@),
            sviews(out@) == wg_removals(av, gs.subrange(0, i as int)),
        decreases gateways.len() - i,
    {
        let ghost pre = gs.subrange(0, i as int);
        let ghost post = gs.subrange(0, i + 1);
        proof {
            assert(post.drop_last() =~= pre);
            assert(post.last() == gateways@[i as int]@);
        }
        let g = &gateways[i];
        if !crate::store::is_seeded_gateway(g.name.as_str()) && !has_mullvad_form(g.interface.as_str())
            && crate::text::str_eq(g.name.as_str(), g.interface.as_str()) {
            let still = listed(active, g.interface.as_str());
            if !still {
                crate::routing::push_arg_string(&mut out, g.name.clone());
            }
        }
        i = i + 1;
    }
    proof {
        assert(gs.subrange(0, gs.len() as int) =~= gs);
    }
    out
}

/// A mark that `next_free_mark` picks from the gateways' marks, while one of
/// 220..299 is still free, is used by no gateway: registering a tunnel
/// gateway with it cannot fail for its mark.
pub proof fn law_free_mark_is_untaken(gs: Seq<Gateway>, name: Seq<char>, r: i64)
    requires
        crate::mullvad::first_free_mark(crate::store::marks_of(gs), r as int),
        exists|k: int| 220 <= k < 300 && !crate::mullvad::mark_used(crate::store::marks_of(gs), k),
    ensures
        !crate::store::mark_taken(gs, name, r),
{
    let ms = crate::store::marks_of(gs);
    let k = choose|k: int| 220 <= k < 300 && !crate::mullvad::mark_used(ms, k);
    assert(!crate::mullvad::mark_used(ms, r as int)) by {
        if !(220 <= r < 300 && !crate::mullvad::mark_used(ms, r as int)) {
            assert(crate::mullvad::mark_used(ms, k));
        }
    }
    if crate::store::mark_taken(gs, name, r) {
        let i = choose|i: int| 0 <= i < gs.len() && #[trigger] gs[i].mark == r && gs[i].name@ != name;
        assert(ms[i] == r);
        assert(ms.contains(r));
    }
}

} // verus!
