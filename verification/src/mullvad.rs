//! Mullvad WireGuard gateways: interface naming, WireGuard configuration
//! text, relay choice, routing-table and firewall-mark allocation, and the
//! edits of `/etc/iproute2/rt_tables`.

use vstd::prelude::*;
use crate::lookup::sviews;
use crate::sort::{is_name_order, is_stable_order, name_order, name_views, stable_order};
use crate::routing::{first_token, first_word};
use crate::text::{
    append_chars, chars_eq, chars_of, dec_spec, has_prefix, is_ascii_alpha, is_digit, is_ws, lacks,
    lemma_dec_digits, lemma_lines_avoid, lemma_lines_terminated, lemma_tokens_append_word,
    lemma_tokens_append_ws, lines_of, lines_spec, split_chars, split_spec,
    parse_unsigned, parse_unsigned_spec, starts_with, string_from_chars, suffix_chars, tokens_of,
    terminated, tokens_spec, trim_chars, trim_spec, u64_dec, views,
};

verus! {

// ---------------------------------------------------------------------------
// Naming
// ---------------------------------------------------------------------------

/// The interface (and gateway, and routing table) name of a country: `mu` and the code.
pub open spec fn mullvad_name(cc: Seq<char>) -> Seq<char> {
    "mu"@ + cc
}

/// The interface name of the Mullvad tunnel for a country code.
pub fn interface_name(country_code: &str) -> (r: String)
    ensures
        r@ == mullvad_name(country_code@),
{
    let mut r = String::from_str("mu");
    r.append(country_code);
    r
}

/// A Mullvad interface: `mu` followed by at least one ASCII letter and nothing else.
pub open spec fn is_mullvad_name(name: Seq<char>) -> bool {
    &&& has_prefix(name, "mu"@)
    &&& name.len() > 2
    &&& forall|i: int| 2 <= i < name.len() ==> is_ascii_alpha(#[trigger] name[i])
}

/// A Mullvad tunnel among the WireGuard interfaces `wg`: named `mu<cc>` and
/// one of them.
pub open spec fn is_mullvad_iface(name: Seq<char>, wg: Seq<Seq<char>>) -> bool {
    is_mullvad_name(name) && wg.contains(name)
}

/// Whether a name has the form of a Mullvad tunnel (`mu<cc>`).
pub(crate) fn has_mullvad_form(name: &str) -> (r: bool)
    ensures
        r == is_mullvad_name(name@),
{
    let cs = chars_of(name);
    let pmu = chars_of("mu");
    proof {
        reveal_strlit("mu");
    }
    if !starts_with(&cs, &pmu) || cs.len() <= 2 {
        return false;
    }
    let mut i: usize = 2;
    while i < cs.len()
        invariant
            cs@ == name@,
            2 <= i <= cs@.len(),
            forall|j: int| 2 <= j < i ==> is_ascii_alpha(#[trigger] cs@[j]),
        decreases cs.len() - i,
    {
        let c = cs[i];
        if !(('a' <= c && c <= 'z') || ('A' <= c && c <= 'Z')) {
            return false;
        }
        i = i + 1;
    }
    true
}

/// Whether `name` is a name among the list.
pub(crate) fn listed(names: &Vec<String>, name: &str) -> (r: bool)
    ensures
        r == sviews(names@).contains(name@),
{
    let mut i: usize = 0;
    while i < names.len()
        invariant
            i <= names@.len(),
            forall|j: int| 0 <= j < i ==> (#[trigger] sviews(names@)[j]) != name@,
        decreases names.len() - i,
    {
        if crate::text::str_eq(names[i].as_str(), name) {
            assert(sviews(names@)[i as int] == name@);
            return true;
        }
        i = i + 1;
    }
    false
}

/// Whether an interface is one of the Mullvad tunnels: named `mu<cc>` and a
/// WireGuard interface, i.e. listed in `wg_interfaces` (the interfaces of
/// `wg show interfaces`).
pub fn is_mullvad_interface(name: &str, wg_interfaces: &Vec<String>) -> (r: bool)
    ensures
        r == is_mullvad_iface(name@, sviews(wg_interfaces@)),
{
    has_mullvad_form(name) && listed(wg_interfaces, name)
}

/// `s` without every leading repetition of `p` (std's `trim_start_matches` with a string).
pub open spec fn trim_prefix_all(s: Seq<char>, p: Seq<char>) -> Seq<char>
    decreases s.len(),
{
    if p.len() > 0 && has_prefix(s, p) {
        trim_prefix_all(s.subrange(p.len() as int, s.len() as int), p)
    } else {
        s
    }
}

/// The country code of a Mullvad interface: its name without the leading `mu`s.
pub open spec fn country_of(iface: Seq<char>) -> Seq<char> {
    trim_prefix_all(iface, "mu"@)
}

/// Removes every leading repetition of `p` from `s`.
pub fn trim_prefix_repeated(s: &str, p: &str) -> (r: String)
    ensures
        r@ == trim_prefix_all(s@, p@),
{
    let mut cur = chars_of(s);
    let pc = chars_of(p);
    while pc.len() > 0 && starts_with(&cur, &pc)
        invariant
            pc@ == p@,
            trim_prefix_all(cur@, p@) == trim_prefix_all(s@, p@),
        decreases cur.len(),
    {
        cur = suffix_chars(&cur, pc.len());
    }
    string_from_chars(&cur)
}

/// The country code of a Mullvad interface name.
pub fn country_code_of(iface: &str) -> (r: String)
    ensures
        r@ == country_of(iface@),
{
    trim_prefix_repeated(iface, "mu")
}

/// The command that sets the default route of `table` to the interface `iface`.
pub open spec fn default_route_cmd(iface: Seq<char>, table: Seq<char>) -> Seq<Seq<char>> {
    seq!["route"@, "replace"@, "default"@, "dev"@, iface, "table"@, table]
}

/// The `ip` arguments that point the default route of `table` at `iface`.
pub fn default_route_args(iface: &str, table: &str) -> (r: Vec<String>)
    ensures
        sviews(r@) == default_route_cmd(iface@, table@),
{
    let mut r: Vec<String> = Vec::new();
    r.push(String::from_str("route"));
    r.push(String::from_str("replace"));
    r.push(String::from_str("default"));
    r.push(String::from_str("dev"));
    r.push(iface.to_owned());
    r.push(String::from_str("table"));
    r.push(table.to_owned());
    proof {
        assert(sviews(r@) =~= default_route_cmd(iface@, table@));
    }
    r
}

/// The default-route command of the tunnel of a country, whose table bears its name.
pub fn country_default_route_args(country_code: &str) -> (r: Vec<String>)
    ensures
        sviews(r@) == default_route_cmd(mullvad_name(country_code@), mullvad_name(country_code@)),
{
    let iface = interface_name(country_code);
    default_route_args(iface.as_str(), iface.as_str())
}


// ---------------------------------------------------------------------------
// Relays and the WireGuard configuration
// ---------------------------------------------------------------------------

/// A Mullvad WireGuard server offered for a country.
#[derive(Debug, Clone)]
pub struct MullvadRelay {
    pub hostname: String,
    pub ipv4_addr_in: String,
    pub public_key: String,
    pub weight: u32,
}

/// A relay as the relay list of the Mullvad API describes it.
#[derive(Debug, Clone)]
pub struct RelayEntry {
    pub hostname: String,
    /// The location key, `<country code>-<city code>`.
    pub location: String,
    pub ipv4_addr_in: String,
    pub public_key: String,
    pub active: bool,
    pub weight: u32,
}

/// The view of a relay: host name, entry address, public key and weight.
pub open spec fn relay_view(r: MullvadRelay) -> (Seq<char>, Seq<char>, Seq<char>, u32) {
    (r.hostname@, r.ipv4_addr_in@, r.public_key@, r.weight)
}

/// The views of relays.
pub open spec fn relay_views(v: Seq<MullvadRelay>) -> Seq<(Seq<char>, Seq<char>, Seq<char>, u32)> {
    Seq::new(v.len(), |i: int| relay_view(v[i]))
}

/// The relay that an entry of the relay list offers.
pub open spec fn entry_view(e: RelayEntry) -> (Seq<char>, Seq<char>, Seq<char>, u32) {
    (e.hostname@, e.ipv4_addr_in@, e.public_key@, e.weight)
}

/// An active relay located in the country `cc`.
pub open spec fn relay_in_country(e: RelayEntry, cc: Seq<char>) -> bool {
    e.active && has_prefix(e.location@, cc + "-"@)
}

/// The entries of the active relays of a country, in list order.
pub open spec fn country_relays(es: Seq<RelayEntry>, cc: Seq<char>) -> Seq<RelayEntry>
    decreases es.len(),
{
    if es.len() == 0 {
        Seq::empty()
    } else {
        let rest = country_relays(es.drop_last(), cc);
        if relay_in_country(es.last(), cc) {
            rest.push(es.last())
        } else {
            rest
        }
    }
}

/// The weights of relay entries, as sort keys.
pub open spec fn relay_weights(es: Seq<RelayEntry>) -> Seq<i128> {
    Seq::new(es.len(), |i: int| es[i].weight as i128)
}

fn copy_entry(e: &RelayEntry) -> (r: RelayEntry)
    ensures
        r.hostname@ == e.hostname@,
        r.location@ == e.location@,
        r.ipv4_addr_in@ == e.ipv4_addr_in@,
        r.public_key@ == e.public_key@,
        r.active == e.active,
        r.weight == e.weight,
{
    RelayEntry {
        hostname: e.hostname.clone(),
        location: e.location.clone(),
        ipv4_addr_in: e.ipv4_addr_in.clone(),
        public_key: e.public_key.clone(),
        active: e.active,
        weight: e.weight,
    }
}

/// The active relays of a country, the highest weight first; relays of equal
/// weight keep the order of the list.
pub fn relays_for_country(entries: &Vec<RelayEntry>, country_code: &str) -> (r: Vec<MullvadRelay>)
    ensures
        exists|perm: Seq<usize>| #![trigger is_stable_order(relay_weights(country_relays(entries@, country_code@)), true, perm)]
            is_stable_order(relay_weights(country_relays(entries@, country_code@)), true, perm)
            && relay_views(r@) == Seq::new(
                perm.len(),
                |i: int| entry_view(country_relays(entries@, country_code@)[perm[i] as int]),
            ),
{
    let mut prefix = country_code.to_owned();
    prefix.append("-");
    let pc = chars_of(prefix.as_str());
    let mut f: Vec<RelayEntry> = Vec::new();
    let mut i: usize = 0;
    proof {
        assert(entries@.subrange(0, 0) =~= Seq::<RelayEntry>::empty());
    }
    while i < entries.len()
        invariant
            i <= entries@.len(),
            pc@ == country_code@ + "-"@,
            f@.len() == country_relays(entries@.subrange(0, i as int), country_code@).len(),
            forall|k: int| 0 <= k < f@.len() ==> ({
                let e = #[trigger] country_relays(entries@.subrange(0, i as int), country_code@)[k];
                &&& f@[k].hostname@ == e.hostname@
                &&& f@[k].location@ == e.location@
                &&& f@[k].ipv4_addr_in@ == e.ipv4_addr_in@
                &&& f@[k].public_key@ == e.public_key@
                &&& f@[k].active == e.active
                &&& f@[k].weight == e.weight
            }),
        decreases entries.len() - i,
    {
        let ghost pre = entries@.subrange(0, i as int);
        let ghost post = entries@.subrange(0, i + 1);
        proof {
            assert(post.drop_last() =~= pre);
            assert(post.last() == entries@[i as int]);
        }
        let e = &entries[i];
        let loc = chars_of(e.location.as_str());
        if e.active && starts_with(&loc, &pc) {
            f.push(copy_entry(e));
        }
        i = i + 1;
    }
    proof {
        assert(entries@.subrange(0, entries@.len() as int) =~= entries@);
    }
    let ghost fs = country_relays(entries@, country_code@);
    let mut keys: Vec<i128> = Vec::new();
    let mut j: usize = 0;
    while j < f.len()
        invariant
            j <= f@.len(),
            f@.len() == fs.len(),
            forall|k: int| 0 <= k < f@.len() ==> (#[trigger] f@[k]).weight == fs[k].weight,
            keys@ == relay_weights(fs).subrange(0, j as int),
        decreases f.len() - j,
    {
        keys.push(f[j].weight as i128);
        j = j + 1;
        proof {
            assert(keys@ =~= relay_weights(fs).subrange(0, j as int));
        }
    }
    proof {
        assert(keys@ =~= relay_weights(fs));
    }
    let perm = stable_order(&keys, true);
    let mut r: Vec<MullvadRelay> = Vec::new();
    let mut m: usize = 0;
    while m < perm.len()
        invariant
            m <= perm@.len(),
            f@.len() == fs.len(),
            forall|k: int| 0 <= k < f@.len() ==> ({
                let e = #[trigger] fs[k];
                &&& f@[k].hostname@ == e.hostname@
                &&& f@[k].ipv4_addr_in@ == e.ipv4_addr_in@
                &&& f@[k].public_key@ == e.public_key@
                &&& f@[k].weight == e.weight
            }),
            is_stable_order(relay_weights(fs), true, perm@),
            relay_views(r@) == Seq::new(m as nat, |k: int| entry_view(fs[perm@[k] as int])),
        decreases perm.len() - m,
    {
        let idx = perm[m];
        proof {
            assert(perm@[m as int] < relay_weights(fs).len());
        }
        let e = &f[idx];
        let rel = MullvadRelay {
            hostname: e.hostname.clone(),
            ipv4_addr_in: e.ipv4_addr_in.clone(),
            public_key: e.public_key.clone(),
            weight: e.weight,
        };
        let ghost before = relay_views(r@);
        proof {
            let _ = fs[idx as int];
        }
        r.push(rel);
        proof {
            assert(relay_views(r@) =~= before.push(entry_view(fs[perm@[m as int] as int])));
        }
        m = m + 1;
        proof {
            assert(relay_views(r@) =~= Seq::new(m as nat, |k: int| entry_view(fs[perm@[k] as int])));
        }
    }
    r
}

/// A country with Mullvad relays.
#[derive(Debug, Clone)]
pub struct MullvadCountry {
    pub code: String,
    pub name: String,
}

/// The view of a country: code and name.
pub open spec fn country_views(v: Seq<MullvadCountry>) -> Seq<(Seq<char>, Seq<char>)> {
    Seq::new(v.len(), |i: int| (v[i].code@, v[i].name@))
}

/// The views of (location key, country name) pairs.
pub open spec fn location_views(v: Seq<(String, String)>) -> Seq<(Seq<char>, Seq<char>)> {
    Seq::new(v.len(), |i: int| (v[i].0@, v[i].1@))
}

/// The country code of a location key: the text before the first `-`.
pub open spec fn location_code(key: Seq<char>) -> Seq<char> {
    split_spec(key, '-')[0]
}

/// Some country in the list has the code `cc`.
pub open spec fn has_code(cs: Seq<(Seq<char>, Seq<char>)>, cc: Seq<char>) -> bool {
    exists|i: int| 0 <= i < cs.len() && (#[trigger] cs[i]).0 == cc
}

/// One country per non-empty location code, in order of first appearance,
/// named after the first location with that code.
pub open spec fn first_countries(locs: Seq<(Seq<char>, Seq<char>)>) -> Seq<(Seq<char>, Seq<char>)>
    decreases locs.len(),
{
    if locs.len() == 0 {
        Seq::empty()
    } else {
        let rest = first_countries(locs.drop_last());
        let cc = location_code(locs.last().0);
        if cc.len() == 0 || has_code(rest, cc) {
            rest
        } else {
            rest.push((cc, locs.last().1))
        }
    }
}

/// The names of countries.
pub open spec fn country_names(cs: Seq<(Seq<char>, Seq<char>)>) -> Seq<Seq<char>> {
    Seq::new(cs.len(), |i: int| cs[i].1)
}

/// The countries of the relay list's locations (pairs of location key and
/// country name, in the order the list is read): one per country code, named
/// after its first location, sorted by name; countries of equal name keep
/// their order.
pub fn countries_from_locations(locations: &Vec<(String, String)>) -> (r: Vec<MullvadCountry>)
    ensures
        exists|perm: Seq<usize>| #![trigger is_name_order(country_names(first_countries(location_views(locations@))), perm)]
            is_name_order(country_names(first_countries(location_views(locations@))), perm)
            && country_views(r@) == Seq::new(
                perm.len(),
                |i: int| first_countries(location_views(locations@))[perm[i] as int],
            ),
{
    let ghost lv = location_views(locations@);
    let mut out: Vec<MullvadCountry> = Vec::new();
    let mut i: usize = 0;
    proof {
        assert(lv.subrange(0, 0) =~= Seq::<(Seq<char>, Seq<char>)>::empty());
    }
    while i < locations.len()
        invariant
            i <= locations@.len(),
            lv == location_views(locations@),
            country_views(out@) == first_countries(lv.subrange(0, i as int)),
        decreases locations.len() - i,
    {
        let ghost pre = lv.subrange(0, i as int);
        let ghost post = lv.subrange(0, i + 1);
        proof {
            assert(post.drop_last() =~= pre);
            assert(post.last() == lv[i as int]);
        }
        let key = chars_of(locations[i].0.as_str());
        let parts = split_chars(&key, '-');
        proof {
            assert(views(parts@)[0] == parts@[0]@);
        }
        let cc = &parts[0];
        if cc.len() > 0 {
            let mut found = false;
            let mut m: usize = 0;
            while m < out.len()
                invariant
                    m <= out@.len(),
                    found == (exists|j: int| 0 <= j < m && (#[trigger] country_views(out@)[j]).0 == cc@),
                decreases out.len() - m,
            {
                let oc = chars_of(out[m].code.as_str());
                if chars_eq(&oc, cc) {
                    proof {
                        assert(country_views(out@)[m as int].0 == cc@);
                    }
                    found = true;
                }
                m = m + 1;
            }
            proof {
                assert(found == has_code(country_views(out@), cc@));
            }
            if !found {
                let c = MullvadCountry { code: string_from_chars(cc), name: locations[i].1.clone() };
                let ghost before = country_views(out@);
                out.push(c);
                proof {
                    assert(country_views(out@) =~= before.push((cc@, lv[i as int].1)));
                }
            }
        }
        i = i + 1;
    }
    proof {
        assert(lv.subrange(0, locations@.len() as int) =~= lv);
    }
    let ghost fc = first_countries(lv);
    let mut names: Vec<String> = Vec::new();
    let mut j: usize = 0;
    while j < out.len()
        invariant
            j <= out@.len(),
            country_views(out@) == fc,
            name_views(names@) == country_names(fc).subrange(0, j as int),
        decreases out.len() - j,
    {
        let ghost before = name_views(names@);
        proof {
            assert(country_views(out@)[j as int].1 == out@[j as int].name@);
        }
        names.push(out[j].name.clone());
        proof {
            assert(name_views(names@) =~= before.push(fc[j as int].1));
        }
        j = j + 1;
        proof {
            assert(name_views(names@) =~= country_names(fc).subrange(0, j as int));
        }
    }
    proof {
        assert(name_views(names@) =~= country_names(fc));
    }
    let perm = name_order(&names);
    let mut r: Vec<MullvadCountry> = Vec::new();
    let mut m: usize = 0;
    while m < perm.len()
        invariant
            m <= perm@.len(),
            country_views(out@) == fc,
            is_name_order(country_names(fc), perm@),
            country_views(r@) == Seq::new(m as nat, |k: int| fc[perm@[k] as int]),
        decreases perm.len() - m,
    {
        let idx = perm[m];
        proof {
            assert(perm@[m as int] < country_names(fc).len());
        }
        let c = MullvadCountry { code: out[idx].code.clone(), name: out[idx].name.clone() };
        let ghost before = country_views(r@);
        r.push(c);
        proof {
            assert(country_views(out@)[idx as int] == fc[idx as int]);
            assert(country_views(r@) =~= before.push(fc[perm@[m as int] as int]));
        }
        m = m + 1;
        proof {
            assert(country_views(r@) =~= Seq::new(m as nat, |k: int| fc[perm@[k] as int]));
        }
    }
    r
}

/// The text of a WireGuard configuration for the tunnel to a relay.
pub open spec fn wg_config_text(
    private_key: Seq<char>,
    address: Seq<char>,
    public_key: Seq<char>,
    endpoint: Seq<char>,
) -> Seq<char> {
    "[Interface]\nPrivateKey = "@ + private_key + "\nAddress = "@ + address
        + "\nTable = off\n\n[Peer]\nPublicKey = "@ + public_key + "\nEndpoint = "@ + endpoint
        + ":51820\nAllowedIPs = 0.0.0.0/0\nPersistentKeepalive = 25\n"@
}

/// The WireGuard configuration of a tunnel through `relay` (no routing table,
/// all IPv4 traffic, keepalive every 25 s).
pub fn generate_wg_config(private_key: &str, address: &str, relay: &MullvadRelay) -> (r: String)
    ensures
        r@ == wg_config_text(private_key@, address@, relay.public_key@, relay.ipv4_addr_in@),
{
    let mut r = String::from_str("[Interface]\nPrivateKey = ");
    r.append(private_key);
    r.append("\nAddress = ");
    r.append(address);
    r.append("\nTable = off\n\n[Peer]\nPublicKey = ");
    r.append(relay.public_key.as_str());
    r.append("\nEndpoint = ");
    r.append(relay.ipv4_addr_in.as_str());
    r.append(":51820\nAllowedIPs = 0.0.0.0/0\nPersistentKeepalive = 25\n");
    r
}


// ---------------------------------------------------------------------------
// /etc/iproute2/rt_tables
// ---------------------------------------------------------------------------

/// An rt_tables line whose second word is `iface`: the entry of that table name.
pub open spec fn names_table(line: Seq<char>, iface: Seq<char>) -> bool {
    let t = tokens_spec(line);
    t.len() >= 2 && t[1] == iface
}

/// The lines that are not the entry of `iface`, in order.
pub open spec fn kept_lines(lines: Seq<Seq<char>>, iface: Seq<char>) -> Seq<Seq<char>>
    decreases lines.len(),
{
    if lines.len() == 0 {
        Seq::empty()
    } else {
        let rest = kept_lines(lines.drop_last(), iface);
        if names_table(lines.last(), iface) {
            rest
        } else {
            rest.push(lines.last())
        }
    }
}

/// The rt_tables text without the entry of `iface`.
pub open spec fn rt_without(content: Seq<char>, iface: Seq<char>) -> Seq<char> {
    terminated(kept_lines(lines_spec(content), iface))
}

/// The entry line of table number `n` named `iface`.
pub open spec fn rt_entry(iface: Seq<char>, n: nat) -> Seq<char> {
    dec_spec(n) + "\t"@ + iface
}

/// The rt_tables text with `iface` (re)entered as table number `n`, at the end.
pub open spec fn rt_with(content: Seq<char>, iface: Seq<char>, n: nat) -> Seq<char> {
    rt_without(content, iface) + rt_entry(iface, n) + "\n"@
}

/// Whether a line names the table `iface`.
fn line_names_table(line: &Vec<char>, iface: &Vec<char>) -> (r: bool)
    ensures
        r == names_table(line@, iface@),
{
    let t = tokens_of(line);
    if t.len() < 2 {
        return false;
    }
    proof {
        assert(views(t@)[1] == t@[1]@);
    }
    chars_eq(&t[1], iface)
}

/// The rt_tables text without the entry of the table named `iface`.
pub fn rt_tables_without(content: &str, iface: &str) -> (r: String)
    ensures
        r@ == rt_without(content@, iface@),
{
    let text = chars_of(content);
    let lines = lines_of(&text);
    let ic = chars_of(iface);
    let mut out = String::new();
    let ghost mut kept: Seq<Seq<char>> = Seq::empty();
    let mut i: usize = 0;
    proof {
        assert(views(lines@).subrange(0, 0) =~= Seq::<Seq<char>>::empty());
    }
    while i < lines.len()
        invariant
            i <= lines.len(),
            ic@ == iface@,
            kept == kept_lines(views(lines@).subrange(0, i as int), iface@),
            out@ == terminated(kept),
        decreases lines.len() - i,
    {
        let ghost pre = views(lines@).subrange(0, i as int);
        let ghost post = views(lines@).subrange(0, i + 1);
        proof {
            assert(post.drop_last() =~= pre);
            assert(post.last() == lines@[i as int]@);
        }
        if !line_names_table(&lines[i], &ic) {
            append_chars(&mut out, &lines[i]);
            out.append("\n");
            proof {
                let k2 = kept.push(lines@[i as int]@);
                assert(k2.drop_last() =~= kept);
                kept = k2;
            }
        }
        i = i + 1;
    }
    proof {
        assert(views(lines@).subrange(0, lines@.len() as int) =~= views(lines@));
    }
    out
}

/// The rt_tables text with `iface` entered as table `table_number` (an older
/// entry of the same name is removed).
pub fn rt_tables_with(content: &str, iface: &str, table_number: u64) -> (r: String)
    ensures
        r@ == rt_with(content@, iface@, table_number as nat),
{
    let mut out = rt_tables_without(content, iface);
    let d = u64_dec(table_number);
    append_chars(&mut out, &d);
    out.append("\t");
    out.append(iface);
    out.append("\n");
    out
}

/// The table number of an rt_tables line: the first word of a line that is
/// neither empty nor a comment, when it is a number.
pub open spec fn rt_number(line: Seq<char>) -> Option<nat> {
    let l = trim_spec(line);
    if l.len() == 0 || l[0] == '#' {
        None
    } else {
        parse_unsigned_spec(first_token(l), 4294967295)
    }
}

/// The table numbers in use, in line order.
pub open spec fn rt_numbers(lines: Seq<Seq<char>>) -> Seq<nat>
    decreases lines.len(),
{
    if lines.len() == 0 {
        Seq::empty()
    } else {
        let rest = rt_numbers(lines.drop_last());
        match rt_number(lines.last()) {
            Some(n) => rest.push(n),
            None => rest,
        }
    }
}

/// Table number `k` is listed in the rt_tables text.
pub open spec fn table_number_used(rt: Seq<char>, k: int) -> bool {
    rt_numbers(lines_spec(rt)).contains(k as nat)
}

/// `r` is the least table number from 220 on that is not yet listed.
pub open spec fn first_free_table(rt: Seq<char>, r: int) -> bool {
    &&& 220 <= r
    &&& !table_number_used(rt, r)
    &&& forall|k: int| 220 <= k < r ==> #[trigger] table_number_used(rt, k)
}

/// Mark `k` is among the marks in use.
pub open spec fn mark_used(marks: Seq<i64>, k: int) -> bool {
    marks.contains(k as i64)
}

/// `r` is the first mark in `220..300` not in use, or 250 when every one of them is.
pub open spec fn first_free_mark(marks: Seq<i64>, r: int) -> bool {
    ||| (220 <= r < 300 && !mark_used(marks, r) && forall|k: int| 220 <= k < r ==> #[trigger] mark_used(marks, k))
    ||| (r == 250 && forall|k: int| 220 <= k < 300 ==> #[trigger] mark_used(marks, k))
}

/// Whether `n` is among the numbers.
fn contains_number(v: &Vec<u64>, n: u64) -> (r: bool)
    ensures
        r == v@.contains(n),
{
    let mut i: usize = 0;
    while i < v.len()
        invariant
            i <= v@.len(),
            forall|j: int| 0 <= j < i ==> v@[j] != n,
        decreases v.len() - i,
    {
        if v[i] == n {
            proof {
                assert(v@[i as int] == n);
            }
            return true;
        }
        i = i + 1;
    }
    false
}

/// The number of one rt_tables line.
fn line_number(line: &Vec<char>) -> (r: Option<u64>)
    ensures
        match rt_number(line@) {
            Some(n) => r == Some(n as u64),
            None => r is None,
        },
{
    let l = trim_chars(line);
    if l.len() == 0 || l[0] == '#' {
        return None;
    }
    let w = first_word(&l);
    parse_unsigned(&w, 4294967295)
}

/// The least routing-table number from 220 on that rt_tables does not list yet.
pub fn next_free_table_number(rt_tables: &str) -> (r: u64)
    ensures
        first_free_table(rt_tables@, r as int),
{
    let text = chars_of(rt_tables);
    let lines = lines_of(&text);
    let mut used: Vec<u64> = Vec::new();
    let mut top: u64 = 219;
    let mut i: usize = 0;
    proof {
        assert(views(lines@).subrange(0, 0) =~= Seq::<Seq<char>>::empty());
    }
    while i < lines.len()
        invariant
            i <= lines.len(),
            219 <= top <= 4294967295,
            used@.len() == rt_numbers(views(lines@).subrange(0, i as int)).len(),
            forall|j: int| 0 <= j < used@.len() ==> used@[j] as nat == #[trigger] rt_numbers(views(lines@).subrange(0, i as int))[j],
            forall|j: int| 0 <= j < used@.len() ==> #[trigger] used@[j] <= top,
        decreases lines.len() - i,
    {
        let ghost pre = views(lines@).subrange(0, i as int);
        let ghost post = views(lines@).subrange(0, i + 1);
        proof {
            assert(post.drop_last() =~= pre);
            assert(post.last() == lines@[i as int]@);
        }
        match line_number(&lines[i]) {
            Some(n) => {
                if n > top {
                    top = n;
                }
                used.push(n);
            },
            None => {},
        }
        i = i + 1;
    }
    proof {
        assert(views(lines@).subrange(0, lines@.len() as int) =~= views(lines@));
    }
    let ghost nums = rt_numbers(lines_spec(rt_tables@));
    let mut k: u64 = 220;
    loop
        invariant
            220 <= k <= top + 1,
            top <= 4294967295,
            used@.len() == nums.len(),
            forall|j: int| 0 <= j < used@.len() ==> used@[j] as nat == #[trigger] nums[j],
            forall|j: int| 0 <= j < used@.len() ==> #[trigger] used@[j] <= top,
            nums == rt_numbers(lines_spec(rt_tables@)),
            forall|m: int| 220 <= m < k ==> #[trigger] table_number_used(rt_tables@, m),
        decreases top + 1 - k,
    {
        if !contains_number(&used, k) {
            proof {
                if nums.contains(k as nat) {
                    let j = choose|j: int| 0 <= j < nums.len() && nums[j] == k as nat;
                    assert(used@[j] as nat == nums[j]);
                    assert(used@.contains(k));
                }
            }
            return k;
        }
        proof {
            let j = choose|j: int| 0 <= j < used@.len() && used@[j] == k;
            assert(used@[j] as nat == nums[j]);
            assert(nums.contains(k as nat));
            assert(table_number_used(rt_tables@, k as int));
            assert(used@[j] <= top);
        }
        k = k + 1;
    }
}

/// The first firewall mark from 220 on that no gateway uses (below 300), or
/// 250 when all of them are taken.
pub fn next_free_mark(used_marks: &Vec<i64>) -> (r: i64)
    ensures
        first_free_mark(used_marks@, r as int),
{
    let mut k: i64 = 220;
    while k < 300
        invariant
            220 <= k <= 300,
            forall|m: int| 220 <= m < k ==> #[trigger] mark_used(used_marks@, m),
        decreases 300 - k,
    {
        let mut found = false;
        let mut i: usize = 0;
        while i < used_marks.len()
            invariant
                i <= used_marks@.len(),
                found == (exists|j: int| 0 <= j < i && used_marks@[j] == k),
            decreases used_marks.len() - i,
        {
            if used_marks[i] == k {
                found = true;
            }
            i = i + 1;
        }
        if !found {
            proof {
                assert(!used_marks@.contains(k));
            }
            return k;
        }
        proof {
            assert(mark_used(used_marks@, k as int));
        }
        k = k + 1;
    }
    250
}


// ---------------------------------------------------------------------------
// Laws of the rt_tables edits
// ---------------------------------------------------------------------------

/// A table name as interfaces have them: non-empty, without whitespace.
pub open spec fn plain_name(x: Seq<char>) -> bool {
    x.len() > 0 && forall|i: int| 0 <= i < x.len() ==> !is_ws(#[trigger] x[i])
}

proof fn lemma_entry_words(x: Seq<char>, n: nat)
    requires
        plain_name(x),
    ensures
        tokens_spec(rt_entry(x, n)) == seq![dec_spec(n), x],
        names_table(rt_entry(x, n), x),
        lacks(rt_entry(x, n), '\n'),
        lacks(rt_entry(x, n), '\r'),
{
    reveal_strlit("\t");
    let d = dec_spec(n);
    lemma_dec_digits(n);
    assert forall|i: int| 0 <= i < d.len() implies !is_ws(#[trigger] d[i]) by {
        assert(is_digit(d[i]));
    }
    let e = rt_entry(x, n);
    assert(e =~= d.push('\t') + x);
    assert(Seq::<char>::empty() + d =~= d);
    lemma_tokens_append_word(Seq::<char>::empty(), d);
    assert(tokens_spec(Seq::<char>::empty()) =~= Seq::<Seq<char>>::empty());
    assert(Seq::<Seq<char>>::empty().push(d) =~= seq![d]);
    lemma_tokens_append_ws(d, '\t');
    assert(d.push('\t').last() == '\t');
    lemma_tokens_append_word(d.push('\t'), x);
    assert(seq![d].push(x) =~= seq![d, x]);
    assert forall|i: int| 0 <= i < e.len() implies e[i] != '\n' && e[i] != '\r' by {
        if i < d.len() {
            assert(e[i] == d[i]);
            assert(is_digit(d[i]));
        } else if i == d.len() {
            assert(e[i] == '\t');
        } else {
            assert(e[i] == x[i - d.len() - 1]);
            assert(!is_ws(x[i - d.len() - 1]));
        }
    }
}

proof fn lemma_kept_lack(ls: Seq<Seq<char>>, x: Seq<char>, c: char)
    requires
        forall|i: int| 0 <= i < ls.len() ==> lacks(#[trigger] ls[i], c),
    ensures
        forall|i: int| 0 <= i < kept_lines(ls, x).len() ==> lacks(#[trigger] kept_lines(ls, x)[i], c),
        forall|i: int| 0 <= i < kept_lines(ls, x).len() ==> !names_table(#[trigger] kept_lines(ls, x)[i], x),
    decreases ls.len(),
{
    if ls.len() > 0 {
        let init = ls.drop_last();
        assert forall|i: int| 0 <= i < init.len() implies lacks(#[trigger] init[i], c) by {
            assert(init[i] == ls[i]);
        }
        lemma_kept_lack(init, x, c);
        let k = kept_lines(ls, x);
        let k0 = kept_lines(init, x);
        assert(lacks(ls[ls.len() - 1], c));
        assert forall|i: int| 0 <= i < k.len() implies lacks(#[trigger] k[i], c) && !names_table(k[i], x) by {
            if i < k0.len() {
                assert(k[i] == k0[i]);
            }
        }
    }
}

proof fn lemma_kept_fixed(ls: Seq<Seq<char>>, x: Seq<char>)
    requires
        forall|i: int| 0 <= i < ls.len() ==> !names_table(#[trigger] ls[i], x),
    ensures
        kept_lines(ls, x) == ls,
    decreases ls.len(),
{
    if ls.len() > 0 {
        let init = ls.drop_last();
        assert forall|i: int| 0 <= i < init.len() implies !names_table(#[trigger] init[i], x) by {
            assert(init[i] == ls[i]);
        }
        lemma_kept_fixed(init, x);
        assert(!names_table(ls[ls.len() - 1], x));
        assert(init.push(ls.last()) =~= ls);
    }
}

/// After an interface is entered, the text holds exactly one entry of that
/// name: the last line, with the given table number. (Texts with carriage
/// returns are left out: a line ending in one is not read back unchanged.)
pub proof fn law_rt_single_entry(content: Seq<char>, iface: Seq<char>, n: nat)
    requires
        lacks(content, '\r'),
        plain_name(iface),
    ensures
        ({
            let ls = lines_spec(rt_with(content, iface, n));
            &&& ls.len() >= 1
            &&& ls.last() == rt_entry(iface, n)
            &&& names_table(ls.last(), iface)
            &&& forall|i: int| 0 <= i < ls.len() - 1 ==> !names_table(#[trigger] ls[i], iface)
        }),
{
    reveal_strlit("\n");
    let lines = lines_spec(content);
    lemma_lines_avoid(content, '\r');
    lemma_kept_lack(lines, iface, '\r');
    let kept = kept_lines(lines, iface);
    assert forall|i: int| 0 <= i < lines.len() implies lacks(#[trigger] lines[i], '\n') by {}
    lemma_kept_lack(lines, iface, '\n');
    lemma_entry_words(iface, n);
    let e = rt_entry(iface, n);
    let all = kept.push(e);
    assert(all.drop_last() =~= kept);
    assert(rt_with(content, iface, n) =~= terminated(all));
    assert forall|i: int| 0 <= i < all.len() implies lacks(#[trigger] all[i], '\n') && lacks(all[i], '\r') by {
        if i < kept.len() {
            assert(all[i] == kept[i]);
        }
    }
    lemma_lines_terminated(all);
    assert forall|i: int| 0 <= i < all.len() - 1 implies !names_table(#[trigger] all[i], iface) by {
        assert(all[i] == kept[i]);
    }
}

/// Removing an interface's entry undoes entering it: the text is the same as
/// removing the entry from the text before. (Texts with carriage returns are
/// left out, as above.)
pub proof fn law_rt_remove_undoes_add(content: Seq<char>, iface: Seq<char>, n: nat)
    requires
        lacks(content, '\r'),
        plain_name(iface),
    ensures
        rt_without(rt_with(content, iface, n), iface) == rt_without(content, iface),
{
    reveal_strlit("\n");
    let lines = lines_spec(content);
    lemma_lines_avoid(content, '\r');
    lemma_kept_lack(lines, iface, '\r');
    let kept = kept_lines(lines, iface);
    assert forall|i: int| 0 <= i < lines.len() implies lacks(#[trigger] lines[i], '\n') by {}
    lemma_kept_lack(lines, iface, '\n');
    lemma_entry_words(iface, n);
    let e = rt_entry(iface, n);
    let all = kept.push(e);
    assert(all.drop_last() =~= kept);
    assert(rt_with(content, iface, n) =~= terminated(all));
    assert forall|i: int| 0 <= i < all.len() implies lacks(#[trigger] all[i], '\n') && lacks(all[i], '\r') by {
        if i < kept.len() {
            assert(all[i] == kept[i]);
        }
    }
    lemma_lines_terminated(all);
    lemma_kept_fixed(kept, iface);
    assert(kept_lines(all, iface) == kept_lines(kept, iface));
}

/// The WireGuard interfaces listed by `wg show interfaces`: its words.
pub fn wg_interfaces_from(output: &str) -> (r: Vec<String>)
    ensures
        sviews(r@) == tokens_spec(output@),
{
    let cs = chars_of(output);
    let ws = tokens_of(&cs);
    let mut r: Vec<String> = Vec::new();
    let mut i: usize = 0;
    while i < ws.len()
        invariant
            i <= ws@.len(),
            views(ws@) == tokens_spec(output@),
            sviews(r@) == views(ws@).subrange(0, i as int),
        decreases ws.len() - i,
    {
        let w = string_from_chars(&ws[i]);
        let ghost before = sviews(r@);
        proof {
            assert(views(ws@)[i as int] == ws@[i as int]@);
        }
        r.push(w);
        proof {
            assert(sviews(r@) =~= before.push(ws@[i as int]@));
        }
        i = i + 1;
        proof {
            assert(sviews(r@) =~= views(ws@).subrange(0, i as int));
        }
    }
    proof {
        assert(views(ws@).subrange(0, ws@.len() as int) =~= views(ws@));
    }
    r
}

/// Where the active configuration of a country's tunnel lives.
pub open spec fn wg_config_path_text(cc: Seq<char>) -> Seq<char> {
    "/etc/wireguard/mu"@ + cc + ".conf"@
}

/// Where the kept copy of a country's tunnel configuration lives.
pub open spec fn wg_staging_path_text(cc: Seq<char>) -> Seq<char> {
    "/home/stellwerk/wg/mu"@ + cc + ".conf"@
}

/// The path of the active WireGuard configuration of a country.
pub fn wg_config_path(country_code: &str) -> (r: String)
    ensures
        r@ == wg_config_path_text(country_code@),
{
    let mut r = String::from_str("/etc/wireguard/mu");
    r.append(country_code);
    r.append(".conf");
    r
}

/// The path of the kept copy of a country's WireGuard configuration.
pub fn wg_staging_path(country_code: &str) -> (r: String)
    ensures
        r@ == wg_staging_path_text(country_code@),
{
    let mut r = String::from_str("/home/stellwerk/wg/mu");
    r.append(country_code);
    r.append(".conf");
    r
}

/// The interface name of a country code is a Mullvad interface exactly when
/// the code is made of letters; the code is read back from the name unless it
/// itself starts with `mu` (whose leading `mu`s are stripped as well).
pub proof fn law_interface_name_round_trip(cc: Seq<char>)
    ensures
        is_mullvad_name(mullvad_name(cc)) <==> (cc.len() > 0 && forall|i: int| 0 <= i < cc.len() ==> is_ascii_alpha(#[trigger] cc[i])),
        !has_prefix(cc, "mu"@) ==> country_of(mullvad_name(cc)) == cc,
{
    reveal_strlit("mu");
    let n = mullvad_name(cc);
    assert(n.subrange(0, 2) =~= "mu"@);
    assert(n.subrange(2, n.len() as int) =~= cc);
    assert forall|i: int| 0 <= i < cc.len() implies n[i + 2] == cc[i] by {}
    if is_mullvad_name(n) {
        assert forall|i: int| 0 <= i < cc.len() implies is_ascii_alpha(#[trigger] cc[i]) by {
            assert(is_ascii_alpha(n[i + 2]));
        }
    }
    if cc.len() > 0 && forall|i: int| 0 <= i < cc.len() ==> is_ascii_alpha(#[trigger] cc[i]) {
        assert forall|i: int| 2 <= i < n.len() implies is_ascii_alpha(#[trigger] n[i]) by {
            assert(n[i] == cc[i - 2]);
        }
    }
    assert(has_prefix(n, "mu"@));
    assert(trim_prefix_all(n, "mu"@) == trim_prefix_all(n.subrange(2, n.len() as int), "mu"@));
    if !has_prefix(cc, "mu"@) {
        assert(trim_prefix_all(cc, "mu"@) == cc);
    }
}

} // verus!
