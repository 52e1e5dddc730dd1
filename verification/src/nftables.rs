//! The nftables ruleset of the `stellwerk` table: NAT, per-client traffic
//! accounting, subnet isolation and DNS leak protection.

use vstd::prelude::*;
use crate::config::DnsConfig;
use crate::lookup::{find_gateway, find_network, lookup_gateway, lookup_network, subnet_of, sviews};
use crate::model::{opt_view, Client, Gateway, NetworkConfig};
use crate::text::{append_chars, chars_of, push_char, split_chars, split_spec, string_from_chars};

verus! {

/// The private address ranges, as an nftables set.
pub open spec fn rfc1918() -> Seq<char> {
    "{ 10.0.0.0/8, 172.16.0.0/12, 192.168.0.0/16 }"@
}

/// `s` with every `.` replaced by `_`.
pub open spec fn dots_to_underscores(s: Seq<char>) -> Seq<char> {
    Seq::new(s.len(), |i: int| if s[i] == '.' { '_' } else { s[i] })
}

/// The name of the counters of a client address.
pub open spec fn counter_name(ip: Seq<char>) -> Seq<char> {
    "c_"@ + dots_to_underscores(ip)
}

/// Converts an address to a valid nftables counter name (dots become underscores).
pub fn ip_to_counter_name(ip: &str) -> (r: String)
    ensures
        r@ == counter_name(ip@),
{
    let cs = chars_of(ip);
    let mut out = String::from_str("c_");
    let ghost start = out@;
    let mut i: usize = 0;
    while i < cs.len()
        invariant
            i <= cs.len(),
            cs@ == ip@,
            out@ == start + dots_to_underscores(cs@).subrange(0, i as int),
        decreases cs.len() - i,
    {
        let c = cs[i];
        if c == '.' {
            push_char(&mut out, '_');
        } else {
            push_char(&mut out, c);
        }
        i = i + 1;
        proof {
            assert(out@ =~= start + dots_to_underscores(cs@).subrange(0, i as int));
        }
    }
    proof {
        assert(dots_to_underscores(cs@).subrange(0, cs@.len() as int) =~= dots_to_underscores(cs@));
    }
    out
}

/// Derives the /24 subnet of a client address ("172.16.1.5" gives "172.16.1.0/24").
pub fn ip_to_subnet_cidr(ip: &str) -> (r: Option<String>)
    ensures
        opt_view(r) == subnet_of(ip@),
{
    let cs = chars_of(ip);
    let parts = split_chars(&cs, '.');
    proof {
        assert(parts@.len() == split_spec(ip@, '.').len());
    }
    if parts.len() == 4 {
        let mut s = string_from_chars(&parts[0]);
        s.append(".");
        append_chars(&mut s, &parts[1]);
        s.append(".");
        append_chars(&mut s, &parts[2]);
        s.append(".0/24");
        proof {
            let ps = split_spec(ip@, '.');
            assert(ps[0] == parts@[0]@);
            assert(ps[1] == parts@[1]@);
            assert(ps[2] == parts@[2]@);
        }
        Some(s)
    } else {
        None
    }
}

// ---------------------------------------------------------------------------
// Sections of the ruleset
// ---------------------------------------------------------------------------

/// The four counter declarations of every active client.
pub open spec fn counter_decls(cs: Seq<Client>) -> Seq<Seq<char>>
    decreases cs.len(),
{
    if cs.len() == 0 {
        Seq::empty()
    } else {
        let rest = counter_decls(cs.drop_last());
        let c = cs.last();
        if c.active == 0 {
            rest
        } else {
            let cn = counter_name(c.ip@);
            rest + seq![
                "  counter "@ + cn + "_in_intern {}"@,
                "  counter "@ + cn + "_in_extern {}"@,
                "  counter "@ + cn + "_out_intern {}"@,
                "  counter "@ + cn + "_out_extern {}"@,
            ]
        }
    }
}

/// The SNAT rule for the DNS mark, when the DNS gateway has a fixed source address.
pub open spec fn dns_snat_lines(gs: Seq<Gateway>, dns_gw: Option<Seq<char>>) -> Seq<Seq<char>> {
    match dns_gw {
        Some(n) => match find_gateway(gs, n) {
            Some(g) => match opt_view(g.src_ip) {
                Some(src) => seq!["    meta mark 0x53 snat to "@ + src + ";"@],
                None => Seq::empty(),
            },
            None => Seq::empty(),
        },
        None => Seq::empty(),
    }
}

/// Per-client SNAT for active clients whose gateway has a fixed source address.
pub open spec fn client_snat_lines(cs: Seq<Client>, gs: Seq<Gateway>) -> Seq<Seq<char>>
    decreases cs.len(),
{
    if cs.len() == 0 {
        Seq::empty()
    } else {
        let rest = client_snat_lines(cs.drop_last(), gs);
        let c = cs.last();
        if c.active == 0 {
            rest
        } else {
            match find_gateway(gs, c.gateway@) {
                Some(g) => match opt_view(g.src_ip) {
                    Some(src) => rest.push("    ip saddr "@ + c.ip@ + " snat to "@ + src + ";"@),
                    None => rest,
                },
                None => rest,
            }
        }
    }
}

/// A gateway that is masqueraded on its interface: no fixed source, not loopback.
pub open spec fn masquerades(g: Gateway) -> bool {
    g.src_ip is None && g.interface@ != "lo"@
}

/// An earlier gateway already masquerades interface `iface`.
pub open spec fn masqueraded_before(gs: Seq<Gateway>, i: int, iface: Seq<char>) -> bool {
    exists|j: int| 0 <= j < i && masquerades(gs[j]) && #[trigger] gs[j].interface@ == iface
}

/// Some string of `seen` has the value `x`.
pub open spec fn in_seen(seen: Seq<String>, x: Seq<char>) -> bool {
    exists|k: int| 0 <= k < seen.len() && #[trigger] seen[k]@ == x
}

/// One masquerade rule per interface of the masquerading gateways, in first-seen order.
pub open spec fn masquerade_lines(gs: Seq<Gateway>) -> Seq<Seq<char>>
    decreases gs.len(),
{
    if gs.len() == 0 {
        Seq::empty()
    } else {
        let rest = masquerade_lines(gs.drop_last());
        let g = gs.last();
        if masquerades(g) && !masqueraded_before(gs, gs.len() - 1, g.interface@) {
            rest.push("    oifname \""@ + g.interface@ + "\" masquerade;"@)
        } else {
            rest
        }
    }
}

/// The outbound accounting rules of every active client.
pub open spec fn accounting_out_lines(cs: Seq<Client>) -> Seq<Seq<char>>
    decreases cs.len(),
{
    if cs.len() == 0 {
        Seq::empty()
    } else {
        let rest = accounting_out_lines(cs.drop_last());
        let c = cs.last();
        if c.active == 0 {
            rest
        } else {
            let cn = counter_name(c.ip@);
            rest + seq![
                "    ip saddr "@ + c.ip@ + " ip daddr "@ + rfc1918() + " counter name "@ + cn + "_out_intern;"@,
                "    ip saddr "@ + c.ip@ + " ip daddr != "@ + rfc1918() + " counter name "@ + cn + "_out_extern;"@,
            ]
        }
    }
}

/// The inbound accounting rules of every active client.
pub open spec fn accounting_in_lines(cs: Seq<Client>) -> Seq<Seq<char>>
    decreases cs.len(),
{
    if cs.len() == 0 {
        Seq::empty()
    } else {
        let rest = accounting_in_lines(cs.drop_last());
        let c = cs.last();
        if c.active == 0 {
            rest
        } else {
            let cn = counter_name(c.ip@);
            rest + seq![
                "    ip daddr "@ + c.ip@ + " ip saddr "@ + rfc1918() + " counter name "@ + cn + "_in_intern;"@,
                "    ip daddr "@ + c.ip@ + " ip saddr != "@ + rfc1918() + " counter name "@ + cn + "_in_extern;"@,
            ]
        }
    }
}

/// A subnet whose clients may reach the internet but no other LAN subnet.
pub open spec fn is_gateway_only(n: NetworkConfig) -> bool {
    n.gateway_only != 0 && n.internal_only == 0
}

/// The isolation rules of the gateway-only subnets.
pub open spec fn isolation_rules(ns: Seq<NetworkConfig>) -> Seq<Seq<char>>
    decreases ns.len(),
{
    if ns.len() == 0 {
        Seq::empty()
    } else {
        let rest = isolation_rules(ns.drop_last());
        let n = ns.last();
        if is_gateway_only(n) {
            rest.push("    ip saddr "@ + n.subnet@ + " ip daddr != "@ + n.subnet@ + " ip daddr "@ + rfc1918() + " drop;"@)
        } else {
            rest
        }
    }
}

/// The forward chain, present when some subnet is gateway-only.
pub open spec fn forward_chain(ns: Seq<NetworkConfig>) -> Seq<Seq<char>> {
    let rules = isolation_rules(ns);
    if rules.len() == 0 {
        Seq::empty()
    } else {
        seq!["  chain forward {"@, "    type filter hook forward priority filter; policy accept;"@]
            + rules + seq!["  }"@]
    }
}

/// The chain that marks Unbound's traffic, present when DNS routing is configured.
pub open spec fn dns_output_chain(dns_gw: Option<Seq<char>>, user: Seq<char>) -> Seq<Seq<char>> {
    if dns_gw is Some {
        seq![
            "  chain dns_output {"@,
            "    type route hook output priority mangle; policy accept;"@,
            "    meta skuid \""@ + user + "\" meta nfproto ipv6 drop;"@,
            "    meta skuid \""@ + user + "\" mark set 0x53;"@,
            "  }"@,
        ]
    } else {
        Seq::empty()
    }
}

/// A present and non-empty string.
pub open spec fn nonempty(o: Option<Seq<char>>) -> Option<Seq<char>> {
    match o {
        Some(s) => if s.len() > 0 { Some(s) } else { None },
        None => None,
    }
}

/// The DNS server of a client: its own, else its gateway's, else its /24 subnet's.
pub open spec fn client_dns(c: Client, gs: Seq<Gateway>, ns: Seq<NetworkConfig>) -> Option<Seq<char>> {
    match nonempty(opt_view(c.dns_ip)) {
        Some(d) => Some(d),
        None => {
            let from_gw = match find_gateway(gs, c.gateway@) {
                Some(g) => nonempty(opt_view(g.dns_ip)),
                None => None,
            };
            match from_gw {
                Some(d) => Some(d),
                None => match subnet_of(c.ip@) {
                    Some(sn) => match find_network(ns, sn) {
                        Some(n) => nonempty(opt_view(n.dns_ip)),
                        None => None,
                    },
                    None => None,
                },
            }
        }
    }
}

/// A client's own DNS override wins: a client whose own DNS server is set
/// (and not empty) is redirected to exactly that server, whatever its
/// gateway or its subnet say.
pub proof fn law_own_dns_override_wins(c: Client, gs: Seq<Gateway>, ns: Seq<NetworkConfig>, d: String)
    requires
        c.dns_ip == Some(d),
        d@.len() > 0,
    ensures
        client_dns(c, gs, ns) == Some(d@),
{
}

/// Without an override of its own, a client is redirected to the DNS server
/// of its gateway (the first gateway of that name), whatever its subnet says.
pub proof fn law_gateway_dns_before_subnet(c: Client, gs: Seq<Gateway>, ns: Seq<NetworkConfig>, i: int)
    requires
        c.dns_ip is None || c.dns_ip->0@.len() == 0,
        0 <= i < gs.len(),
        gs[i].name@ == c.gateway@,
        forall|j: int| 0 <= j < i ==> (#[trigger] gs[j]).name@ != c.gateway@,
        gs[i].dns_ip is Some,
        gs[i].dns_ip->0@.len() > 0,
    ensures
        client_dns(c, gs, ns) == Some(gs[i].dns_ip->0@),
{
    crate::lookup::lemma_find_gateway_first(gs, c.gateway@, i);
}

/// The DNAT entry of one client: UDP and TCP port 53 to its DNS server.
pub open spec fn dnat_entry(ip: Seq<char>, d: Seq<char>) -> Seq<char> {
    "    ip saddr "@ + ip + " udp dport 53 dnat to "@ + d + ";\n    ip saddr "@ + ip
        + " tcp dport 53 dnat to "@ + d + ";"@
}

/// The DNAT entries of the active clients that have a DNS server.
pub open spec fn dnat_entries(cs: Seq<Client>, gs: Seq<Gateway>, ns: Seq<NetworkConfig>) -> Seq<Seq<char>>
    decreases cs.len(),
{
    if cs.len() == 0 {
        Seq::empty()
    } else {
        let rest = dnat_entries(cs.drop_last(), gs, ns);
        let c = cs.last();
        if c.active == 0 {
            rest
        } else {
            match client_dns(c, gs, ns) {
                Some(d) => rest.push(dnat_entry(c.ip@, d)),
                None => rest,
            }
        }
    }
}

/// The DNS redirection chain, present when some client has a DNS server.
pub open spec fn prerouting_dns_chain(cs: Seq<Client>, gs: Seq<Gateway>, ns: Seq<NetworkConfig>) -> Seq<Seq<char>> {
    let entries = dnat_entries(cs, gs, ns);
    if entries.len() == 0 {
        Seq::empty()
    } else {
        seq!["  chain prerouting_dns {"@, "    type nat hook prerouting priority dstnat; policy accept;"@]
            + entries + seq!["  }"@]
    }
}

/// All entries of the ruleset, in order.
pub open spec fn ruleset_lines(
    cs: Seq<Client>,
    gs: Seq<Gateway>,
    ns: Seq<NetworkConfig>,
    dns_gw: Option<Seq<char>>,
    user: Seq<char>,
) -> Seq<Seq<char>> {
    seq!["table inet stellwerk {"@] + counter_decls(cs) + seq![
        "  chain postrouting {"@,
        "    type nat hook postrouting priority srcnat; policy accept;"@,
    ] + dns_snat_lines(gs, dns_gw) + client_snat_lines(cs, gs) + masquerade_lines(gs) + seq![
        "  }"@,
        "  chain accounting_out {"@,
        "    type filter hook postrouting priority srcnat + 5; policy accept;"@,
    ] + accounting_out_lines(cs) + seq![
        "  }"@,
        "  chain accounting_in {"@,
        "    type filter hook prerouting priority dstnat + 5; policy accept;"@,
    ] + accounting_in_lines(cs) + seq!["  }"@] + forward_chain(ns) + dns_output_chain(dns_gw, user)
        + prerouting_dns_chain(cs, gs, ns) + seq!["}"@]
}

/// Entries joined by newlines.
pub open spec fn join_lines(ls: Seq<Seq<char>>) -> Seq<char>
    decreases ls.len(),
{
    if ls.len() == 0 {
        Seq::empty()
    } else if ls.len() == 1 {
        ls[0]
    } else {
        join_lines(ls.drop_last()) + "\n"@ + ls.last()
    }
}

/// Joins lines with newlines.
pub fn join_with_newlines(ls: &Vec<String>) -> (r: String)
    ensures
        r@ == join_lines(sviews(ls@)),
{
    let mut out = String::new();
    let mut i: usize = 0;
    proof {
        assert(sviews(ls@).subrange(0, 0) =~= Seq::<Seq<char>>::empty());
    }
    while i < ls.len()
        invariant
            i <= ls.len(),
            out@ == join_lines(sviews(ls@).subrange(0, i as int)),
        decreases ls.len() - i,
    {
        let ghost pre = sviews(ls@).subrange(0, i as int);
        let ghost post = sviews(ls@).subrange(0, i + 1);
        proof {
            assert(post.drop_last() =~= pre);
            assert(post.last() == ls@[i as int]@);
        }
        if i > 0 {
            out.append("\n");
        }
        out.append(ls[i].as_str());
        proof {
            if i == 0 {
                assert(post.len() == 1);
            }
        }
        i = i + 1;
    }
    proof {
        assert(sviews(ls@).subrange(0, ls@.len() as int) =~= sviews(ls@));
    }
    out
}

/// The whole `stellwerk` table as nftables source text.
pub open spec fn ruleset_text(
    cs: Seq<Client>,
    gs: Seq<Gateway>,
    ns: Seq<NetworkConfig>,
    dns_gw: Option<Seq<char>>,
    user: Seq<char>,
) -> Seq<char> {
    join_lines(ruleset_lines(cs, gs, ns, dns_gw, user))
}

fn push_line(lines: &mut Vec<String>, l: String)
    ensures
        sviews(final(lines)@) == sviews(old(lines)@).push(l@),
{
    lines.push(l);
    proof {
        assert(sviews(lines@) =~= sviews(old(lines)@).push(l@));
    }
}

fn push_literal(lines: &mut Vec<String>, l: &str)
    ensures
        sviews(final(lines)@) == sviews(old(lines)@).push(l@),
{
    push_line(lines, l.to_owned());
}

fn add_counter_decls(lines: &mut Vec<String>, clients: &[Client])
    ensures
        sviews(final(lines)@) == sviews(old(lines)@) + counter_decls(clients@),
{
    let ghost start = sviews(lines@);
    let mut i: usize = 0;
    proof {
        assert(clients@.subrange(0, 0) =~= Seq::<Client>::empty());
        assert(sviews(lines@) =~= start + counter_decls(clients@.subrange(0, 0)));
    }
    while i < clients.len()
        invariant
            i <= clients@.len(),
            sviews(lines@) == start + counter_decls(clients@.subrange(0, i as int)),
        decreases clients.len() - i,
    {
        let ghost pre = clients@.subrange(0, i as int);
        let ghost post = clients@.subrange(0, i + 1);
        proof {
            assert(post.drop_last() =~= pre);
            assert(post.last() == clients@[i as int]);
        }
        let c = &clients[i];
        if c.active != 0 {
            let cn = ip_to_counter_name(c.ip.as_str());
            let mut l1 = String::from_str("  counter ");
            l1.append(cn.as_str());
            l1.append("_in_intern {}");
            let mut l2 = String::from_str("  counter ");
            l2.append(cn.as_str());
            l2.append("_in_extern {}");
            let mut l3 = String::from_str("  counter ");
            l3.append(cn.as_str());
            l3.append("_out_intern {}");
            let mut l4 = String::from_str("  counter ");
            l4.append(cn.as_str());
            l4.append("_out_extern {}");
            let ghost v1 = l1@;
            let ghost v2 = l2@;
            let ghost v3 = l3@;
            let ghost v4 = l4@;
            push_line(lines, l1);
            push_line(lines, l2);
            push_line(lines, l3);
            push_line(lines, l4);
            proof {
                assert(sviews(lines@) =~= start + counter_decls(pre) + seq![v1, v2, v3, v4]);
            }
        }
        i = i + 1;
    }
    proof {
        assert(clients@.subrange(0, clients@.len() as int) =~= clients@);
    }
}

fn add_dns_snat(lines: &mut Vec<String>, gateways: &[Gateway], dns: &DnsConfig)
    ensures
        sviews(final(lines)@) == sviews(old(lines)@) + dns_snat_lines(gateways@, opt_view(dns.gateway)),
{
    proof {
        assert(sviews(lines@) + Seq::<Seq<char>>::empty() =~= sviews(lines@));
    }
    if let Some(name) = &dns.gateway {
        if let Some(gw) = lookup_gateway(gateways, name) {
            if let Some(src) = &gw.src_ip {
                let mut l = String::from_str("    meta mark 0x53 snat to ");
                l.append(src.as_str());
                l.append(";");
                push_line(lines, l);
                proof {
                    assert(sviews(lines@) =~= sviews(old(lines)@) + dns_snat_lines(gateways@, opt_view(dns.gateway)));
                }
            }
        }
    }
}

fn add_client_snat(lines: &mut Vec<String>, clients: &[Client], gateways: &[Gateway])
    ensures
        sviews(final(lines)@) == sviews(old(lines)@) + client_snat_lines(clients@, gateways@),
{
    let ghost start = sviews(lines@);
    let mut i: usize = 0;
    proof {
        assert(clients@.subrange(0, 0) =~= Seq::<Client>::empty());
        assert(sviews(lines@) =~= start + client_snat_lines(clients@.subrange(0, 0), gateways@));
    }
    while i < clients.len()
        invariant
            i <= clients@.len(),
            sviews(lines@) == start + client_snat_lines(clients@.subrange(0, i as int), gateways@),
        decreases clients.len() - i,
    {
        let ghost pre = clients@.subrange(0, i as int);
        let ghost post = clients@.subrange(0, i + 1);
        proof {
            assert(post.drop_last() =~= pre);
            assert(post.last() == clients@[i as int]);
        }
        let c = &clients[i];
        if c.active != 0 {
            if let Some(gw) = lookup_gateway(gateways, &c.gateway) {
                if let Some(src) = &gw.src_ip {
                    let mut l = String::from_str("    ip saddr ");
                    l.append(c.ip.as_str());
                    l.append(" snat to ");
                    l.append(src.as_str());
                    l.append(";");
                    let ghost lv = l@;
                    push_line(lines, l);
                    proof {
                        assert(sviews(lines@) =~= (start + client_snat_lines(pre, gateways@)).push(lv));
                    }
                }
            }
        }
        i = i + 1;
    }
    proof {
        assert(clients@.subrange(0, clients@.len() as int) =~= clients@);
    }
}

proof fn lemma_masqueraded_step(gs: Seq<Gateway>, i: int, x: Seq<char>)
    requires
        0 <= i < gs.len(),
    ensures
        masqueraded_before(gs, i + 1, x) <==> (masqueraded_before(gs, i, x) || (masquerades(gs[i])
            && gs[i].interface@ == x)),
{
    if masqueraded_before(gs, i + 1, x) {
        let j = choose|j: int| 0 <= j < i + 1 && masquerades(gs[j]) && #[trigger] gs[j].interface@ == x;
        if j < i {
            assert(masqueraded_before(gs, i, x));
        }
    }
    if masqueraded_before(gs, i, x) {
        let j = choose|j: int| 0 <= j < i && masquerades(gs[j]) && #[trigger] gs[j].interface@ == x;
        assert(masqueraded_before(gs, i + 1, x));
    }
    if masquerades(gs[i]) && gs[i].interface@ == x {
        assert(masqueraded_before(gs, i + 1, x));
    }
}

proof fn lemma_in_seen_push(seen: Seq<String>, v: String, x: Seq<char>)
    ensures
        in_seen(seen.push(v), x) <==> (in_seen(seen, x) || v@ == x),
{
    let s2 = seen.push(v);
    if in_seen(s2, x) {
        let k = choose|k: int| 0 <= k < s2.len() && #[trigger] s2[k]@ == x;
        if k < seen.len() {
            assert(seen[k]@ == x);
        }
    }
    if in_seen(seen, x) {
        let k = choose|k: int| 0 <= k < seen.len() && #[trigger] seen[k]@ == x;
        assert(s2[k]@ == x);
    }
    if v@ == x {
        assert(s2[seen.len() as int]@ == x);
    }
}

fn add_masquerade(lines: &mut Vec<String>, gateways: &[Gateway])
    ensures
        sviews(final(lines)@) == sviews(old(lines)@) + masquerade_lines(gateways@),
{
    let ghost start = sviews(lines@);
    let mut seen: Vec<String> = Vec::new();
    let lo = String::from_str("lo");
    let mut i: usize = 0;
    proof {
        assert(gateways@.subrange(0, 0) =~= Seq::<Gateway>::empty());
        assert(sviews(lines@) =~= start + masquerade_lines(gateways@.subrange(0, 0)));
    }
    while i < gateways.len()
        invariant
            i <= gateways@.len(),
            lo@ == "lo"@,
            sviews(lines@) == start + masquerade_lines(gateways@.subrange(0, i as int)),
            forall|x: Seq<char>| #[trigger] in_seen(seen@, x) <==> masqueraded_before(gateways@, i as int, x),
        decreases gateways.len() - i,
    {
        let ghost pre = gateways@.subrange(0, i as int);
        let ghost post = gateways@.subrange(0, i + 1);
        let g = &gateways[i];
        proof {
            assert(post.drop_last() =~= pre);
            assert(post.last() == gateways@[i as int]);
            assert forall|x: Seq<char>| masqueraded_before(post, i as int, x) <==> masqueraded_before(
                gateways@,
                i as int,
                x,
            ) by {
                if masqueraded_before(post, i as int, x) {
                    let j = choose|j: int| 0 <= j < i && masquerades(post[j]) && #[trigger] post[j].interface@ == x;
                    assert(post[j] == gateways@[j]);
                }
                if masqueraded_before(gateways@, i as int, x) {
                    let j = choose|j: int| 0 <= j < i && masquerades(gateways@[j]) && #[trigger] gateways@[j].interface@ == x;
                    assert(post[j] == gateways@[j]);
                }
            }
        }
        let qualifies = g.src_ip.is_none() && !(g.interface == lo);
        let mut found = false;
        let mut k: usize = 0;
        while k < seen.len()
            invariant
                k <= seen@.len(),
                found == (exists|m: int| 0 <= m < k && #[trigger] seen@[m]@ == g.interface@),
            decreases seen.len() - k,
        {
            if seen[k] == g.interface {
                found = true;
            }
            k = k + 1;
        }
        proof {
            assert(found == in_seen(seen@, g.interface@));
        }
        let ghost seen_before = seen@;
        proof {
            assert(qualifies == masquerades(gateways@[i as int]));
        }
        if qualifies && !found {
            let mut l = String::from_str("    oifname \"");
            l.append(g.interface.as_str());
            l.append("\" masquerade;");
            let ghost lv = l@;
            push_line(lines, l);
            seen.push(g.interface.clone());
            proof {
                assert(sviews(lines@) =~= (start + masquerade_lines(pre)).push(lv));
            }
        }
        proof {
            let ghost i1: int = i + 1;
            assert forall|x: Seq<char>| #[trigger] in_seen(seen@, x) <==> masqueraded_before(gateways@, i1, x) by {
                lemma_masqueraded_step(gateways@, i as int, x);
                if qualifies && !found {
                    assert(seen@ =~= seen_before.push(seen@.last()));
                    assert(seen@.last()@ == g.interface@);
                    lemma_in_seen_push(seen_before, seen@.last(), x);
                }
            }
        }
        i = i + 1;
    }
    proof {
        assert(gateways@.subrange(0, gateways@.len() as int) =~= gateways@);
    }
}

fn add_accounting(lines: &mut Vec<String>, clients: &[Client], outbound: bool)
    ensures
        sviews(final(lines)@) == sviews(old(lines)@) + (if outbound {
            accounting_out_lines(clients@)
        } else {
            accounting_in_lines(clients@)
        }),
{
    let ghost start = sviews(lines@);
    let ghost f = |s: Seq<Client>| if outbound { accounting_out_lines(s) } else { accounting_in_lines(s) };
    let mut i: usize = 0;
    proof {
        assert(clients@.subrange(0, 0) =~= Seq::<Client>::empty());
        assert(sviews(lines@) =~= start + f(clients@.subrange(0, 0)));
    }
    while i < clients.len()
        invariant
            i <= clients@.len(),
            f == (|s: Seq<Client>| if outbound { accounting_out_lines(s) } else { accounting_in_lines(s) }),
            sviews(lines@) == start + f(clients@.subrange(0, i as int)),
        decreases clients.len() - i,
    {
        let ghost pre = clients@.subrange(0, i as int);
        let ghost post = clients@.subrange(0, i + 1);
        proof {
            assert(post.drop_last() =~= pre);
            assert(post.last() == clients@[i as int]);
        }
        let c = &clients[i];
        if c.active != 0 {
            let cn = ip_to_counter_name(c.ip.as_str());
            let (dir_own, dir_other, suffix_i, suffix_e) = if outbound {
                ("    ip saddr ", " ip daddr ", "_out_intern;", "_out_extern;")
            } else {
                ("    ip daddr ", " ip saddr ", "_in_intern;", "_in_extern;")
            };
            let mut l1 = String::from_str(dir_own);
            l1.append(c.ip.as_str());
            l1.append(dir_other);
            l1.append("{ 10.0.0.0/8, 172.16.0.0/12, 192.168.0.0/16 }");
            l1.append(" counter name ");
            l1.append(cn.as_str());
            l1.append(suffix_i);
            let mut l2 = String::from_str(dir_own);
            l2.append(c.ip.as_str());
            l2.append(dir_other);
            l2.append("!= ");
            l2.append("{ 10.0.0.0/8, 172.16.0.0/12, 192.168.0.0/16 }");
            l2.append(" counter name ");
            l2.append(cn.as_str());
            l2.append(suffix_e);
            let ghost v1 = l1@;
            let ghost v2 = l2@;
            push_line(lines, l1);
            push_line(lines, l2);
            proof {
                reveal_strlit(" ip daddr ");
                reveal_strlit(" ip saddr ");
                reveal_strlit(" ip daddr != ");
                reveal_strlit(" ip saddr != ");
                reveal_strlit("!= ");
                if outbound {
                    assert(" ip daddr "@ + "!= "@ =~= " ip daddr != "@);
                    assert(v2 =~= "    ip saddr "@ + c.ip@ + " ip daddr != "@ + rfc1918() + " counter name "@
                        + counter_name(c.ip@) + "_out_extern;"@);
                } else {
                    assert(" ip saddr "@ + "!= "@ =~= " ip saddr != "@);
                    assert(v2 =~= "    ip daddr "@ + c.ip@ + " ip saddr != "@ + rfc1918() + " counter name "@
                        + counter_name(c.ip@) + "_in_extern;"@);
                }
                assert(sviews(lines@) =~= start + f(pre) + seq![v1, v2]);
            }
        }
        i = i + 1;
    }
    proof {
        assert(clients@.subrange(0, clients@.len() as int) =~= clients@);
    }
}

fn add_forward_chain(lines: &mut Vec<String>, networks: &[NetworkConfig])
    ensures
        sviews(final(lines)@) == sviews(old(lines)@) + forward_chain(networks@),
{
    let mut rules: Vec<String> = Vec::new();
    let mut i: usize = 0;
    proof {
        assert(networks@.subrange(0, 0) =~= Seq::<NetworkConfig>::empty());
        assert(sviews(rules@) =~= isolation_rules(networks@.subrange(0, 0)));
    }
    while i < networks.len()
        invariant
            i <= networks@.len(),
            sviews(rules@) == isolation_rules(networks@.subrange(0, i as int)),
        decreases networks.len() - i,
    {
        let ghost pre = networks@.subrange(0, i as int);
        let ghost post = networks@.subrange(0, i + 1);
        proof {
            assert(post.drop_last() =~= pre);
            assert(post.last() == networks@[i as int]);
        }
        let n = &networks[i];
        if n.gateway_only != 0 && n.internal_only == 0 {
            let mut l = String::from_str("    ip saddr ");
            l.append(n.subnet.as_str());
            l.append(" ip daddr != ");
            l.append(n.subnet.as_str());
            l.append(" ip daddr ");
            l.append("{ 10.0.0.0/8, 172.16.0.0/12, 192.168.0.0/16 }");
            l.append(" drop;");
            push_line(&mut rules, l);
        }
        i = i + 1;
    }
    proof {
        assert(networks@.subrange(0, networks@.len() as int) =~= networks@);
    }
    if rules.len() > 0 {
        let ghost start = sviews(lines@);
        push_literal(lines, "  chain forward {");
        push_literal(lines, "    type filter hook forward priority filter; policy accept;");
        let mut j: usize = 0;
        let ghost head = sviews(lines@);
        while j < rules.len()
            invariant
                j <= rules@.len(),
                sviews(lines@) == head + sviews(rules@).subrange(0, j as int),
            decreases rules.len() - j,
        {
            push_line(lines, rules[j].clone());
            j = j + 1;
            proof {
                assert(sviews(lines@) =~= head + sviews(rules@).subrange(0, j as int));
            }
        }
        push_literal(lines, "  }");
        proof {
            assert(sviews(rules@).subrange(0, rules@.len() as int) =~= sviews(rules@));
            assert(sviews(lines@) =~= start + forward_chain(networks@));
        }
    } else {
        proof {
            assert(sviews(lines@) + Seq::<Seq<char>>::empty() =~= sviews(lines@));
        }
    }
}

fn add_dns_output(lines: &mut Vec<String>, dns: &DnsConfig)
    ensures
        sviews(final(lines)@) == sviews(old(lines)@) + dns_output_chain(opt_view(dns.gateway), dns.unbound_user@),
{
    if dns.gateway.is_some() {
        let ghost start = sviews(lines@);
        push_literal(lines, "  chain dns_output {");
        push_literal(lines, "    type route hook output priority mangle; policy accept;");
        let mut l1 = String::from_str("    meta skuid \"");
        l1.append(dns.unbound_user.as_str());
        l1.append("\" meta nfproto ipv6 drop;");
        push_line(lines, l1);
        let mut l2 = String::from_str("    meta skuid \"");
        l2.append(dns.unbound_user.as_str());
        l2.append("\" mark set 0x53;");
        push_line(lines, l2);
        push_literal(lines, "  }");
        proof {
            assert(sviews(lines@) =~= start + dns_output_chain(opt_view(dns.gateway), dns.unbound_user@));
        }
    } else {
        proof {
            assert(sviews(lines@) + Seq::<Seq<char>>::empty() =~= sviews(lines@));
        }
    }
}

fn some_nonempty(o: &Option<String>) -> (r: Option<String>)
    ensures
        opt_view(r) == nonempty(opt_view(*o)),
{
    match o {
        Some(s) => if s.as_str().is_empty() {
            None
        } else {
            Some(s.clone())
        },
        None => None,
    }
}

/// The DNS server that DNS-leak protection redirects a client to.
pub fn client_dns_server(c: &Client, gateways: &[Gateway], networks: &[NetworkConfig]) -> (r: Option<String>)
    ensures
        opt_view(r) == client_dns(*c, gateways@, networks@),
{
    let own = some_nonempty(&c.dns_ip);
    if own.is_some() {
        return own;
    }
    if let Some(gw) = lookup_gateway(gateways, &c.gateway) {
        let g = some_nonempty(&gw.dns_ip);
        if g.is_some() {
            return g;
        }
    }
    match ip_to_subnet_cidr(c.ip.as_str()) {
        Some(sn) => match lookup_network(networks, &sn) {
            Some(n) => some_nonempty(&n.dns_ip),
            None => None,
        },
        None => None,
    }
}

fn add_prerouting_dns(lines: &mut Vec<String>, clients: &[Client], gateways: &[Gateway], networks: &[NetworkConfig])
    ensures
        sviews(final(lines)@) == sviews(old(lines)@) + prerouting_dns_chain(clients@, gateways@, networks@),
{
    let mut entries: Vec<String> = Vec::new();
    let mut i: usize = 0;
    proof {
        assert(clients@.subrange(0, 0) =~= Seq::<Client>::empty());
        assert(sviews(entries@) =~= dnat_entries(clients@.subrange(0, 0), gateways@, networks@));
    }
    while i < clients.len()
        invariant
            i <= clients@.len(),
            sviews(entries@) == dnat_entries(clients@.subrange(0, i as int), gateways@, networks@),
        decreases clients.len() - i,
    {
        let ghost pre = clients@.subrange(0, i as int);
        let ghost post = clients@.subrange(0, i + 1);
        proof {
            assert(post.drop_last() =~= pre);
            assert(post.last() == clients@[i as int]);
        }
        let c = &clients[i];
        if c.active != 0 {
            if let Some(d) = client_dns_server(c, gateways, networks) {
                let mut l = String::from_str("    ip saddr ");
                l.append(c.ip.as_str());
                l.append(" udp dport 53 dnat to ");
                l.append(d.as_str());
                l.append(";\n    ip saddr ");
                l.append(c.ip.as_str());
                l.append(" tcp dport 53 dnat to ");
                l.append(d.as_str());
                l.append(";");
                push_line(&mut entries, l);
            }
        }
        i = i + 1;
    }
    proof {
        assert(clients@.subrange(0, clients@.len() as int) =~= clients@);
    }
    if entries.len() > 0 {
        let ghost start = sviews(lines@);
        push_literal(lines, "  chain prerouting_dns {");
        push_literal(lines, "    type nat hook prerouting priority dstnat; policy accept;");
        let mut j: usize = 0;
        let ghost head = sviews(lines@);
        while j < entries.len()
            invariant
                j <= entries@.len(),
                sviews(lines@) == head + sviews(entries@).subrange(0, j as int),
            decreases entries.len() - j,
        {
            push_line(lines, entries[j].clone());
            j = j + 1;
            proof {
                assert(sviews(lines@) =~= head + sviews(entries@).subrange(0, j as int));
            }
        }
        push_literal(lines, "  }");
        proof {
            assert(sviews(entries@).subrange(0, entries@.len() as int) =~= sviews(entries@));
            assert(sviews(lines@) =~= start + prerouting_dns_chain(clients@, gateways@, networks@));
        }
    } else {
        proof {
            assert(sviews(lines@) + Seq::<Seq<char>>::empty() =~= sviews(lines@));
        }
    }
}

/// Builds the nftables ruleset of the `stellwerk` table.
///
/// Routing itself is done by source-address iproute2 rules; the table holds
/// NAT, per-client traffic counters, gateway-only isolation and DNS leak
/// protection. `_default_gw` does not influence the ruleset.
pub fn build_ruleset(
    clients: &[Client],
    gateways: &[Gateway],
    networks: &[NetworkConfig],
    _default_gw: &str,
    dns: &DnsConfig,
) -> (r: String)
    ensures
        r@ == ruleset_text(clients@, gateways@, networks@, opt_view(dns.gateway), dns.unbound_user@),
{
    let mut lines: Vec<String> = Vec::new();
    push_literal(&mut lines, "table inet stellwerk {");
    add_counter_decls(&mut lines, clients);
    push_literal(&mut lines, "  chain postrouting {");
    push_literal(&mut lines, "    type nat hook postrouting priority srcnat; policy accept;");
    add_dns_snat(&mut lines, gateways, dns);
    add_client_snat(&mut lines, clients, gateways);
    add_masquerade(&mut lines, gateways);
    push_literal(&mut lines, "  }");
    push_literal(&mut lines, "  chain accounting_out {");
    push_literal(&mut lines, "    type filter hook postrouting priority srcnat + 5; policy accept;");
    add_accounting(&mut lines, clients, true);
    push_literal(&mut lines, "  }");
    push_literal(&mut lines, "  chain accounting_in {");
    push_literal(&mut lines, "    type filter hook prerouting priority dstnat + 5; policy accept;");
    add_accounting(&mut lines, clients, false);
    push_literal(&mut lines, "  }");
    add_forward_chain(&mut lines, networks);
    add_dns_output(&mut lines, dns);
    add_prerouting_dns(&mut lines, clients, gateways, networks);
    push_literal(&mut lines, "}");
    proof {
        assert(sviews(lines@) =~= ruleset_lines(
            clients@,
            gateways@,
            networks@,
            opt_view(dns.gateway),
            dns.unbound_user@,
        ));
    }
    join_with_newlines(&lines)
}

} // verus!

verus! {

/// A named nftables counter and its values.
#[derive(Debug, Clone)]
pub struct CounterValue {
    pub name: String,
    pub bytes: u64,
    pub packets: u64,
}

/// A `counter` object as nft's JSON listing reports it: the name when it is
/// a string, and the values when they are unsigned integers.
#[derive(Debug, Clone)]
pub struct RawCounter {
    pub name: Option<String>,
    pub bytes: Option<u64>,
    pub packets: Option<u64>,
}

/// The value of a named counter.
pub struct CounterValueV {
    pub name: Seq<char>,
    pub bytes: u64,
    pub packets: u64,
}

/// The views of counters.
pub open spec fn counter_views(s: Seq<CounterValue>) -> Seq<CounterValueV> {
    Seq::new(s.len(), |i: int| CounterValueV { name: s[i].name@, bytes: s[i].bytes, packets: s[i].packets })
}

/// The counters of a listing: objects that are counters with a non-empty
/// name, missing values read as zero, in listing order.
pub open spec fn counters_of(objects: Seq<Option<RawCounter>>) -> Seq<CounterValueV>
    decreases objects.len(),
{
    if objects.len() == 0 {
        Seq::empty()
    } else {
        let rest = counters_of(objects.drop_last());
        match objects.last() {
            Some(c) => {
                let name = match c.name {
                    Some(n) => n@,
                    None => Seq::empty(),
                };
                if name.len() == 0 {
                    rest
                } else {
                    rest.push(
                        CounterValueV {
                            name,
                            bytes: match c.bytes {
                                Some(b) => b,
                                None => 0,
                            },
                            packets: match c.packets {
                                Some(p) => p,
                                None => 0,
                            },
                        },
                    )
                }
            },
            None => rest,
        }
    }
}

/// Extracts the named counters from the objects of nft's JSON listing
/// (`None` stands for an object that is not a counter).
pub fn collect_counters(objects: &[Option<RawCounter>]) -> (r: Vec<CounterValue>)
    ensures
        counter_views(r@) == counters_of(objects@),
{
    let mut r: Vec<CounterValue> = Vec::new();
    let mut i: usize = 0;
    proof {
        assert(objects@.subrange(0, 0) =~= Seq::<Option<RawCounter>>::empty());
        assert(counter_views(r@) =~= counters_of(objects@.subrange(0, 0)));
    }
    while i < objects.len()
        invariant
            i <= objects@.len(),
            counter_views(r@) == counters_of(objects@.subrange(0, i as int)),
        decreases objects.len() - i,
    {
        let ghost pre = objects@.subrange(0, i as int);
        let ghost post = objects@.subrange(0, i + 1);
        proof {
            assert(post.drop_last() =~= pre);
            assert(post.last() == objects@[i as int]);
        }
        match &objects[i] {
            Some(c) => {
                let name = match &c.name {
                    Some(n) => n.clone(),
                    None => String::new(),
                };
                if !name.as_str().is_empty() {
                    let v = CounterValue {
                        name,
                        bytes: match c.bytes {
                            Some(b) => b,
                            None => 0,
                        },
                        packets: match c.packets {
                            Some(p) => p,
                            None => 0,
                        },
                    };
                    let ghost before = counter_views(r@);
                    r.push(v);
                    proof {
                        assert(counter_views(r@) =~= before.push(
                            CounterValueV { name: v.name@, bytes: v.bytes, packets: v.packets },
                        ));
                    }
                }
            },
            None => {},
        }
        i = i + 1;
    }
    proof {
        assert(objects@.subrange(0, objects@.len() as int) =~= objects@);
    }
    r
}

/// What a `counter` object holds: its name, bytes and packets, each when
/// nft's JSON gives it in that type.
pub type RawCounterV = (Option<Seq<char>>, Option<u64>, Option<u64>);

/// The value of one object of a listing (`None`: not a counter).
pub open spec fn raw_view(o: Option<RawCounter>) -> Option<RawCounterV> {
    match o {
        Some(c) => Some((opt_view(c.name), c.bytes, c.packets)),
        None => None,
    }
}

/// The values of the objects of a listing.
pub open spec fn raw_seq_views(s: Seq<Option<RawCounter>>) -> Seq<Option<RawCounterV>> {
    Seq::new(s.len(), |i: int| raw_view(s[i]))
}

/// The values of a parsed listing, if it parsed.
pub open spec fn raw_views(r: Option<Vec<Option<RawCounter>>>) -> Option<Seq<Option<RawCounterV>>> {
    match r {
        Some(v) => Some(raw_seq_views(v@)),
        None => None,
    }
}

/// The objects of nft's JSON listing (`nft -j list ...`): for each element of
/// its `nftables` array, the `counter` object's fields, or `None` for another
/// kind of object; `None` when the text is not JSON.
pub uninterp spec fn nft_listing_objects(text: Seq<char>) -> Option<Seq<Option<RawCounterV>>>;

/// serde_json's `from_str` into a `Value`, then the elements of its
/// `nftables` array (none when there is no such array), each as its
/// `counter` object's string `name` and unsigned `bytes` and `packets`. The
/// contract claims that the result is the listing named
/// `nft_listing_objects` of the text, and `None` exactly when that is `None`.
#[verifier::external_body]
fn parse_nft_listing(text: &str) -> (r: Option<Vec<Option<RawCounter>>>)
    ensures
        raw_views(r) == nft_listing_objects(text@),
{
    let json: serde_json::Value = serde_json::from_str(text).ok()?;
    let objects = json["nftables"].as_array().map(|a| a.as_slice()).unwrap_or(&[]);
    Some(objects.iter().map(|o| o.get("counter").map(|c| RawCounter {
        name: c["name"].as_str().map(|n| n.to_string()),
        bytes: c["bytes"].as_u64(),
        packets: c["packets"].as_u64(),
    })).collect())
}

/// The counters of listed objects, given by their values: those with a
/// non-empty name, missing values read as zero, in listing order.
pub open spec fn counters_of_raw(objects: Seq<Option<RawCounterV>>) -> Seq<CounterValueV>
    decreases objects.len(),
{
    if objects.len() == 0 {
        Seq::empty()
    } else {
        let rest = counters_of_raw(objects.drop_last());
        match objects.last() {
            Some((n, b, p)) => {
                let name = match n {
                    Some(x) => x,
                    None => Seq::empty(),
                };
                if name.len() == 0 {
                    rest
                } else {
                    rest.push(
                        CounterValueV {
                            name,
                            bytes: match b {
                                Some(x) => x,
                                None => 0,
                            },
                            packets: match p {
                                Some(x) => x,
                                None => 0,
                            },
                        },
                    )
                }
            },
            None => rest,
        }
    }
}

proof fn lemma_counters_of_raw(objects: Seq<Option<RawCounter>>)
    ensures
        counters_of(objects) == counters_of_raw(raw_seq_views(objects)),
    decreases objects.len(),
{
    if objects.len() > 0 {
        lemma_counters_of_raw(objects.drop_last());
        assert(raw_seq_views(objects).drop_last() =~= raw_seq_views(objects.drop_last()));
    }
}

/// The named counters of nft's JSON listing of the `stellwerk` table; `None`
/// when the text is not JSON.
pub fn counters_from_listing(text: &str) -> (r: Option<Vec<CounterValue>>)
    ensures
        match nft_listing_objects(text@) {
            Some(o) => r matches Some(v) && counter_views(v@) == counters_of_raw(o),
            None => r is None,
        },
{
    match parse_nft_listing(text) {
        Some(objects) => {
            let v = collect_counters(objects.as_slice());
            proof {
                lemma_counters_of_raw(objects@);
            }
            Some(v)
        },
        None => None,
    }
}

} // verus!
