//! Source-based policy routing with iproute2.
//!
//! Each function here decides which `ip` invocations the daemon runs; a
//! command is the argument list handed to `ip`. Reading the kernel's tables
//! and running the commands is left to the caller.

use vstd::prelude::*;
use crate::lookup::{find_gateway, lookup_gateway, sviews};
use crate::model::{opt_view, Client, Gateway, NetworkConfig};
use crate::mullvad::{
    country_code_of, country_default_route_args, country_of, default_route_cmd, is_mullvad_interface,
    is_mullvad_iface, mullvad_name,
};
use crate::text::{
    chars_of, copy_chars, dec_spec, has_prefix, lines_of, lines_spec, parse_unsigned,
    parse_unsigned_spec, split_chars, split_spec, starts_with, string_from_chars, suffix_chars,
    tokens_of, tokens_spec, trim_chars, trim_spec, u64_dec, views,
};

verus! {

/// The argument lists of a sequence of commands.
pub open spec fn cviews(v: Seq<Vec<String>>) -> Seq<Seq<Seq<char>>> {
    Seq::new(v.len(), |i: int| sviews(v[i]@))
}

/// Appends one command.
pub fn push_cmd(cmds: &mut Vec<Vec<String>>, c: Vec<String>)
    ensures
        cviews(final(cmds)@) == cviews(old(cmds)@).push(sviews(c@)),
{
    let ghost cv = sviews(c@);
    cmds.push(c);
    proof {
        assert(cviews(cmds@) =~= cviews(old(cmds)@).push(cv));
    }
}

/// Appends one argument given as a literal.
pub fn push_arg(args: &mut Vec<String>, a: &str)
    ensures
        sviews(final(args)@) == sviews(old(args)@).push(a@),
{
    args.push(a.to_owned());
    proof {
        assert(sviews(args@) =~= sviews(old(args)@).push(a@));
    }
}

/// Appends one argument given as a string.
pub fn push_arg_string(args: &mut Vec<String>, a: String)
    ensures
        sviews(final(args)@) == sviews(old(args)@).push(a@),
{
    let ghost v = a@;
    args.push(a);
    proof {
        assert(sviews(args@) =~= sviews(old(args)@).push(v));
    }
}

// ---------------------------------------------------------------------------
// Private LAN routes
// ---------------------------------------------------------------------------

/// The first whitespace-separated word of a line, or nothing.
pub open spec fn first_token(line: Seq<char>) -> Seq<char> {
    let t = tokens_spec(line);
    if t.len() > 0 {
        t[0]
    } else {
        Seq::empty()
    }
}

/// The second octet of a destination that starts with `172.`: the text up to
/// the next `.` (and before any `/`), read as a byte, or 0 when it is none.
pub open spec fn octet_after_172(first: Seq<char>) -> nat {
    let rest = first.subrange("172."@.len() as int, first.len() as int);
    let piece = split_spec(split_spec(rest, '.')[0], '/')[0];
    match parse_unsigned_spec(piece, 255) {
        Some(v) => v,
        None => 0,
    }
}

/// A route line whose destination lies in 10/8, 172.16/12 or 192.168/16.
pub open spec fn private_route_spec(line: Seq<char>) -> bool {
    let first = first_token(line);
    if has_prefix(first, "10."@) || has_prefix(first, "192.168."@) {
        true
    } else if has_prefix(first, "172."@) {
        16 <= octet_after_172(first) <= 31
    } else {
        false
    }
}

/// The first word of a line.
pub fn first_word(cs: &Vec<char>) -> (r: Vec<char>)
    ensures
        r@ == first_token(cs@),
{
    let toks = tokens_of(cs);
    if toks.len() > 0 {
        let r = copy_chars(&toks[0]);
        proof {
            assert(views(toks@)[0] == toks@[0]@);
        }
        r
    } else {
        Vec::new()
    }
}

/// Whether a line of `ip route show` is a route into a private (RFC 1918) range.
pub fn is_private_route(route_line: &str) -> (r: bool)
    ensures
        r == private_route_spec(route_line@),
{
    let cs = chars_of(route_line);
    let first = first_word(&cs);
    let p10 = chars_of("10.");
    let p192 = chars_of("192.168.");
    if starts_with(&first, &p10) || starts_with(&first, &p192) {
        return true;
    }
    let p172 = chars_of("172.");
    if starts_with(&first, &p172) {
        let rest = suffix_chars(&first, p172.len());
        let parts = split_chars(&rest, '.');
        let sub = split_chars(&parts[0], '/');
        proof {
            assert(views(parts@)[0] == parts@[0]@);
            assert(views(sub@)[0] == sub@[0]@);
        }
        let octet: u64 = match parse_unsigned(&sub[0], 255) {
            Some(v) => v,
            None => 0,
        };
        return 16 <= octet && octet <= 31;
    }
    false
}

/// The command that copies one route line into `table`: `route add`, the
/// words of the line, `table` and the table's name.
pub open spec fn lan_route_cmd(line: Seq<char>, table: Seq<char>) -> Seq<Seq<char>> {
    seq!["route"@, "add"@] + tokens_spec(line) + seq!["table"@, table]
}

/// The copy commands for the private routes of `ip route show` output:
/// every line but the default route whose destination is private.
pub open spec fn lan_route_cmds(lines: Seq<Seq<char>>, table: Seq<char>) -> Seq<Seq<Seq<char>>>
    decreases lines.len(),
{
    if lines.len() == 0 {
        Seq::empty()
    } else {
        let rest = lan_route_cmds(lines.drop_last(), table);
        let l = lines.last();
        if !has_prefix(l, "default"@) && private_route_spec(l) {
            rest.push(lan_route_cmd(l, table))
        } else {
            rest
        }
    }
}

/// Appends the words of a line as arguments.
fn push_words(args: &mut Vec<String>, words: &Vec<Vec<char>>)
    ensures
        sviews(final(args)@) == sviews(old(args)@) + views(words@),
{
    let ghost start = sviews(args@);
    let mut i: usize = 0;
    proof {
        assert(views(words@).subrange(0, 0) =~= Seq::<Seq<char>>::empty());
        assert(sviews(args@) =~= start + views(words@).subrange(0, 0));
    }
    while i < words.len()
        invariant
            i <= words.len(),
            sviews(args@) == start + views(words@).subrange(0, i as int),
        decreases words.len() - i,
    {
        let w = string_from_chars(&words[i]);
        push_arg_string(args, w);
        i = i + 1;
        proof {
            assert(sviews(args@) =~= start + views(words@).subrange(0, i as int));
        }
    }
    proof {
        assert(views(words@).subrange(0, words@.len() as int) =~= views(words@));
    }
}

/// The `ip` commands that copy every private LAN route of `ip route show`
/// output into the routing table `table`.
pub fn lan_route_commands(route_show: &str, table: &str) -> (r: Vec<Vec<String>>)
    ensures
        cviews(r@) == lan_route_cmds(lines_spec(route_show@), table@),
{
    let text = chars_of(route_show);
    let lines = lines_of(&text);
    let pdef = chars_of("default");
    let mut out: Vec<Vec<String>> = Vec::new();
    let mut i: usize = 0;
    proof {
        assert(views(lines@).subrange(0, 0) =~= Seq::<Seq<char>>::empty());
    }
    while i < lines.len()
        invariant
            i <= lines.len(),
            pdef@ == "default"@,
            cviews(out@) == lan_route_cmds(views(lines@).subrange(0, i as int), table@),
        decreases lines.len() - i,
    {
        let ghost pre = views(lines@).subrange(0, i as int);
        let ghost post = views(lines@).subrange(0, i + 1);
        proof {
            assert(post.drop_last() =~= pre);
            assert(post.last() == lines@[i as int]@);
        }
        let l = &lines[i];
        if !starts_with(l, &pdef) {
            let ls = string_from_chars(l);
            if is_private_route(ls.as_str()) {
                let words = tokens_of(l);
                let mut c: Vec<String> = Vec::new();
                push_arg(&mut c, "route");
                push_arg(&mut c, "add");
                push_words(&mut c, &words);
                push_arg(&mut c, "table");
                push_arg(&mut c, table);
                proof {
                    assert(sviews(c@) =~= lan_route_cmd(l@, table@));
                }
                push_cmd(&mut out, c);
            }
        }
        i = i + 1;
    }
    proof {
        assert(views(lines@).subrange(0, lines@.len() as int) =~= views(lines@));
    }
    out
}


// ---------------------------------------------------------------------------
// Flushing the managed rules
// ---------------------------------------------------------------------------

/// The `-6` switch for IPv6 commands, nothing for IPv4.
pub open spec fn family(v6: bool) -> Seq<Seq<char>> {
    if v6 {
        seq!["-6"@]
    } else {
        Seq::empty()
    }
}

/// The priority of an `ip rule show` line: the number before the first `:`.
pub open spec fn rule_priority(line: Seq<char>) -> Option<nat> {
    parse_unsigned_spec(trim_spec(split_spec(line, ':')[0]), 4294967295)
}

/// A priority in the range that the daemon manages, 50 to 1999.
pub open spec fn managed_priority(p: nat) -> bool {
    50 <= p < 2000
}

/// The command that deletes the rule of priority `p`.
pub open spec fn rule_del_cmd(v6: bool, p: nat) -> Seq<Seq<char>> {
    family(v6) + seq!["rule"@, "del"@, "priority"@, dec_spec(p)]
}

/// One delete command per `ip rule show` line with a managed priority, in order.
pub open spec fn flush_cmds(lines: Seq<Seq<char>>, v6: bool) -> Seq<Seq<Seq<char>>>
    decreases lines.len(),
{
    if lines.len() == 0 {
        Seq::empty()
    } else {
        let rest = flush_cmds(lines.drop_last(), v6);
        match rule_priority(lines.last()) {
            Some(p) => if managed_priority(p) {
                rest.push(rule_del_cmd(v6, p))
            } else {
                rest
            },
            None => rest,
        }
    }
}

/// Starts a command with the family switch.
fn family_args(v6: bool) -> (r: Vec<String>)
    ensures
        sviews(r@) == family(v6),
{
    let mut r: Vec<String> = Vec::new();
    if v6 {
        push_arg(&mut r, "-6");
    }
    proof {
        assert(sviews(r@) =~= family(v6));
    }
    r
}

/// The commands that remove every rule in the managed priority range, read
/// from `ip rule show` output of one address family.
pub fn flush_commands(rule_show: &str, v6: bool) -> (r: Vec<Vec<String>>)
    ensures
        cviews(r@) == flush_cmds(lines_spec(rule_show@), v6),
{
    let text = chars_of(rule_show);
    let lines = lines_of(&text);
    let mut out: Vec<Vec<String>> = Vec::new();
    let mut i: usize = 0;
    proof {
        assert(views(lines@).subrange(0, 0) =~= Seq::<Seq<char>>::empty());
    }
    while i < lines.len()
        invariant
            i <= lines.len(),
            cviews(out@) == flush_cmds(views(lines@).subrange(0, i as int), v6),
        decreases lines.len() - i,
    {
        let ghost pre = views(lines@).subrange(0, i as int);
        let ghost post = views(lines@).subrange(0, i + 1);
        proof {
            assert(post.drop_last() =~= pre);
            assert(post.last() == lines@[i as int]@);
        }
        let parts = split_chars(&lines[i], ':');
        proof {
            assert(views(parts@)[0] == parts@[0]@);
        }
        let head = trim_chars(&parts[0]);
        match parse_unsigned(&head, 4294967295) {
            Some(p) => {
                if 50 <= p && p < 2000 {
                    let mut c = family_args(v6);
                    push_arg(&mut c, "rule");
                    push_arg(&mut c, "del");
                    push_arg(&mut c, "priority");
                    let d = u64_dec(p);
                    push_arg_string(&mut c, string_from_chars(&d));
                    proof {
                        assert(sviews(c@) =~= rule_del_cmd(v6, p as nat));
                    }
                    push_cmd(&mut out, c);
                }
            },
            None => {},
        }
        i = i + 1;
    }
    proof {
        assert(views(lines@).subrange(0, lines@.len() as int) =~= views(lines@));
    }
    out
}

// ---------------------------------------------------------------------------
// The router's own addresses
// ---------------------------------------------------------------------------

/// The IPv4 address of an `ip addr show` line: on an `inet` line, the second
/// word without its prefix length, unless it is the loopback address.
pub open spec fn local_ip_of(line: Seq<char>) -> Option<Seq<char>> {
    let l = trim_spec(line);
    let t = tokens_spec(l);
    if !has_prefix(l, "inet "@) || t.len() < 2 {
        None
    } else {
        let ip = split_spec(t[1], '/')[0];
        if ip == "127.0.0.1"@ {
            None
        } else {
            Some(ip)
        }
    }
}

/// The addresses of all lines, in order.
pub open spec fn local_ips_spec(lines: Seq<Seq<char>>) -> Seq<Seq<char>>
    decreases lines.len(),
{
    if lines.len() == 0 {
        Seq::empty()
    } else {
        let rest = local_ips_spec(lines.drop_last());
        match local_ip_of(lines.last()) {
            Some(ip) => rest.push(ip),
            None => rest,
        }
    }
}

/// The address of one line.
fn local_ip_line(line: &Vec<char>) -> (r: Option<String>)
    ensures
        opt_view(r) == local_ip_of(line@),
{
    let l = trim_chars(line);
    let pinet = chars_of("inet ");
    let t = tokens_of(&l);
    if !starts_with(&l, &pinet) || t.len() < 2 {
        return None;
    }
    proof {
        assert(views(t@)[1] == t@[1]@);
    }
    let parts = split_chars(&t[1], '/');
    proof {
        assert(views(parts@)[0] == parts@[0]@);
    }
    let lo = chars_of("127.0.0.1");
    if crate::text::chars_eq(&parts[0], &lo) {
        None
    } else {
        Some(string_from_chars(&parts[0]))
    }
}

/// The router's own IPv4 addresses (all but loopback) from `ip addr show` output.
pub fn parse_local_ips(addr_show: &str) -> (r: Vec<String>)
    ensures
        sviews(r@) == local_ips_spec(lines_spec(addr_show@)),
{
    let text = chars_of(addr_show);
    let lines = lines_of(&text);
    let mut out: Vec<String> = Vec::new();
    let mut i: usize = 0;
    proof {
        assert(views(lines@).subrange(0, 0) =~= Seq::<Seq<char>>::empty());
    }
    while i < lines.len()
        invariant
            i <= lines.len(),
            sviews(out@) == local_ips_spec(views(lines@).subrange(0, i as int)),
        decreases lines.len() - i,
    {
        let ghost pre = views(lines@).subrange(0, i as int);
        let ghost post = views(lines@).subrange(0, i + 1);
        proof {
            assert(post.drop_last() =~= pre);
            assert(post.last() == lines@[i as int]@);
        }
        match local_ip_line(&lines[i]) {
            Some(ip) => push_arg_string(&mut out, ip),
            None => {},
        }
        i = i + 1;
    }
    proof {
        assert(views(lines@).subrange(0, lines@.len() as int) =~= views(lines@));
    }
    out
}


// ---------------------------------------------------------------------------
// The rule plan
// ---------------------------------------------------------------------------

/// A rule that sends traffic from `src` to `table` at priority `prio`.
pub open spec fn from_rule(src: Seq<char>, table: Seq<char>, prio: Seq<char>) -> Seq<Seq<char>> {
    seq!["rule"@, "add"@, "from"@, src, "lookup"@, table, "priority"@, prio]
}

/// The rule that sends Unbound's marked queries (fwmark 0x53) to `table` at priority 50.
pub open spec fn dns_mark_rule(v6: bool, table: Seq<char>) -> Seq<Seq<char>> {
    family(v6) + seq!["rule"@, "add"@, "fwmark"@, "0x53"@, "lookup"@, table, "priority"@, "50"@]
}

/// DNS leak protection: both address families, when the DNS gateway is known.
pub open spec fn dns_rules(gs: Seq<Gateway>, dns_gw: Option<Seq<char>>) -> Seq<Seq<Seq<char>>> {
    match dns_gw {
        Some(n) => match find_gateway(gs, n) {
            Some(g) => seq![dns_mark_rule(false, g.table_name@), dns_mark_rule(true, g.table_name@)],
            None => Seq::empty(),
        },
        None => Seq::empty(),
    }
}

/// Priority 1000: every active client whose gateway is known and is not the
/// default gateway goes to its gateway's table (clients on the default
/// gateway are left to the fallback and subnet rules).
pub open spec fn client_rules(cs: Seq<Client>, gs: Seq<Gateway>, default_gw: Seq<char>) -> Seq<Seq<Seq<char>>>
    decreases cs.len(),
{
    if cs.len() == 0 {
        Seq::empty()
    } else {
        let rest = client_rules(cs.drop_last(), gs, default_gw);
        let c = cs.last();
        if c.active == 0 || c.gateway@ == default_gw {
            rest
        } else {
            match find_gateway(gs, c.gateway@) {
                Some(g) => rest.push(from_rule(c.ip@, g.table_name@, "1000"@)),
                None => rest,
            }
        }
    }
}

/// Priority 999: the router's own addresses use the main table.
pub open spec fn local_rules(ips: Seq<Seq<char>>) -> Seq<Seq<Seq<char>>> {
    Seq::new(ips.len(), |i: int| from_rule(ips[i] + "/32"@, "main"@, "999"@))
}

/// Priority 1999: all of 172.16.0.0/12 falls back to the default gateway's table.
pub open spec fn fallback_rules(gs: Seq<Gateway>, default_gw: Seq<char>) -> Seq<Seq<Seq<char>>> {
    match find_gateway(gs, default_gw) {
        Some(g) => seq![from_rule("172.16.0.0/12"@, g.table_name@, "1999"@)],
        None => Seq::empty(),
    }
}

/// The table of a subnet: `nointernet` for internal-only subnets, else the
/// table of its default gateway when that gateway is known.
pub open spec fn subnet_table(n: NetworkConfig, gs: Seq<Gateway>) -> Option<Seq<char>> {
    if n.internal_only != 0 {
        Some("nointernet"@)
    } else {
        match find_gateway(gs, n.default_gateway@) {
            Some(g) => Some(g.table_name@),
            None => None,
        }
    }
}

/// Priority 1500: every subnet with a table.
pub open spec fn subnet_rules(ns: Seq<NetworkConfig>, gs: Seq<Gateway>) -> Seq<Seq<Seq<char>>>
    decreases ns.len(),
{
    if ns.len() == 0 {
        Seq::empty()
    } else {
        let rest = subnet_rules(ns.drop_last(), gs);
        let n = ns.last();
        match subnet_table(n, gs) {
            Some(t) => rest.push(from_rule(n.subnet@, t, "1500"@)),
            None => rest,
        }
    }
}

/// All rules, in the order in which they are added.
pub open spec fn rule_cmds(
    cs: Seq<Client>,
    gs: Seq<Gateway>,
    ns: Seq<NetworkConfig>,
    default_gw: Seq<char>,
    dns_gw: Option<Seq<char>>,
    local_ips: Seq<Seq<char>>,
) -> Seq<Seq<Seq<char>>> {
    dns_rules(gs, dns_gw) + client_rules(cs, gs, default_gw) + local_rules(local_ips) + fallback_rules(gs, default_gw)
        + subnet_rules(ns, gs)
}

/// A gateway table to fill after the rules are in place.
pub struct TableSetup {
    /// The table that receives a copy of the private LAN routes.
    pub table: String,
    /// For a Mullvad tunnel, the command that adds its default route.
    pub default_route: Option<Vec<String>>,
}

/// The view of a table setup: the table and the default-route command.
pub open spec fn setup_view(t: TableSetup) -> (Seq<char>, Option<Seq<Seq<char>>>) {
    (t.table@, match t.default_route {
        Some(c) => Some(sviews(c@)),
        None => None,
    })
}

/// The views of table setups.
pub open spec fn setup_views(v: Seq<TableSetup>) -> Seq<(Seq<char>, Option<Seq<Seq<char>>>)> {
    Seq::new(v.len(), |i: int| setup_view(v[i]))
}

/// One setup per gateway whose table is not `main`; Mullvad tunnels that are
/// up among the WireGuard interfaces `wg` also get their default route, in
/// the table named after the tunnel's country.
pub open spec fn table_setups(gs: Seq<Gateway>, wg: Seq<Seq<char>>) -> Seq<(Seq<char>, Option<Seq<Seq<char>>>)>
    decreases gs.len(),
{
    if gs.len() == 0 {
        Seq::empty()
    } else {
        let rest = table_setups(gs.drop_last(), wg);
        let g = gs.last();
        if g.table_name@ == "main"@ {
            rest
        } else {
            let dr = if is_mullvad_iface(g.interface@, wg) {
                let t = mullvad_name(country_of(g.interface@));
                Some(default_route_cmd(t, t))
            } else {
                None
            };
            rest.push((g.table_name@, dr))
        }
    }
}

/// The blackhole default route of the `nointernet` table.
pub open spec fn blackhole_cmd() -> Seq<Seq<char>> {
    seq!["route"@, "replace"@, "blackhole"@, "default"@, "table"@, "nointernet"@]
}

/// Everything the routing setup does after flushing the managed rules.
pub struct RoutingPlan {
    /// The `ip rule add` commands, in order.
    pub rules: Vec<Vec<String>>,
    /// The gateway tables to complete, in order.
    pub tables: Vec<TableSetup>,
    /// The command that blackholes the default route of `nointernet`.
    pub blackhole: Vec<String>,
}

fn add_dns_rules(out: &mut Vec<Vec<String>>, gateways: &[Gateway], dns_gateway: &Option<String>)
    ensures
        cviews(final(out)@) == cviews(old(out)@) + dns_rules(gateways@, opt_view(*dns_gateway)),
{
    proof {
        assert(cviews(out@) + Seq::<Seq<Seq<char>>>::empty() =~= cviews(out@));
    }
    if let Some(name) = dns_gateway {
        if let Some(gw) = lookup_gateway(gateways, name) {
            let mut c4 = family_args(false);
            let mut c6 = family_args(true);
            push_arg(&mut c4, "rule");
            push_arg(&mut c4, "add");
            push_arg(&mut c4, "fwmark");
            push_arg(&mut c4, "0x53");
            push_arg(&mut c4, "lookup");
            push_arg(&mut c4, gw.table_name.as_str());
            push_arg(&mut c4, "priority");
            push_arg(&mut c4, "50");
            push_arg(&mut c6, "rule");
            push_arg(&mut c6, "add");
            push_arg(&mut c6, "fwmark");
            push_arg(&mut c6, "0x53");
            push_arg(&mut c6, "lookup");
            push_arg(&mut c6, gw.table_name.as_str());
            push_arg(&mut c6, "priority");
            push_arg(&mut c6, "50");
            proof {
                assert(sviews(c4@) =~= dns_mark_rule(false, gw.table_name@));
                assert(sviews(c6@) =~= dns_mark_rule(true, gw.table_name@));
            }
            push_cmd(out, c4);
            push_cmd(out, c6);
            proof {
                assert(cviews(out@) =~= cviews(old(out)@) + dns_rules(gateways@, opt_view(*dns_gateway)));
            }
        }
    }
}

/// A source rule as arguments.
fn from_rule_args(src: String, table: &str, prio: &str) -> (r: Vec<String>)
    ensures
        sviews(r@) == from_rule(src@, table@, prio@),
{
    let mut c: Vec<String> = Vec::new();
    push_arg(&mut c, "rule");
    push_arg(&mut c, "add");
    push_arg(&mut c, "from");
    push_arg_string(&mut c, src);
    push_arg(&mut c, "lookup");
    push_arg(&mut c, table);
    push_arg(&mut c, "priority");
    push_arg(&mut c, prio);
    proof {
        assert(sviews(c@) =~= from_rule(src@, table@, prio@));
    }
    c
}

fn add_client_rules(out: &mut Vec<Vec<String>>, clients: &[Client], gateways: &[Gateway], default_gw: &String)
    ensures
        cviews(final(out)@) == cviews(old(out)@) + client_rules(clients@, gateways@, default_gw@),
{
    let ghost start = cviews(out@);
    let mut i: usize = 0;
    proof {
        assert(clients@.subrange(0, 0) =~= Seq::<Client>::empty());
        assert(cviews(out@) =~= start + client_rules(clients@.subrange(0, 0), gateways@, default_gw@));
    }
    while i < clients.len()
        invariant
            i <= clients@.len(),
            cviews(out@) == start + client_rules(clients@.subrange(0, i as int), gateways@, default_gw@),
        decreases clients.len() - i,
    {
        let ghost pre = clients@.subrange(0, i as int);
        let ghost post = clients@.subrange(0, i + 1);
        proof {
            assert(post.drop_last() =~= pre);
            assert(post.last() == clients@[i as int]);
        }
        let c = &clients[i];
        if c.active != 0 && !crate::text::str_eq(c.gateway.as_str(), default_gw.as_str()) {
            if let Some(gw) = lookup_gateway(gateways, &c.gateway) {
                let cmd = from_rule_args(c.ip.clone(), gw.table_name.as_str(), "1000");
                push_cmd(out, cmd);
                proof {
                    assert(cviews(out@) =~= start + client_rules(post, gateways@, default_gw@));
                }
            }
        }
        i = i + 1;
    }
    proof {
        assert(clients@.subrange(0, clients@.len() as int) =~= clients@);
    }
}

fn add_local_rules(out: &mut Vec<Vec<String>>, local_ips: &Vec<String>)
    ensures
        cviews(final(out)@) == cviews(old(out)@) + local_rules(sviews(local_ips@)),
{
    let ghost start = cviews(out@);
    let mut i: usize = 0;
    while i < local_ips.len()
        invariant
            i <= local_ips@.len(),
            cviews(out@) == start + local_rules(sviews(local_ips@)).subrange(0, i as int),
        decreases local_ips.len() - i,
    {
        let mut src = local_ips[i].clone();
        src.append("/32");
        let cmd = from_rule_args(src, "main", "999");
        push_cmd(out, cmd);
        i = i + 1;
        proof {
            assert(cviews(out@) =~= start + local_rules(sviews(local_ips@)).subrange(0, i as int));
        }
    }
    proof {
        assert(local_rules(sviews(local_ips@)).subrange(0, local_ips@.len() as int) =~= local_rules(sviews(local_ips@)));
    }
}

fn add_fallback_rule(out: &mut Vec<Vec<String>>, gateways: &[Gateway], default_gw: &String)
    ensures
        cviews(final(out)@) == cviews(old(out)@) + fallback_rules(gateways@, default_gw@),
{
    proof {
        assert(cviews(out@) + Seq::<Seq<Seq<char>>>::empty() =~= cviews(out@));
    }
    if let Some(gw) = lookup_gateway(gateways, default_gw) {
        let cmd = from_rule_args(String::from_str("172.16.0.0/12"), gw.table_name.as_str(), "1999");
        push_cmd(out, cmd);
        proof {
            assert(cviews(out@) =~= cviews(old(out)@) + fallback_rules(gateways@, default_gw@));
        }
    }
}

fn add_subnet_rules(out: &mut Vec<Vec<String>>, networks: &[NetworkConfig], gateways: &[Gateway])
    ensures
        cviews(final(out)@) == cviews(old(out)@) + subnet_rules(networks@, gateways@),
{
    let ghost start = cviews(out@);
    let mut i: usize = 0;
    proof {
        assert(networks@.subrange(0, 0) =~= Seq::<NetworkConfig>::empty());
        assert(cviews(out@) =~= start + subnet_rules(networks@.subrange(0, 0), gateways@));
    }
    while i < networks.len()
        invariant
            i <= networks@.len(),
            cviews(out@) == start + subnet_rules(networks@.subrange(0, i as int), gateways@),
        decreases networks.len() - i,
    {
        let ghost pre = networks@.subrange(0, i as int);
        let ghost post = networks@.subrange(0, i + 1);
        proof {
            assert(post.drop_last() =~= pre);
            assert(post.last() == networks@[i as int]);
        }
        let n = &networks[i];
        if n.internal_only != 0 {
            let cmd = from_rule_args(n.subnet.clone(), "nointernet", "1500");
            push_cmd(out, cmd);
            proof {
                assert(cviews(out@) =~= start + subnet_rules(post, gateways@));
            }
        } else if let Some(gw) = lookup_gateway(gateways, &n.default_gateway) {
            let cmd = from_rule_args(n.subnet.clone(), gw.table_name.as_str(), "1500");
            push_cmd(out, cmd);
            proof {
                assert(cviews(out@) =~= start + subnet_rules(post, gateways@));
            }
        }
        i = i + 1;
    }
    proof {
        assert(networks@.subrange(0, networks@.len() as int) =~= networks@);
    }
}

fn table_setup_list(gateways: &[Gateway], wg_interfaces: &Vec<String>) -> (r: Vec<TableSetup>)
    ensures
        setup_views(r@) == table_setups(gateways@, sviews(wg_interfaces@)),
{
    let mut out: Vec<TableSetup> = Vec::new();
    let mut i: usize = 0;
    proof {
        assert(gateways@.subrange(0, 0) =~= Seq::<Gateway>::empty());
        assert(setup_views(out@) =~= table_setups(gateways@.subrange(0, 0), sviews(wg_interfaces@)));
    }
    while i < gateways.len()
        invariant
            i <= gateways@.len(),
            setup_views(out@) == table_setups(gateways@.subrange(0, i as int), sviews(wg_interfaces@)),
        decreases gateways.len() - i,
    {
        let ghost pre = gateways@.subrange(0, i as int);
        let ghost post = gateways@.subrange(0, i + 1);
        proof {
            assert(post.drop_last() =~= pre);
            assert(post.last() == gateways@[i as int]);
        }
        let g = &gateways[i];
        if !crate::text::str_eq(g.table_name.as_str(), "main") {
            let dr = if is_mullvad_interface(g.interface.as_str(), wg_interfaces) {
                let cc = country_code_of(g.interface.as_str());
                Some(country_default_route_args(cc.as_str()))
            } else {
                None
            };
            let t = TableSetup { table: g.table_name.clone(), default_route: dr };
            let ghost tv = setup_view(t);
            out.push(t);
            proof {
                assert(setup_views(out@) =~= table_setups(pre, sviews(wg_interfaces@)).push(tv));
            }
        }
        i = i + 1;
    }
    proof {
        assert(gateways@.subrange(0, gateways@.len() as int) =~= gateways@);
    }
    out
}

/// The routing setup after the managed rules were flushed: the rules for DNS
/// leak protection, the clients not on the default gateway, the router's own addresses, the fallback and
/// the subnets; the gateway tables to fill with LAN routes (and, for Mullvad
/// tunnels, a default route); and the blackhole of `nointernet`.
pub fn routing_plan(
    clients: &[Client],
    gateways: &[Gateway],
    networks: &[NetworkConfig],
    default_gw: &String,
    dns_gateway: &Option<String>,
    local_ips: &Vec<String>,
    wg_interfaces: &Vec<String>,
) -> (r: RoutingPlan)
    ensures
        cviews(r.rules@) == rule_cmds(
            clients@,
            gateways@,
            networks@,
            default_gw@,
            opt_view(*dns_gateway),
            sviews(local_ips@),
        ),
        setup_views(r.tables@) == table_setups(gateways@, sviews(wg_interfaces@)),
        sviews(r.blackhole@) == blackhole_cmd(),
{
    let mut rules: Vec<Vec<String>> = Vec::new();
    add_dns_rules(&mut rules, gateways, dns_gateway);
    add_client_rules(&mut rules, clients, gateways, default_gw);
    add_local_rules(&mut rules, local_ips);
    add_fallback_rule(&mut rules, gateways, default_gw);
    add_subnet_rules(&mut rules, networks, gateways);
    proof {
        assert(cviews(rules@) =~= rule_cmds(
            clients@,
            gateways@,
            networks@,
            default_gw@,
            opt_view(*dns_gateway),
            sviews(local_ips@),
        ));
    }
    let tables = table_setup_list(gateways, wg_interfaces);
    let mut blackhole: Vec<String> = Vec::new();
    push_arg(&mut blackhole, "route");
    push_arg(&mut blackhole, "replace");
    push_arg(&mut blackhole, "blackhole");
    push_arg(&mut blackhole, "default");
    push_arg(&mut blackhole, "table");
    push_arg(&mut blackhole, "nointernet");
    proof {
        assert(sviews(blackhole@) =~= blackhole_cmd());
    }
    RoutingPlan { rules, tables, blackhole }
}


// ---------------------------------------------------------------------------
// Laws of the plan
// ---------------------------------------------------------------------------

/// Every command ends with the priority `prio`.
pub open spec fn all_at_priority(cmds: Seq<Seq<Seq<char>>>, prio: Seq<char>) -> bool {
    forall|i: int| 0 <= i < cmds.len() ==> (#[trigger] cmds[i]).last() == prio
}

proof fn lemma_client_rules_priority(cs: Seq<Client>, gs: Seq<Gateway>, default_gw: Seq<char>)
    ensures
        all_at_priority(client_rules(cs, gs, default_gw), "1000"@),
    decreases cs.len(),
{
    if cs.len() > 0 {
        lemma_client_rules_priority(cs.drop_last(), gs, default_gw);
    }
}

proof fn lemma_subnet_rules_priority(ns: Seq<NetworkConfig>, gs: Seq<Gateway>)
    ensures
        all_at_priority(subnet_rules(ns, gs), "1500"@),
    decreases ns.len(),
{
    if ns.len() > 0 {
        lemma_subnet_rules_priority(ns.drop_last(), gs);
    }
}

proof fn lemma_priority_texts()
    ensures
        parse_unsigned_spec("50"@, 4294967295) == Some(50nat),
        parse_unsigned_spec("999"@, 4294967295) == Some(999nat),
        parse_unsigned_spec("1000"@, 4294967295) == Some(1000nat),
        parse_unsigned_spec("1500"@, 4294967295) == Some(1500nat),
        parse_unsigned_spec("1999"@, 4294967295) == Some(1999nat),
{
    reveal_strlit("50");
    reveal_strlit("999");
    reveal_strlit("1000");
    reveal_strlit("1500");
    reveal_strlit("1999");
    reveal_with_fuel(crate::text::digits_value, 5);
    assert(crate::text::all_digits("50"@));
    assert(crate::text::all_digits("999"@));
    assert(crate::text::all_digits("1000"@));
    assert(crate::text::all_digits("1500"@));
    assert(crate::text::all_digits("1999"@));
    assert("50"@.drop_last() =~= seq!['5']);
    assert("999"@.drop_last() =~= seq!['9', '9']);
    assert(seq!['9', '9'].drop_last() =~= seq!['9']);
    assert("1000"@.drop_last() =~= seq!['1', '0', '0']);
    assert(seq!['1', '0', '0'].drop_last() =~= seq!['1', '0']);
    assert(seq!['1', '0'].drop_last() =~= seq!['1']);
    assert("1500"@.drop_last() =~= seq!['1', '5', '0']);
    assert(seq!['1', '5', '0'].drop_last() =~= seq!['1', '5']);
    assert(seq!['1', '5'].drop_last() =~= seq!['1']);
    assert("1999"@.drop_last() =~= seq!['1', '9', '9']);
    assert(seq!['1', '9', '9'].drop_last() =~= seq!['1', '9']);
    assert(seq!['1', '9'].drop_last() =~= seq!['1']);
    assert(seq!['1'].drop_last() =~= Seq::<char>::empty());
    assert(seq!['5'].drop_last() =~= Seq::<char>::empty());
    assert(seq!['9'].drop_last() =~= Seq::<char>::empty());
}

/// Every rule that the plan adds ends with a priority in the managed range
/// (50 to 1999), so the flush before the next apply removes it again.
pub proof fn law_planned_rules_are_flushed(
    cs: Seq<Client>,
    gs: Seq<Gateway>,
    ns: Seq<NetworkConfig>,
    default_gw: Seq<char>,
    dns_gw: Option<Seq<char>>,
    local_ips: Seq<Seq<char>>,
)
    ensures
        forall|i: int| 0 <= i < rule_cmds(cs, gs, ns, default_gw, dns_gw, local_ips).len() ==> {
            let p = parse_unsigned_spec((#[trigger] rule_cmds(cs, gs, ns, default_gw, dns_gw, local_ips)[i]).last(), 4294967295);
            p is Some && managed_priority(p->0)
        },
{
    lemma_priority_texts();
    lemma_client_rules_priority(cs, gs, default_gw);
    lemma_subnet_rules_priority(ns, gs);
    let d = dns_rules(gs, dns_gw);
    let c = client_rules(cs, gs, default_gw);
    let l = local_rules(local_ips);
    let f = fallback_rules(gs, default_gw);
    let n = subnet_rules(ns, gs);
    assert(all_at_priority(d, "50"@));
    assert(all_at_priority(l, "999"@));
    assert(all_at_priority(f, "1999"@));
    let all = rule_cmds(cs, gs, ns, default_gw, dns_gw, local_ips);
    assert(all == d + c + l + f + n);
    assert forall|i: int| 0 <= i < all.len() implies {
        let p = parse_unsigned_spec((#[trigger] all[i]).last(), 4294967295);
        p is Some && managed_priority(p->0)
    } by {
        let a = d.len() as int;
        let b = a + c.len();
        let e = b + l.len();
        let g = e + f.len();
        if i < a {
            assert(all[i] == d[i]);
        } else if i < b {
            assert(all[i] == c[i - a]);
        } else if i < e {
            assert(all[i] == l[i - b]);
        } else if i < g {
            assert(all[i] == f[i - e]);
        } else {
            assert(all[i] == n[i - g]);
        }
    }
}

/// `rule` sends client `i` of `cs` to the routing table of its gateway
/// (the first gateway of that name): `from <ip> lookup <table> priority
/// 1000`, for an active client that is not on the default gateway.
pub open spec fn sends_client_to_its_table(rule: Seq<Seq<char>>, cs: Seq<Client>, gs: Seq<Gateway>, default_gw: Seq<char>, i: int) -> bool {
    &&& 0 <= i < cs.len()
    &&& cs[i].active != 0
    &&& cs[i].gateway@ != default_gw
    &&& find_gateway(gs, cs[i].gateway@) matches Some(g)
    &&& rule == seq!["rule"@, "add"@, "from"@, cs[i].ip@, "lookup"@, g.table_name@, "priority"@, "1000"@]
}

/// `rule` sends some client of `cs` to its gateway's table.
pub open spec fn rule_of_some_client(rule: Seq<Seq<char>>, cs: Seq<Client>, gs: Seq<Gateway>, default_gw: Seq<char>) -> bool {
    exists|i: int| #[trigger] sends_client_to_its_table(rule, cs, gs, default_gw, i)
}

/// Some rule of `rules` sends client `i` to its gateway's table.
pub open spec fn client_has_rule(rules: Seq<Seq<Seq<char>>>, cs: Seq<Client>, gs: Seq<Gateway>, default_gw: Seq<char>, i: int) -> bool {
    exists|k: int| 0 <= k < rules.len() && #[trigger] sends_client_to_its_table(rules[k], cs, gs, default_gw, i)
}

/// Client rules route by the gateway's table: every priority-1000 client
/// rule sends an active client that is not on the default gateway to the
/// table (not the name) of its gateway, and every such client whose gateway
/// is known gets its rule.
pub proof fn law_client_rules_use_gateway_tables(cs: Seq<Client>, gs: Seq<Gateway>, default_gw: Seq<char>)
    ensures
        forall|k: int| 0 <= k < client_rules(cs, gs, default_gw).len() ==> rule_of_some_client(
            #[trigger] client_rules(cs, gs, default_gw)[k],
            cs,
            gs,
            default_gw,
        ),
        forall|i: int| 0 <= i < cs.len() && cs[i].active != 0 && cs[i].gateway@ != default_gw && find_gateway(gs, cs[i].gateway@) is Some
            ==> #[trigger] client_has_rule(client_rules(cs, gs, default_gw), cs, gs, default_gw, i),
    decreases cs.len(),
{
    if cs.len() > 0 {
        let d = cs.drop_last();
        law_client_rules_use_gateway_tables(d, gs, default_gw);
        let rd = client_rules(d, gs, default_gw);
        let r = client_rules(cs, gs, default_gw);
        let n = cs.len() - 1;
        assert forall|k: int| 0 <= k < rd.len() implies r[k] == rd[k] by {}
        assert forall|k: int| 0 <= k < r.len() implies rule_of_some_client(#[trigger] r[k], cs, gs, default_gw) by {
            if k < rd.len() {
                assert(rule_of_some_client(rd[k], d, gs, default_gw));
                let i = choose|i: int| #[trigger] sends_client_to_its_table(rd[k], d, gs, default_gw, i);
                assert(d[i] == cs[i]);
                assert(sends_client_to_its_table(r[k], cs, gs, default_gw, i));
            } else {
                assert(sends_client_to_its_table(r[k], cs, gs, default_gw, n));
            }
        }
        assert forall|i: int| 0 <= i < cs.len() && cs[i].active != 0 && cs[i].gateway@ != default_gw && find_gateway(gs, cs[i].gateway@) is Some
            implies #[trigger] client_has_rule(r, cs, gs, default_gw, i) by {
            if i < n {
                assert(d[i] == cs[i]);
                assert(client_has_rule(rd, d, gs, default_gw, i));
                let k = choose|k: int| 0 <= k < rd.len() && #[trigger] sends_client_to_its_table(rd[k], d, gs, default_gw, i);
                assert(r[k] == rd[k]);
                assert(sends_client_to_its_table(r[k], cs, gs, default_gw, i));
            } else {
                assert(sends_client_to_its_table(r[rd.len() as int], cs, gs, default_gw, i));
            }
        }
    }
}

} // verus!
