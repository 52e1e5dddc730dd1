//! Host discovery: reading the kernel's neighbour tables, reverse lookups,
//! merging the sweeps of several subnets, and ordering hosts by address.

use vstd::prelude::*;
use crate::model::opt_view;
use crate::sort::{is_stable_order, stable_order};
use crate::text::{
    all_digits, chars_eq, chars_of, digits_value, find_word, has_prefix, is_digit, lines_of,
    lines_spec, lowercase_of, parse_unsigned, parse_unsigned_spec, split_chars, split_spec,
    starts_with, string_from_chars, to_lowercase, tokens_of, tokens_spec, views, word_pos,
};

verus! {

// ---------------------------------------------------------------------------
// IPv4 addresses
// ---------------------------------------------------------------------------

/// A decimal octet as std's IPv4 parser accepts it: one to three digits, no
/// leading zero, at most 255.
pub open spec fn octet_ok(p: Seq<char>) -> bool {
    &&& 1 <= p.len() <= 3
    &&& all_digits(p)
    &&& (p.len() == 1 || p[0] != '0')
    &&& digits_value(p) <= 255
}

/// The 32-bit value of a dotted-quad IPv4 address (std's `Ipv4Addr` parser),
/// or nothing when the text is not one.
pub open spec fn ipv4_value(s: Seq<char>) -> Option<nat> {
    let ps = split_spec(s, '.');
    if ps.len() == 4 && octet_ok(ps[0]) && octet_ok(ps[1]) && octet_ok(ps[2]) && octet_ok(ps[3]) {
        Some(((digits_value(ps[0]) * 256 + digits_value(ps[1])) * 256 + digits_value(ps[2])) * 256
            + digits_value(ps[3]))
    } else {
        None
    }
}

fn octet(p: &Vec<char>) -> (r: Option<u64>)
    ensures
        octet_ok(p@) ==> r == Some(digits_value(p@) as u64),
        !octet_ok(p@) ==> r is None,
{
    if p.len() < 1 || p.len() > 3 {
        return None;
    }
    let mut i: usize = 0;
    while i < p.len()
        invariant
            i <= p@.len(),
            forall|j: int| 0 <= j < i ==> is_digit(#[trigger] p@[j]),
        decreases p.len() - i,
    {
        if !('0' <= p[i] && p[i] <= '9') {
            return None;
        }
        i = i + 1;
    }
    if p.len() > 1 && p[0] == '0' {
        return None;
    }
    proof {
        assert(all_digits(p@));
        assert(p@[0] != '+');
        assert(crate::text::unsigned_body(p@) == p@);
    }
    parse_unsigned(p, 255)
}

/// Parses a dotted-quad IPv4 address into its 32-bit value.
pub fn parse_ipv4(s: &str) -> (r: Option<u64>)
    ensures
        match ipv4_value(s@) {
            Some(v) => r == Some(v as u64),
            None => r is None,
        },
{
    let cs = chars_of(s);
    let ps = split_chars(&cs, '.');
    if ps.len() != 4 {
        return None;
    }
    proof {
        let v = views(ps@);
        assert(v[0] == ps@[0]@ && v[1] == ps@[1]@ && v[2] == ps@[2]@ && v[3] == ps@[3]@);
    }
    let a = match octet(&ps[0]) {
        Some(v) => v,
        None => {
            return None;
        },
    };
    let b = match octet(&ps[1]) {
        Some(v) => v,
        None => {
            return None;
        },
    };
    let c = match octet(&ps[2]) {
        Some(v) => v,
        None => {
            return None;
        },
    };
    let d = match octet(&ps[3]) {
        Some(v) => v,
        None => {
            return None;
        },
    };
    Some(((a * 256 + b) * 256 + c) * 256 + d)
}

// ---------------------------------------------------------------------------
// Neighbour tables
// ---------------------------------------------------------------------------

/// A host found on the LAN.
#[derive(Debug, Clone)]
pub struct DiscoveredHost {
    pub ip: String,
    pub mac: Option<String>,
    pub hostname: Option<String>,
}

/// The view of a host: address, MAC address, host name.
pub open spec fn host_view(h: DiscoveredHost) -> (Seq<char>, Option<Seq<char>>, Option<Seq<char>>) {
    (h.ip@, opt_view(h.mac), opt_view(h.hostname))
}

/// The views of hosts.
pub open spec fn host_views(v: Seq<DiscoveredHost>) -> Seq<(Seq<char>, Option<Seq<char>>, Option<Seq<char>>)> {
    Seq::new(v.len(), |i: int| host_view(v[i]))
}

/// A neighbour line whose `lladdr` keyword is its last word: no MAC address
/// follows it (reading it would index past the end).
pub open spec fn lladdr_last(ws: Seq<Seq<char>>) -> bool {
    word_pos(ws, "lladdr"@) == Some(ws.len() - 1)
}

/// A line of `ip neigh show` that reading stops on: an IPv4 entry of five or
/// more words whose `lladdr` is the last word.
pub open spec fn arp_line_unreadable(line: Seq<char>) -> bool {
    let ws = tokens_spec(line);
    ws.len() >= 5 && ipv4_value(ws[0]) is Some && lladdr_last(ws)
}

/// The host of an `ip neigh show` line: an entry of at least five words whose
/// first word is an IPv4 address and which has a link-layer address (entries
/// without one, FAILED or INCOMPLETE, are skipped).
pub open spec fn arp_entry(line: Seq<char>) -> Option<(Seq<char>, Seq<char>)> {
    let ws = tokens_spec(line);
    if ws.len() < 5 || ipv4_value(ws[0]) is None {
        None
    } else {
        match word_pos(ws, "lladdr"@) {
            Some(i) => Some((ws[0], ws[i + 1])),
            None => None,
        }
    }
}

/// Whether `ip neigh show` output can be read: no line is unreadable.
pub fn arp_output_readable(neigh_show: &str) -> (r: bool)
    ensures
        r == (forall|i: int| 0 <= i < lines_spec(neigh_show@).len() ==> !arp_line_unreadable(#[trigger] lines_spec(neigh_show@)[i])),
{
    let text = chars_of(neigh_show);
    let lines = lines_of(&text);
    let ll = chars_of("lladdr");
    let mut i: usize = 0;
    while i < lines.len()
        invariant
            i <= lines.len(),
            ll@ == "lladdr"@,
            views(lines@) == lines_spec(neigh_show@),
            forall|k: int| 0 <= k < i ==> !arp_line_unreadable(#[trigger] views(lines@)[k]),
        decreases lines.len() - i,
    {
        let ws = tokens_of(&lines[i]);
        proof {
            assert(views(lines@)[i as int] == lines@[i as int]@);
        }
        if ws.len() >= 5 {
            proof {
                assert(views(ws@)[0] == ws@[0]@);
            }
            let first = string_from_chars(&ws[0]);
            if parse_ipv4(first.as_str()).is_some() {
                match find_word(&ws, &ll) {
                    Some(pos) => {
                        if pos + 1 == ws.len() {
                            return false;
                        }
                    },
                    None => {},
                }
            }
        }
        i = i + 1;
    }
    true
}

/// The hosts of the lines, in order, as (address, MAC) pairs.
pub open spec fn arp_entries(lines: Seq<Seq<char>>) -> Seq<(Seq<char>, Seq<char>)>
    decreases lines.len(),
{
    if lines.len() == 0 {
        Seq::empty()
    } else {
        let rest = arp_entries(lines.drop_last());
        match arp_entry(lines.last()) {
            Some(e) => rest.push(e),
            None => rest,
        }
    }
}

/// The hosts of `ip neigh show` output: address and MAC, no host name.
pub fn parse_arp_table(neigh_show: &str) -> (r: Vec<DiscoveredHost>)
    requires
        forall|i: int| 0 <= i < lines_spec(neigh_show@).len() ==> !arp_line_unreadable(#[trigger] lines_spec(neigh_show@)[i]),
    ensures
        host_views(r@) == Seq::new(
            arp_entries(lines_spec(neigh_show@)).len(),
            |i: int| (arp_entries(lines_spec(neigh_show@))[i].0, Some(arp_entries(lines_spec(neigh_show@))[i].1), None::<Seq<char>>),
        ),
{
    let text = chars_of(neigh_show);
    let lines = lines_of(&text);
    let ll = chars_of("lladdr");
    let mut out: Vec<DiscoveredHost> = Vec::new();
    let ghost mut es: Seq<(Seq<char>, Seq<char>)> = Seq::empty();
    let mut i: usize = 0;
    proof {
        assert(views(lines@).subrange(0, 0) =~= Seq::<Seq<char>>::empty());
    }
    while i < lines.len()
        invariant
            i <= lines.len(),
            ll@ == "lladdr"@,
            views(lines@) == lines_spec(neigh_show@),
            forall|k: int| 0 <= k < views(lines@).len() ==> !arp_line_unreadable(#[trigger] views(lines@)[k]),
            es == arp_entries(views(lines@).subrange(0, i as int)),
            host_views(out@) == Seq::new(es.len(), |k: int| (es[k].0, Some(es[k].1), None::<Seq<char>>)),
        decreases lines.len() - i,
    {
        let ghost pre = views(lines@).subrange(0, i as int);
        let ghost post = views(lines@).subrange(0, i + 1);
        proof {
            assert(post.drop_last() =~= pre);
            assert(post.last() == lines@[i as int]@);
            assert(!arp_line_unreadable(views(lines@)[i as int]));
        }
        let ws = tokens_of(&lines[i]);
        if ws.len() >= 5 {
            proof {
                assert(views(ws@)[0] == ws@[0]@);
            }
            let first = string_from_chars(&ws[0]);
            if parse_ipv4(first.as_str()).is_some() {
                match find_word(&ws, &ll) {
                    Some(pos) => {
                        proof {
                            assert(views(ws@) == tokens_spec(views(lines@)[i as int]));
                            assert(word_pos(views(ws@), "lladdr"@) == Some(pos as int));
                            assert(ipv4_value(views(ws@)[0]) is Some);
                            assert(pos + 1 < ws@.len());
                            assert(views(ws@)[pos + 1] == ws@[pos + 1]@);
                        }
                        let mac = string_from_chars(&ws[pos + 1]);
                        let h = DiscoveredHost { ip: first, mac: Some(mac), hostname: None };
                        let ghost before = host_views(out@);
                        let ghost e = (views(ws@)[0], views(ws@)[pos + 1]);
                        let ghost hv = host_view(h);
                        proof {
                            assert(hv == (e.0, Some(e.1), None::<Seq<char>>));
                        }
                        out.push(h);
                        proof {
                            assert(host_views(out@) =~= before.push(hv));
                            es = es.push(e);
                            assert(host_views(out@) =~= Seq::new(es.len(), |m: int| (es[m].0, Some(es[m].1), None::<Seq<char>>)));
                        }
                    },
                    None => {},
                }
            }
        }
        proof {
            assert(es == arp_entries(post));
        }
        i = i + 1;
    }
    proof {
        assert(views(lines@).subrange(0, lines@.len() as int) =~= views(lines@));
    }
    out
}

/// A line of `ip -6 neigh show` that reading stops on: an entry of five or
/// more words, not link-local, whose `lladdr` is the last word.
pub open spec fn ndp_line_unreadable(line: Seq<char>) -> bool {
    let ws = tokens_spec(line);
    ws.len() >= 5 && !has_prefix(ws[0], "fe80"@) && lladdr_last(ws)
}

/// The (lower-case MAC, IPv6 address) of an `ip -6 neigh show` line: entries
/// of at least five words that are not link-local and have a link-layer address.
pub open spec fn ndp_entry(line: Seq<char>) -> Option<(Seq<char>, Seq<char>)> {
    let ws = tokens_spec(line);
    if ws.len() < 5 || has_prefix(ws[0], "fe80"@) {
        None
    } else {
        match word_pos(ws, "lladdr"@) {
            Some(i) => Some((lowercase_of(ws[i + 1]), ws[0])),
            None => None,
        }
    }
}

/// Whether `ip -6 neigh show` output can be read: no line is unreadable.
pub fn ndp_output_readable(neigh_show: &str) -> (r: bool)
    ensures
        r == (forall|i: int| 0 <= i < lines_spec(neigh_show@).len() ==> !ndp_line_unreadable(#[trigger] lines_spec(neigh_show@)[i])),
{
    let text = chars_of(neigh_show);
    let lines = lines_of(&text);
    let ll = chars_of("lladdr");
    let fe = chars_of("fe80");
    let mut i: usize = 0;
    while i < lines.len()
        invariant
            i <= lines.len(),
            ll@ == "lladdr"@,
            fe@ == "fe80"@,
            views(lines@) == lines_spec(neigh_show@),
            forall|k: int| 0 <= k < i ==> !ndp_line_unreadable(#[trigger] views(lines@)[k]),
        decreases lines.len() - i,
    {
        let ws = tokens_of(&lines[i]);
        proof {
            assert(views(lines@)[i as int] == lines@[i as int]@);
        }
        if ws.len() >= 5 {
            proof {
                assert(views(ws@)[0] == ws@[0]@);
            }
            if !starts_with(&ws[0], &fe) {
                match find_word(&ws, &ll) {
                    Some(pos) => {
                        if pos + 1 == ws.len() {
                            return false;
                        }
                    },
                    None => {},
                }
            }
        }
        i = i + 1;
    }
    true
}

/// Some pair has the key `k`.
pub open spec fn has_key_pair(m: Seq<(Seq<char>, Seq<char>)>, k: Seq<char>) -> bool {
    exists|i: int| 0 <= i < m.len() && (#[trigger] m[i]).0 == k
}

/// MAC to IPv6 address: the first address seen for each MAC, in order of first sighting.
pub open spec fn ndp_map(lines: Seq<Seq<char>>) -> Seq<(Seq<char>, Seq<char>)>
    decreases lines.len(),
{
    if lines.len() == 0 {
        Seq::empty()
    } else {
        let rest = ndp_map(lines.drop_last());
        match ndp_entry(lines.last()) {
            Some(e) => if has_key_pair(rest, e.0) {
                rest
            } else {
                rest.push(e)
            },
            None => rest,
        }
    }
}

/// The views of (key, value) pairs.
pub open spec fn pair_views(v: Seq<(String, String)>) -> Seq<(Seq<char>, Seq<char>)> {
    Seq::new(v.len(), |i: int| (v[i].0@, v[i].1@))
}

/// MAC to global IPv6 address from `ip -6 neigh show` output; each MAC keeps
/// its first address.
pub fn parse_ndp_table(neigh_show: &str) -> (r: Vec<(String, String)>)
    requires
        forall|i: int| 0 <= i < lines_spec(neigh_show@).len() ==> !ndp_line_unreadable(#[trigger] lines_spec(neigh_show@)[i]),
    ensures
        pair_views(r@) == ndp_map(lines_spec(neigh_show@)),
{
    let text = chars_of(neigh_show);
    let lines = lines_of(&text);
    let ll = chars_of("lladdr");
    let fe = chars_of("fe80");
    let mut out: Vec<(String, String)> = Vec::new();
    let mut i: usize = 0;
    proof {
        assert(views(lines@).subrange(0, 0) =~= Seq::<Seq<char>>::empty());
    }
    while i < lines.len()
        invariant
            i <= lines.len(),
            ll@ == "lladdr"@,
            fe@ == "fe80"@,
            views(lines@) == lines_spec(neigh_show@),
            forall|k: int| 0 <= k < views(lines@).len() ==> !ndp_line_unreadable(#[trigger] views(lines@)[k]),
            pair_views(out@) == ndp_map(views(lines@).subrange(0, i as int)),
        decreases lines.len() - i,
    {
        let ghost pre = views(lines@).subrange(0, i as int);
        let ghost post = views(lines@).subrange(0, i + 1);
        proof {
            assert(post.drop_last() =~= pre);
            assert(post.last() == lines@[i as int]@);
            assert(!ndp_line_unreadable(views(lines@)[i as int]));
        }
        let ws = tokens_of(&lines[i]);
        if ws.len() >= 5 {
            proof {
                assert(views(ws@)[0] == ws@[0]@);
            }
            if !starts_with(&ws[0], &fe) {
                match find_word(&ws, &ll) {
                    Some(pos) => {
                        proof {
                            assert(views(ws@) == tokens_spec(views(lines@)[i as int]));
                            assert(word_pos(views(ws@), "lladdr"@) == Some(pos as int));
                            assert(pos + 1 < ws@.len());
                            assert(views(ws@)[pos + 1] == ws@[pos + 1]@);
                        }
                        let raw = string_from_chars(&ws[pos + 1]);
                        let mac = to_lowercase(raw.as_str());
                        let mut found = false;
                        let mut j: usize = 0;
                        while j < out.len()
                            invariant
                                j <= out@.len(),
                                found == (exists|m: int| 0 <= m < j && (#[trigger] pair_views(out@)[m]).0 == mac@),
                            decreases out.len() - j,
                        {
                            if crate::text::str_eq(out[j].0.as_str(), mac.as_str()) {
                                proof {
                                    assert(pair_views(out@)[j as int].0 == mac@);
                                }
                                found = true;
                            }
                            j = j + 1;
                        }
                        proof {
                            assert(ndp_entry(views(lines@)[i as int]) == Some((mac@, views(ws@)[0])));
                            assert(found == has_key_pair(pair_views(out@), mac@));
                        }
                        if !found {
                            let ip6 = string_from_chars(&ws[0]);
                            let ghost before = pair_views(out@);
                            let ghost e = (mac@, ip6@);
                            out.push((mac, ip6));
                            proof {
                                assert(pair_views(out@) =~= before.push(e));
                            }
                        }
                    },
                    None => {},
                }
            }
        }
        proof {
            assert(pair_views(out@) == ndp_map(post));
        }
        i = i + 1;
    }
    proof {
        assert(views(lines@).subrange(0, lines@.len() as int) =~= views(lines@));
    }
    out
}

/// The host name of `getent hosts <ip>` output: its second word, unless that
/// is the address itself.
pub open spec fn getent_name(out: Seq<char>, ip: Seq<char>) -> Option<Seq<char>> {
    let ws = tokens_spec(out);
    if ws.len() < 2 || ws[1] == ip {
        None
    } else {
        Some(ws[1])
    }
}

/// The host name in the output of a successful `getent hosts <ip>`.
pub fn hostname_from_getent(output: &str, ip: &str) -> (r: Option<String>)
    ensures
        opt_view(r) == getent_name(output@, ip@),
{
    let cs = chars_of(output);
    let ws = tokens_of(&cs);
    if ws.len() < 2 {
        return None;
    }
    proof {
        assert(views(ws@)[1] == ws@[1]@);
    }
    let ipc = chars_of(ip);
    if chars_eq(&ws[1], &ipc) {
        None
    } else {
        Some(string_from_chars(&ws[1]))
    }
}

// ---------------------------------------------------------------------------
// Merging and ordering
// ---------------------------------------------------------------------------

/// Some host has the address `ip`.
pub open spec fn has_ip(hs: Seq<(Seq<char>, Option<Seq<char>>, Option<Seq<char>>)>, ip: Seq<char>) -> bool {
    exists|i: int| 0 <= i < hs.len() && (#[trigger] hs[i]).0 == ip
}

/// The known hosts followed by the new hosts whose address is not known yet;
/// the first host of an address wins.
pub open spec fn merged(
    seen: Seq<(Seq<char>, Option<Seq<char>>, Option<Seq<char>>)>,
    found: Seq<(Seq<char>, Option<Seq<char>>, Option<Seq<char>>)>,
) -> Seq<(Seq<char>, Option<Seq<char>>, Option<Seq<char>>)>
    decreases found.len(),
{
    if found.len() == 0 {
        seen
    } else {
        let rest = merged(seen, found.drop_last());
        if has_ip(rest, found.last().0) {
            rest
        } else {
            rest.push(found.last())
        }
    }
}

/// Adds the hosts of one sweep whose address was not seen yet.
pub fn merge_hosts(seen: &mut Vec<DiscoveredHost>, found: Vec<DiscoveredHost>)
    ensures
        host_views(final(seen)@) == merged(host_views(old(seen)@), host_views(found@)),
{
    let ghost start = host_views(seen@);
    let mut i: usize = 0;
    proof {
        assert(host_views(found@).subrange(0, 0) =~= Seq::<(Seq<char>, Option<Seq<char>>, Option<Seq<char>>)>::empty());
    }
    while i < found.len()
        invariant
            i <= found@.len(),
            host_views(seen@) == merged(start, host_views(found@).subrange(0, i as int)),
        decreases found.len() - i,
    {
        let ghost pre = host_views(found@).subrange(0, i as int);
        let ghost post = host_views(found@).subrange(0, i + 1);
        proof {
            assert(post.drop_last() =~= pre);
            assert(post.last() == host_view(found@[i as int]));
        }
        let h = &found[i];
        let mut known = false;
        let mut j: usize = 0;
        while j < seen.len()
            invariant
                j <= seen@.len(),
                known == (exists|m: int| 0 <= m < j && (#[trigger] host_views(seen@)[m]).0 == h.ip@),
            decreases seen.len() - j,
        {
            if crate::text::str_eq(seen[j].ip.as_str(), h.ip.as_str()) {
                proof {
                    assert(host_views(seen@)[j as int].0 == h.ip@);
                }
                known = true;
            }
            j = j + 1;
        }
        if !known {
            let c = DiscoveredHost {
                ip: h.ip.clone(),
                mac: crate::model::clone_opt(&h.mac),
                hostname: crate::model::clone_opt(&h.hostname),
            };
            let ghost before = host_views(seen@);
            seen.push(c);
            proof {
                assert(host_views(seen@) =~= before.push(host_view(found@[i as int])));
            }
        }
        i = i + 1;
    }
    proof {
        assert(host_views(found@).subrange(0, found@.len() as int) =~= host_views(found@));
    }
}

/// The sort key of an address: its value, or 0 (`0.0.0.0`) when it is none.
pub open spec fn ip_key(ip: Seq<char>) -> nat {
    match ipv4_value(ip) {
        Some(v) => v,
        None => 0,
    }
}

/// The sort keys of hosts.
pub open spec fn host_keys(hs: Seq<DiscoveredHost>) -> Seq<i128> {
    Seq::new(hs.len(), |i: int| ip_key(hs[i].ip@) as i128)
}

/// Orders hosts by address, ascending; hosts of equal key keep their order.
pub fn sort_hosts(hosts: Vec<DiscoveredHost>) -> (r: Vec<DiscoveredHost>)
    ensures
        exists|perm: Seq<usize>| #![trigger is_stable_order(host_keys(hosts@), false, perm)]
            is_stable_order(host_keys(hosts@), false, perm) && host_views(r@) == Seq::new(
                perm.len(),
                |i: int| host_view(hosts@[perm[i] as int]),
            ),
{
    let mut keys: Vec<i128> = Vec::new();
    let mut i: usize = 0;
    while i < hosts.len()
        invariant
            i <= hosts@.len(),
            keys@ == host_keys(hosts@).subrange(0, i as int),
        decreases hosts.len() - i,
    {
        let k: u64 = match parse_ipv4(hosts[i].ip.as_str()) {
            Some(v) => v,
            None => 0,
        };
        keys.push(k as i128);
        i = i + 1;
        proof {
            assert(keys@ =~= host_keys(hosts@).subrange(0, i as int));
        }
    }
    proof {
        assert(keys@ =~= host_keys(hosts@));
    }
    let perm = stable_order(&keys, false);
    let mut r: Vec<DiscoveredHost> = Vec::new();
    let mut m: usize = 0;
    while m < perm.len()
        invariant
            m <= perm@.len(),
            is_stable_order(host_keys(hosts@), false, perm@),
            host_views(r@) == Seq::new(m as nat, |k: int| host_view(hosts@[perm@[k] as int])),
        decreases perm.len() - m,
    {
        let idx = perm[m];
        proof {
            assert(perm@[m as int] < host_keys(hosts@).len());
        }
        let h = &hosts[idx];
        let c = DiscoveredHost {
            ip: h.ip.clone(),
            mac: crate::model::clone_opt(&h.mac),
            hostname: crate::model::clone_opt(&h.hostname),
        };
        let ghost before = host_views(r@);
        r.push(c);
        proof {
            assert(host_views(r@) =~= before.push(host_view(hosts@[perm@[m as int] as int])));
        }
        m = m + 1;
        proof {
            assert(host_views(r@) =~= Seq::new(m as nat, |k: int| host_view(hosts@[perm@[k] as int])));
        }
    }
    r
}


// ---------------------------------------------------------------------------
// Laws of discovery
// ---------------------------------------------------------------------------

/// Addresses are unique.
pub open spec fn unique_ips(hs: Seq<(Seq<char>, Option<Seq<char>>, Option<Seq<char>>)>) -> bool {
    forall|i: int, j: int| 0 <= i < j < hs.len() ==> (#[trigger] hs[i]).0 != (#[trigger] hs[j]).0
}

/// Merging sweeps lists every address once, and every address that any sweep found.
pub proof fn law_merge_lists_each_address_once(
    seen: Seq<(Seq<char>, Option<Seq<char>>, Option<Seq<char>>)>,
    found: Seq<(Seq<char>, Option<Seq<char>>, Option<Seq<char>>)>,
)
    requires
        unique_ips(seen),
    ensures
        unique_ips(merged(seen, found)),
        forall|j: int| 0 <= j < found.len() ==> has_ip(merged(seen, found), (#[trigger] found[j]).0),
        forall|j: int| 0 <= j < seen.len() ==> merged(seen, found)[j] == seen[j],
        merged(seen, found).len() >= seen.len(),
    decreases found.len(),
{
    if found.len() > 0 {
        let f0 = found.drop_last();
        law_merge_lists_each_address_once(seen, f0);
        let r = merged(seen, f0);
        let x = found.last();
        if !has_ip(r, x.0) {
            let r2 = r.push(x);
            assert forall|i: int, j: int| 0 <= i < j < r2.len() implies (#[trigger] r2[i]).0 != (#[trigger] r2[j]).0 by {
                if j == r.len() {
                    assert(r2[i] == r[i]);
                } else {
                    assert(r2[i] == r[i] && r2[j] == r[j]);
                }
            }
            assert forall|j: int| 0 <= j < found.len() implies has_ip(r2, (#[trigger] found[j]).0) by {
                if j < f0.len() {
                    assert(found[j] == f0[j]);
                    assert(has_ip(r, f0[j].0));
                    let k = choose|k: int| 0 <= k < r.len() && (#[trigger] r[k]).0 == f0[j].0;
                    assert(r2[k] == r[k]);
                } else {
                    assert(r2[r.len() as int] == x);
                }
            }
        } else {
            assert forall|j: int| 0 <= j < found.len() implies has_ip(r, (#[trigger] found[j]).0) by {
                if j < f0.len() {
                    assert(found[j] == f0[j]);
                }
            }
        }
    }
}

} // verus!
