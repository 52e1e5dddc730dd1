//! Interface statistics from `/proc/net/dev`, and the interface overview of the UI.

use vstd::prelude::*;
use crate::lookup::sviews;
use crate::model::{Gateway, InterfaceMeta};
use crate::text::{
    has_prefix,
    append_u64, chars_of, dec_int_spec, dec_spec, lines_of, lines_spec, parse_unsigned, parse_unsigned_spec,
    split_chars, split_once_chars, split_once_spec, split_spec, string_from_chars, tokens_of, tokens_spec, trim_chars,
    trim_spec, views,
};

verus! {

/// The counters of one interface.
#[derive(Debug, Clone, Copy, PartialEq, Eq)]
pub struct IfaceCounters {
    pub rx_bytes: u64,
    pub tx_bytes: u64,
    pub rx_packets: u64,
    pub tx_packets: u64,
    pub rx_errors: u64,
    pub tx_errors: u64,
    pub rx_drops: u64,
    pub tx_drops: u64,
}

/// The counters of a named interface.
#[derive(Debug, Clone)]
pub struct IfaceStats {
    pub name: String,
    pub counters: IfaceCounters,
}

/// The value of named interface counters.
pub struct IfaceStatsV {
    pub name: Seq<char>,
    pub counters: IfaceCounters,
}

/// The views of named interface counters.
pub open spec fn stats_views(s: Seq<IfaceStats>) -> Seq<IfaceStatsV> {
    Seq::new(s.len(), |i: int| IfaceStatsV { name: s[i].name@, counters: s[i].counters })
}

/// The numbers among the fields of a line: the fields that parse as unsigned 64-bit integers.
pub open spec fn numbers_of(fields: Seq<Seq<char>>) -> Seq<u64>
    decreases fields.len(),
{
    if fields.len() == 0 {
        Seq::empty()
    } else {
        let rest = numbers_of(fields.drop_last());
        match parse_unsigned_spec(fields.last(), u64::MAX as nat) {
            Some(v) => rest.push(v as u64),
            None => rest,
        }
    }
}

/// The counters of one `/proc/net/dev` line: the name before the first `:`
/// (trimmed), and from the numbers after it receive bytes, packets, errors,
/// drops (columns 0–3) and transmit bytes, packets, errors, drops (columns 8–11).
/// Lines without `:`, the loopback interface and lines with fewer than 16
/// numbers give nothing.
pub open spec fn dev_line(line: Seq<char>) -> Option<IfaceStatsV> {
    match split_once_spec(line, ':') {
        None => None,
        Some((n, st)) => {
            let name = trim_spec(n);
            let nums = numbers_of(tokens_spec(st));
            if name == "lo"@ || nums.len() < 16 {
                None
            } else {
                Some(
                    IfaceStatsV {
                        name,
                        counters: IfaceCounters {
                            rx_bytes: nums[0],
                            rx_packets: nums[1],
                            rx_errors: nums[2],
                            rx_drops: nums[3],
                            tx_bytes: nums[8],
                            tx_packets: nums[9],
                            tx_errors: nums[10],
                            tx_drops: nums[11],
                        },
                    },
                )
            }
        },
    }
}

/// The position of the entry for `name`.
pub open spec fn stats_index(s: Seq<IfaceStatsV>, name: Seq<char>) -> Option<int>
    decreases s.len(),
{
    if s.len() == 0 {
        None
    } else if s[0].name == name {
        Some(0)
    } else {
        match stats_index(s.drop_first(), name) {
            Some(k) => Some(k + 1),
            None => None,
        }
    }
}

/// The interfaces of the lines, one entry per name at its first line, with
/// the counters of its last line.
pub open spec fn dev_entries(lines: Seq<Seq<char>>) -> Seq<IfaceStatsV>
    decreases lines.len(),
{
    if lines.len() == 0 {
        Seq::empty()
    } else {
        let rest = dev_entries(lines.drop_last());
        match dev_line(lines.last()) {
            None => rest,
            Some(e) => match stats_index(rest, e.name) {
                Some(k) => rest.update(k, e),
                None => rest.push(e),
            },
        }
    }
}

/// The interface counters of a `/proc/net/dev` text; its two header lines are skipped.
pub open spec fn proc_net_dev_spec(content: Seq<char>) -> Seq<IfaceStatsV> {
    let ls = lines_spec(content);
    dev_entries(if ls.len() >= 2 { ls.subrange(2, ls.len() as int) } else { Seq::empty() })
}

fn numbers(fields: &Vec<Vec<char>>) -> (r: Vec<u64>)
    ensures
        r@ == numbers_of(views(fields@)),
{
    let mut r: Vec<u64> = Vec::new();
    let mut i: usize = 0;
    proof {
        assert(views(fields@).subrange(0, 0) =~= Seq::<Seq<char>>::empty());
    }
    while i < fields.len()
        invariant
            i <= fields@.len(),
            r@ == numbers_of(views(fields@).subrange(0, i as int)),
        decreases fields.len() - i,
    {
        let ghost pre = views(fields@).subrange(0, i as int);
        let ghost post = views(fields@).subrange(0, i + 1);
        proof {
            assert(post.drop_last() =~= pre);
            assert(post.last() == fields@[i as int]@);
        }
        match parse_unsigned(&fields[i], u64::MAX) {
            Some(v) => r.push(v),
            None => {},
        }
        i = i + 1;
    }
    proof {
        assert(views(fields@).subrange(0, fields@.len() as int) =~= views(fields@));
    }
    r
}

fn parse_dev_line(line: &Vec<char>) -> (r: Option<IfaceStats>)
    ensures
        match dev_line(line@) {
            Some(e) => r matches Some(x) && x.name@ == e.name && x.counters == e.counters,
            None => r is None,
        },
{
    match split_once_chars(line, ':') {
        None => None,
        Some((n, st)) => {
            let name = trim_chars(&n);
            let toks = tokens_of(&st);
            let nums = numbers(&toks);
            let lo = chars_of("lo");
            if crate::text::chars_eq(&name, &lo) || nums.len() < 16 {
                None
            } else {
                Some(
                    IfaceStats {
                        name: string_from_chars(&name),
                        counters: IfaceCounters {
                            rx_bytes: nums[0],
                            rx_packets: nums[1],
                            rx_errors: nums[2],
                            rx_drops: nums[3],
                            tx_bytes: nums[8],
                            tx_packets: nums[9],
                            tx_errors: nums[10],
                            tx_drops: nums[11],
                        },
                    },
                )
            }
        },
    }
}

fn find_stats(s: &Vec<IfaceStats>, name: &String) -> (r: Option<usize>)
    ensures
        r matches Some(i) ==> stats_index(stats_views(s@), name@) == Some(i as int) && i < s@.len(),
        r is None ==> stats_index(stats_views(s@), name@) is None,
{
    let ghost v = stats_views(s@);
    let mut i: usize = 0;
    proof {
        assert(v.subrange(0, v.len() as int) =~= v);
    }
    while i < s.len()
        invariant
            i <= s@.len(),
            v == stats_views(s@),
            stats_index(v, name@) == (match stats_index(v.subrange(i as int, v.len() as int), name@) {
                Some(k) => Some(k + i),
                None => None,
            }),
        decreases s.len() - i,
    {
        let ghost rest = v.subrange(i as int, v.len() as int);
        proof {
            assert(rest.drop_first() =~= v.subrange(i + 1, v.len() as int));
            assert(rest[0].name == s@[i as int].name@);
        }
        if s[i].name == *name {
            return Some(i);
        }
        i = i + 1;
    }
    None
}

/// Reads the per-interface counters of a `/proc/net/dev` text.
pub fn parse_proc_net_dev(content: &str) -> (r: Vec<IfaceStats>)
    ensures
        stats_views(r@) == proc_net_dev_spec(content@),
{
    let cs = chars_of(content);
    let ls = lines_of(&cs);
    let ghost lv = views(ls@);
    let ghost body = if lv.len() >= 2 { lv.subrange(2, lv.len() as int) } else { Seq::<Seq<char>>::empty() };
    let mut r: Vec<IfaceStats> = Vec::new();
    if ls.len() < 2 {
        proof {
            assert(stats_views(r@) =~= dev_entries(body));
        }
        return r;
    }
    let mut i: usize = 2;
    proof {
        assert(body.subrange(0, 0) =~= Seq::<Seq<char>>::empty());
        assert(stats_views(r@) =~= dev_entries(body.subrange(0, 0)));
    }
    while i < ls.len()
        invariant
            2 <= i <= ls@.len(),
            lv == views(ls@),
            body == lv.subrange(2, lv.len() as int),
            stats_views(r@) == dev_entries(body.subrange(0, i - 2)),
        decreases ls.len() - i,
    {
        let ghost pre = body.subrange(0, i - 2);
        let ghost post = body.subrange(0, i - 1);
        proof {
            assert(post.drop_last() =~= pre);
            assert(post.last() == ls@[i as int]@);
        }
        match parse_dev_line(&ls[i]) {
            None => {},
            Some(e) => {
                let ghost ev = IfaceStatsV { name: e.name@, counters: e.counters };
                let ghost before = stats_views(r@);
                match find_stats(&r, &e.name) {
                    Some(k) => {
                        r.set(k, e);
                        proof {
                            assert(stats_views(r@) =~= before.update(k as int, ev));
                        }
                    },
                    None => {
                        r.push(e);
                        proof {
                            assert(stats_views(r@) =~= before.push(ev));
                        }
                    },
                }
            },
        }
        i = i + 1;
    }
    proof {
        assert(body.subrange(0, ls@.len() - 2) =~= body);
    }
    r
}

/// The InfluxDB line of one interface's deltas.
pub open spec fn iface_line(name: Seq<char>, d: IfaceCounters, now_ns: i64) -> Seq<char> {
    "stellwerk_interfaces,iface="@ + name + " rx_bytes="@ + dec_spec(d.rx_bytes as nat) + "i,tx_bytes="@
        + dec_spec(d.tx_bytes as nat) + "i,rx_packets="@ + dec_spec(d.rx_packets as nat) + "i,tx_packets="@
        + dec_spec(d.tx_packets as nat) + "i,rx_errors="@ + dec_spec(d.rx_errors as nat) + "i,tx_errors="@
        + dec_spec(d.tx_errors as nat) + "i,rx_drops="@ + dec_spec(d.rx_drops as nat) + "i,tx_drops="@
        + dec_spec(d.tx_drops as nat) + "i "@ + dec_int_spec(now_ns as int)
}

/// `a - b`, or zero when `b` is larger.
pub open spec fn sat_sub(a: u64, b: u64) -> u64 {
    if a >= b {
        (a - b) as u64
    } else {
        0
    }
}

/// The counters' growth since the previous reading (saturating at zero).
pub open spec fn counters_delta(cur: IfaceCounters, prev: IfaceCounters) -> IfaceCounters {
    IfaceCounters {
        rx_bytes: sat_sub(cur.rx_bytes, prev.rx_bytes),
        tx_bytes: sat_sub(cur.tx_bytes, prev.tx_bytes),
        rx_packets: sat_sub(cur.rx_packets, prev.rx_packets),
        tx_packets: sat_sub(cur.tx_packets, prev.tx_packets),
        rx_errors: sat_sub(cur.rx_errors, prev.rx_errors),
        tx_errors: sat_sub(cur.tx_errors, prev.tx_errors),
        rx_drops: sat_sub(cur.rx_drops, prev.rx_drops),
        tx_drops: sat_sub(cur.tx_drops, prev.tx_drops),
    }
}

/// The lines of one statistics round: one per current interface that has a
/// previous reading, in the order of the current readings.
pub open spec fn iface_lines(prev: Seq<IfaceStatsV>, cur: Seq<IfaceStatsV>, now_ns: i64) -> Seq<Seq<char>>
    decreases cur.len(),
{
    if cur.len() == 0 {
        Seq::empty()
    } else {
        let rest = iface_lines(prev, cur.drop_last(), now_ns);
        let e = cur.last();
        match stats_index(prev, e.name) {
            Some(k) => rest.push(iface_line(e.name, counters_delta(e.counters, prev[k].counters), now_ns)),
            None => rest,
        }
    }
}

/// A found statistics index is in range.
pub proof fn lemma_stats_index(s: Seq<IfaceStatsV>, name: Seq<char>)
    ensures
        stats_index(s, name) matches Some(k) ==> 0 <= k < s.len() && s[k].name == name,
    decreases s.len(),
{
    if s.len() > 0 && s[0].name != name {
        lemma_stats_index(s.drop_first(), name);
    }
}

fn sub_sat(a: u64, b: u64) -> (r: u64)
    ensures
        r == sat_sub(a, b),
{
    if a >= b {
        a - b
    } else {
        0
    }
}

/// The InfluxDB lines of one statistics round.
pub fn interface_lines(prev: &Vec<IfaceStats>, current: &Vec<IfaceStats>, now_ns: i64) -> (r: Vec<String>)
    ensures
        sviews(r@) == iface_lines(stats_views(prev@), stats_views(current@), now_ns),
{
    let ghost pv = stats_views(prev@);
    let ghost cv = stats_views(current@);
    let mut r: Vec<String> = Vec::new();
    let mut i: usize = 0;
    proof {
        assert(cv.subrange(0, 0) =~= Seq::<IfaceStatsV>::empty());
        assert(sviews(r@) =~= iface_lines(pv, cv.subrange(0, 0), now_ns));
    }
    while i < current.len()
        invariant
            i <= current@.len(),
            pv == stats_views(prev@),
            cv == stats_views(current@),
            sviews(r@) == iface_lines(pv, cv.subrange(0, i as int), now_ns),
        decreases current.len() - i,
    {
        let ghost pre = cv.subrange(0, i as int);
        let ghost post = cv.subrange(0, i + 1);
        proof {
            assert(post.drop_last() =~= pre);
            assert(post.last() == cv[i as int]);
        }
        let e = &current[i];
        match find_stats(prev, &e.name) {
            Some(k) => {
                let p = prev[k].counters;
                let c = e.counters;
                let mut s = String::from_str("stellwerk_interfaces,iface=");
                s.append(e.name.as_str());
                s.append(" rx_bytes=");
                append_u64(&mut s, sub_sat(c.rx_bytes, p.rx_bytes));
                s.append("i,tx_bytes=");
                append_u64(&mut s, sub_sat(c.tx_bytes, p.tx_bytes));
                s.append("i,rx_packets=");
                append_u64(&mut s, sub_sat(c.rx_packets, p.rx_packets));
                s.append("i,tx_packets=");
                append_u64(&mut s, sub_sat(c.tx_packets, p.tx_packets));
                s.append("i,rx_errors=");
                append_u64(&mut s, sub_sat(c.rx_errors, p.rx_errors));
                s.append("i,tx_errors=");
                append_u64(&mut s, sub_sat(c.tx_errors, p.tx_errors));
                s.append("i,rx_drops=");
                append_u64(&mut s, sub_sat(c.rx_drops, p.rx_drops));
                s.append("i,tx_drops=");
                append_u64(&mut s, sub_sat(c.tx_drops, p.tx_drops));
                s.append("i ");
                crate::text::append_i64(&mut s, now_ns);
                let ghost before = sviews(r@);
                r.push(s);
                proof {
                    assert(pv[k as int].counters == p);
                    assert(sviews(r@) =~= before.push(s@));
                }
            },
            None => {},
        }
        i = i + 1;
    }
    proof {
        assert(cv.subrange(0, current@.len() as int) =~= cv);
    }
    r
}

// ---------------------------------------------------------------------------
// Interface overview
// ---------------------------------------------------------------------------

/// The interface names listed in a `/proc/net/dev` text: the trimmed part
/// before the first `:` of each line after the two header lines, except `lo`.
pub open spec fn names_of_lines(lines: Seq<Seq<char>>) -> Seq<Seq<char>>
    decreases lines.len(),
{
    if lines.len() == 0 {
        Seq::empty()
    } else {
        let rest = names_of_lines(lines.drop_last());
        let name = trim_spec(split_spec(lines.last(), ':')[0]);
        if name == "lo"@ {
            rest
        } else {
            rest.push(name)
        }
    }
}

/// The interface names of a `/proc/net/dev` text.
pub open spec fn dev_names_spec(content: Seq<char>) -> Seq<Seq<char>> {
    let ls = lines_spec(content);
    names_of_lines(if ls.len() >= 2 { ls.subrange(2, ls.len() as int) } else { Seq::empty() })
}

/// Lists the interface names of a `/proc/net/dev` text.
pub fn interface_names(content: &str) -> (r: Vec<String>)
    ensures
        sviews(r@) == dev_names_spec(content@),
{
    let cs = chars_of(content);
    let ls = lines_of(&cs);
    let ghost lv = views(ls@);
    let ghost body = if lv.len() >= 2 { lv.subrange(2, lv.len() as int) } else { Seq::<Seq<char>>::empty() };
    let mut r: Vec<String> = Vec::new();
    if ls.len() < 2 {
        proof {
            assert(sviews(r@) =~= names_of_lines(body));
        }
        return r;
    }
    let lo = chars_of("lo");
    let mut i: usize = 2;
    proof {
        assert(body.subrange(0, 0) =~= Seq::<Seq<char>>::empty());
        assert(sviews(r@) =~= names_of_lines(body.subrange(0, 0)));
    }
    while i < ls.len()
        invariant
            2 <= i <= ls@.len(),
            lv == views(ls@),
            lo@ == "lo"@,
            body == lv.subrange(2, lv.len() as int),
            sviews(r@) == names_of_lines(body.subrange(0, i - 2)),
        decreases ls.len() - i,
    {
        let ghost pre = body.subrange(0, i - 2);
        let ghost post = body.subrange(0, i - 1);
        proof {
            assert(post.drop_last() =~= pre);
            assert(post.last() == ls@[i as int]@);
        }
        let parts = split_chars(&ls[i], ':');
        let name = trim_chars(&parts[0]);
        proof {
            assert(parts@[0]@ == split_spec(ls@[i as int]@, ':')[0]);
        }
        if !crate::text::chars_eq(&name, &lo) {
            let s = string_from_chars(&name);
            let ghost before = sviews(r@);
            r.push(s);
            proof {
                assert(sviews(r@) =~= before.push(s@));
            }
        }
        i = i + 1;
    }
    proof {
        assert(body.subrange(0, ls@.len() - 2) =~= body);
    }
    r
}

/// An interface as the UI shows it.
#[derive(Debug, Clone)]
pub struct InterfaceInfo {
    pub name: String,
    /// "intern" or "extern"; "extern" when nothing is recorded.
    pub role: String,
    /// 1 when enabled; 1 when nothing is recorded.
    pub enabled: i64,
    /// The gateways that use the interface, in gateway order.
    pub gateways: Vec<String>,
}

/// The first metadata recorded for `name`.
pub open spec fn find_meta(ms: Seq<InterfaceMeta>, name: Seq<char>) -> Option<InterfaceMeta>
    decreases ms.len(),
{
    if ms.len() == 0 {
        None
    } else if ms[0].name@ == name {
        Some(ms[0])
    } else {
        find_meta(ms.drop_first(), name)
    }
}

/// The names of the gateways that use interface `iface`, in order.
pub open spec fn gateways_on(gs: Seq<Gateway>, iface: Seq<char>) -> Seq<Seq<char>>
    decreases gs.len(),
{
    if gs.len() == 0 {
        Seq::empty()
    } else {
        let rest = gateways_on(gs.drop_last(), iface);
        if gs.last().interface@ == iface {
            rest.push(gs.last().name@)
        } else {
            rest
        }
    }
}

/// The overview entry of one interface.
pub open spec fn info_matches(info: InterfaceInfo, name: Seq<char>, ms: Seq<InterfaceMeta>, gs: Seq<Gateway>) -> bool {
    &&& info.name@ == name
    &&& info.role@ == (match find_meta(ms, name) {
        Some(m) => m.role@,
        None => "extern"@,
    })
    &&& info.enabled == (match find_meta(ms, name) {
        Some(m) => m.enabled,
        None => 1,
    })
    &&& sviews(info.gateways@) == gateways_on(gs, name)
}

fn lookup_meta<'a>(ms: &'a [InterfaceMeta], name: &String) -> (r: Option<&'a InterfaceMeta>)
    ensures
        match find_meta(ms@, name@) {
            Some(m) => r == Some(&m),
            None => r is None,
        },
{
    let mut i: usize = 0;
    proof {
        assert(ms@.subrange(0, ms@.len() as int) =~= ms@);
    }
    while i < ms.len()
        invariant
            i <= ms@.len(),
            find_meta(ms@, name@) == find_meta(ms@.subrange(i as int, ms@.len() as int), name@),
        decreases ms.len() - i,
    {
        let ghost rest = ms@.subrange(i as int, ms@.len() as int);
        proof {
            assert(rest.drop_first() =~= ms@.subrange(i + 1, ms@.len() as int));
            assert(rest[0] == ms@[i as int]);
        }
        if ms[i].name == *name {
            return Some(&ms[i]);
        }
        i = i + 1;
    }
    None
}

fn names_on(gateways: &[Gateway], iface: &String) -> (r: Vec<String>)
    ensures
        sviews(r@) == gateways_on(gateways@, iface@),
{
    let mut r: Vec<String> = Vec::new();
    let mut i: usize = 0;
    proof {
        assert(gateways@.subrange(0, 0) =~= Seq::<Gateway>::empty());
        assert(sviews(r@) =~= gateways_on(gateways@.subrange(0, 0), iface@));
    }
    while i < gateways.len()
        invariant
            i <= gateways@.len(),
            sviews(r@) == gateways_on(gateways@.subrange(0, i as int), iface@),
        decreases gateways.len() - i,
    {
        let ghost pre = gateways@.subrange(0, i as int);
        let ghost post = gateways@.subrange(0, i + 1);
        proof {
            assert(post.drop_last() =~= pre);
            assert(post.last() == gateways@[i as int]);
        }
        if gateways[i].interface == *iface {
            let ghost before = sviews(r@);
            let n = gateways[i].name.clone();
            r.push(n);
            proof {
                assert(sviews(r@) =~= before.push(n@));
            }
        }
        i = i + 1;
    }
    proof {
        assert(gateways@.subrange(0, gateways@.len() as int) =~= gateways@);
    }
    r
}

/// The interface overview: each interface with its recorded role and state
/// and the gateways that use it.
pub fn interface_overview(names: &Vec<String>, meta: &[InterfaceMeta], gateways: &[Gateway]) -> (r: Vec<InterfaceInfo>)
    ensures
        r@.len() == names@.len(),
        forall|i: int| 0 <= i < names@.len() ==> info_matches(#[trigger] r@[i], names@[i]@, meta@, gateways@),
{
    let mut r: Vec<InterfaceInfo> = Vec::new();
    let mut i: usize = 0;
    while i < names.len()
        invariant
            i <= names@.len(),
            r@.len() == i,
            forall|j: int| 0 <= j < i ==> info_matches(#[trigger] r@[j], names@[j]@, meta@, gateways@),
        decreases names.len() - i,
    {
        let name = &names[i];
        let (role, enabled) = match lookup_meta(meta, name) {
            Some(m) => (m.role.clone(), m.enabled),
            None => (String::from_str("extern"), 1),
        };
        let info = InterfaceInfo { name: name.clone(), role, enabled, gateways: names_on(gateways, name) };
        r.push(info);
        i = i + 1;
    }
    r
}

/// `seg` occurs in `l`.
pub open spec fn has_segment(l: Seq<char>, seg: Seq<char>) -> bool {
    exists|x: Seq<char>, y: Seq<char>| #[trigger] (x + seg + y) == l
}

/// A segment `key v1 mid v2 end` found where the line was built as
/// `.. (pre key) v1 mid v2 (end post)`.
proof fn lemma_segment_base(
    p: Seq<char>,
    pre: Seq<char>,
    key: Seq<char>,
    v1: Seq<char>,
    mid: Seq<char>,
    v2: Seq<char>,
    end: Seq<char>,
    post: Seq<char>,
)
    ensures
        has_segment(p + (pre + key) + v1 + mid + v2 + (end + post), key + v1 + mid + v2 + end),
{
    let seg = key + v1 + mid + v2 + end;
    assert((p + pre) + seg + post =~= p + (pre + key) + v1 + mid + v2 + (end + post));
}

/// A segment of `l` stays one when more text follows.
proof fn lemma_segment_grows(l: Seq<char>, seg: Seq<char>, z: Seq<char>)
    requires
        has_segment(l, seg),
    ensures
        has_segment(l + z, seg),
{
    let (x, y) = choose|x: Seq<char>, y: Seq<char>| #[trigger] (x + seg + y) == l;
    assert(x + seg + (y + z) =~= l + z);
}

/// A prefix of `l` stays one when more text follows.
proof fn lemma_prefix_grows(l: Seq<char>, h: Seq<char>, z: Seq<char>)
    requires
        has_prefix(l, h),
    ensures
        has_prefix(l + z, h),
{
    assert((l + z).subrange(0, h.len() as int) =~= l.subrange(0, h.len() as int));
}

/// The `rx_bytes=` and `tx_bytes=` fields of a line, side by side.
proof fn lemma_line_segment_bytes(name: Seq<char>, d: IfaceCounters, now_ns: i64)
    ensures
        has_segment(iface_line(name, d, now_ns), "rx_bytes="@ + dec_spec(d.rx_bytes as nat) + "i,tx_bytes="@ + dec_spec(d.tx_bytes as nat) + "i"@),
{
    reveal_strlit(" rx_bytes=");
    reveal_strlit(" ");
    reveal_strlit("rx_bytes=");
    reveal_strlit("i,rx_packets=");
    reveal_strlit("i");
    reveal_strlit(",rx_packets=");
    assert(" rx_bytes="@ =~= " "@ + "rx_bytes="@);
    assert("i,rx_packets="@ =~= "i"@ + ",rx_packets="@);
    let p = "stellwerk_interfaces,iface="@ + name;
    let seg = "rx_bytes="@ + dec_spec(d.rx_bytes as nat) + "i,tx_bytes="@ + dec_spec(d.tx_bytes as nat) + "i"@;
    lemma_segment_base(p, " "@, "rx_bytes="@, dec_spec(d.rx_bytes as nat), "i,tx_bytes="@, dec_spec(d.tx_bytes as nat), "i"@, ",rx_packets="@);
    let m6 = p + " rx_bytes="@ + dec_spec(d.rx_bytes as nat) + "i,tx_bytes="@ + dec_spec(d.tx_bytes as nat) + "i,rx_packets="@;
    assert(has_segment(m6, seg));
    lemma_segment_grows(m6, seg, dec_spec(d.rx_packets as nat));
    let m7 = m6 + dec_spec(d.rx_packets as nat);
    lemma_segment_grows(m7, seg, "i,tx_packets="@);
    let m8 = m7 + "i,tx_packets="@;
    lemma_segment_grows(m8, seg, dec_spec(d.tx_packets as nat));
    let m9 = m8 + dec_spec(d.tx_packets as nat);
    lemma_segment_grows(m9, seg, "i,rx_errors="@);
    let m10 = m9 + "i,rx_errors="@;
    lemma_segment_grows(m10, seg, dec_spec(d.rx_errors as nat));
    let m11 = m10 + dec_spec(d.rx_errors as nat);
    lemma_segment_grows(m11, seg, "i,tx_errors="@);
    let m12 = m11 + "i,tx_errors="@;
    lemma_segment_grows(m12, seg, dec_spec(d.tx_errors as nat));
    let m13 = m12 + dec_spec(d.tx_errors as nat);
    lemma_segment_grows(m13, seg, "i,rx_drops="@);
    let m14 = m13 + "i,rx_drops="@;
    lemma_segment_grows(m14, seg, dec_spec(d.rx_drops as nat));
    let m15 = m14 + dec_spec(d.rx_drops as nat);
    lemma_segment_grows(m15, seg, "i,tx_drops="@);
    let m16 = m15 + "i,tx_drops="@;
    lemma_segment_grows(m16, seg, dec_spec(d.tx_drops as nat));
    let m17 = m16 + dec_spec(d.tx_drops as nat);
    lemma_segment_grows(m17, seg, "i "@);
    let m18 = m17 + "i "@;
    lemma_segment_grows(m18, seg, dec_int_spec(now_ns as int));
    let m19 = m18 + dec_int_spec(now_ns as int);
    assert(m19 == iface_line(name, d, now_ns));
}

/// The `rx_packets=` and `tx_packets=` fields of a line, side by side.
proof fn lemma_line_segment_packets(name: Seq<char>, d: IfaceCounters, now_ns: i64)
    ensures
        has_segment(iface_line(name, d, now_ns), "rx_packets="@ + dec_spec(d.rx_packets as nat) + "i,tx_packets="@ + dec_spec(d.tx_packets as nat) + "i"@),
{
    reveal_strlit("i,rx_packets=");
    reveal_strlit("i,");
    reveal_strlit("rx_packets=");
    reveal_strlit("i,rx_errors=");
    reveal_strlit("i");
    reveal_strlit(",rx_errors=");
    assert("i,rx_packets="@ =~= "i,"@ + "rx_packets="@);
    assert("i,rx_errors="@ =~= "i"@ + ",rx_errors="@);
    let p = "stellwerk_interfaces,iface="@ + name + " rx_bytes="@ + dec_spec(d.rx_bytes as nat) + "i,tx_bytes="@ + dec_spec(d.tx_bytes as nat);
    let seg = "rx_packets="@ + dec_spec(d.rx_packets as nat) + "i,tx_packets="@ + dec_spec(d.tx_packets as nat) + "i"@;
    lemma_segment_base(p, "i,"@, "rx_packets="@, dec_spec(d.rx_packets as nat), "i,tx_packets="@, dec_spec(d.tx_packets as nat), "i"@, ",rx_errors="@);
    let m10 = p + "i,rx_packets="@ + dec_spec(d.rx_packets as nat) + "i,tx_packets="@ + dec_spec(d.tx_packets as nat) + "i,rx_errors="@;
    assert(has_segment(m10, seg));
    lemma_segment_grows(m10, seg, dec_spec(d.rx_errors as nat));
    let m11 = m10 + dec_spec(d.rx_errors as nat);
    lemma_segment_grows(m11, seg, "i,tx_errors="@);
    let m12 = m11 + "i,tx_errors="@;
    lemma_segment_grows(m12, seg, dec_spec(d.tx_errors as nat));
    let m13 = m12 + dec_spec(d.tx_errors as nat);
    lemma_segment_grows(m13, seg, "i,rx_drops="@);
    let m14 = m13 + "i,rx_drops="@;
    lemma_segment_grows(m14, seg, dec_spec(d.rx_drops as nat));
    let m15 = m14 + dec_spec(d.rx_drops as nat);
    lemma_segment_grows(m15, seg, "i,tx_drops="@);
    let m16 = m15 + "i,tx_drops="@;
    lemma_segment_grows(m16, seg, dec_spec(d.tx_drops as nat));
    let m17 = m16 + dec_spec(d.tx_drops as nat);
    lemma_segment_grows(m17, seg, "i "@);
    let m18 = m17 + "i "@;
    lemma_segment_grows(m18, seg, dec_int_spec(now_ns as int));
    let m19 = m18 + dec_int_spec(now_ns as int);
    assert(m19 == iface_line(name, d, now_ns));
}

/// The `rx_errors=` and `tx_errors=` fields of a line, side by side.
proof fn lemma_line_segment_errors(name: Seq<char>, d: IfaceCounters, now_ns: i64)
    ensures
        has_segment(iface_line(name, d, now_ns), "rx_errors="@ + dec_spec(d.rx_errors as nat) + "i,tx_errors="@ + dec_spec(d.tx_errors as nat) + "i"@),
{
    reveal_strlit("i,rx_errors=");
    reveal_strlit("i,");
    reveal_strlit("rx_errors=");
    reveal_strlit("i,rx_drops=");
    reveal_strlit("i");
    reveal_strlit(",rx_drops=");
    assert("i,rx_errors="@ =~= "i,"@ + "rx_errors="@);
    assert("i,rx_drops="@ =~= "i"@ + ",rx_drops="@);
    let p = "stellwerk_interfaces,iface="@ + name + " rx_bytes="@ + dec_spec(d.rx_bytes as nat) + "i,tx_bytes="@ + dec_spec(d.tx_bytes as nat) + "i,rx_packets="@ + dec_spec(d.rx_packets as nat) + "i,tx_packets="@ + dec_spec(d.tx_packets as nat);
    let seg = "rx_errors="@ + dec_spec(d.rx_errors as nat) + "i,tx_errors="@ + dec_spec(d.tx_errors as nat) + "i"@;
    lemma_segment_base(p, "i,"@, "rx_errors="@, dec_spec(d.rx_errors as nat), "i,tx_errors="@, dec_spec(d.tx_errors as nat), "i"@, ",rx_drops="@);
    let m14 = p + "i,rx_errors="@ + dec_spec(d.rx_errors as nat) + "i,tx_errors="@ + dec_spec(d.tx_errors as nat) + "i,rx_drops="@;
    assert(has_segment(m14, seg));
    lemma_segment_grows(m14, seg, dec_spec(d.rx_drops as nat));
    let m15 = m14 + dec_spec(d.rx_drops as nat);
    lemma_segment_grows(m15, seg, "i,tx_drops="@);
    let m16 = m15 + "i,tx_drops="@;
    lemma_segment_grows(m16, seg, dec_spec(d.tx_drops as nat));
    let m17 = m16 + dec_spec(d.tx_drops as nat);
    lemma_segment_grows(m17, seg, "i "@);
    let m18 = m17 + "i "@;
    lemma_segment_grows(m18, seg, dec_int_spec(now_ns as int));
    let m19 = m18 + dec_int_spec(now_ns as int);
    assert(m19 == iface_line(name, d, now_ns));
}

/// The `rx_drops=` and `tx_drops=` fields of a line, side by side.
proof fn lemma_line_segment_drops(name: Seq<char>, d: IfaceCounters, now_ns: i64)
    ensures
        has_segment(iface_line(name, d, now_ns), "rx_drops="@ + dec_spec(d.rx_drops as nat) + "i,tx_drops="@ + dec_spec(d.tx_drops as nat) + "i"@),
{
    reveal_strlit("i,rx_drops=");
    reveal_strlit("i,");
    reveal_strlit("rx_drops=");
    reveal_strlit("i ");
    reveal_strlit("i");
    reveal_strlit(" ");
    assert("i,rx_drops="@ =~= "i,"@ + "rx_drops="@);
    assert("i "@ =~= "i"@ + " "@);
    let p = "stellwerk_interfaces,iface="@ + name + " rx_bytes="@ + dec_spec(d.rx_bytes as nat) + "i,tx_bytes="@ + dec_spec(d.tx_bytes as nat) + "i,rx_packets="@ + dec_spec(d.rx_packets as nat) + "i,tx_packets="@ + dec_spec(d.tx_packets as nat) + "i,rx_errors="@ + dec_spec(d.rx_errors as nat) + "i,tx_errors="@ + dec_spec(d.tx_errors as nat);
    let seg = "rx_drops="@ + dec_spec(d.rx_drops as nat) + "i,tx_drops="@ + dec_spec(d.tx_drops as nat) + "i"@;
    lemma_segment_base(p, "i,"@, "rx_drops="@, dec_spec(d.rx_drops as nat), "i,tx_drops="@, dec_spec(d.tx_drops as nat), "i"@, " "@);
    let m18 = p + "i,rx_drops="@ + dec_spec(d.rx_drops as nat) + "i,tx_drops="@ + dec_spec(d.tx_drops as nat) + "i "@;
    assert(has_segment(m18, seg));
    lemma_segment_grows(m18, seg, dec_int_spec(now_ns as int));
    let m19 = m18 + dec_int_spec(now_ns as int);
    assert(m19 == iface_line(name, d, now_ns));
}

/// A line starts with the measurement and the interface's tag.
proof fn lemma_line_head(name: Seq<char>, d: IfaceCounters, now_ns: i64)
    ensures
        has_prefix(iface_line(name, d, now_ns), "stellwerk_interfaces,iface="@ + name + " "@),
{
    reveal_strlit(" rx_bytes=");
    reveal_strlit(" ");
    reveal_strlit("rx_bytes=");
    let head = "stellwerk_interfaces,iface="@ + name + " "@;
    assert(" rx_bytes="@ =~= " "@ + "rx_bytes="@);
    assert(("stellwerk_interfaces,iface="@ + name + " rx_bytes="@).subrange(0, head.len() as int) =~= head);
    let m2 = "stellwerk_interfaces,iface="@ + name + " rx_bytes="@;
    lemma_prefix_grows(m2, head, dec_spec(d.rx_bytes as nat));
    let m3 = m2 + dec_spec(d.rx_bytes as nat);
    lemma_prefix_grows(m3, head, "i,tx_bytes="@);
    let m4 = m3 + "i,tx_bytes="@;
    lemma_prefix_grows(m4, head, dec_spec(d.tx_bytes as nat));
    let m5 = m4 + dec_spec(d.tx_bytes as nat);
    lemma_prefix_grows(m5, head, "i,rx_packets="@);
    let m6 = m5 + "i,rx_packets="@;
    lemma_prefix_grows(m6, head, dec_spec(d.rx_packets as nat));
    let m7 = m6 + dec_spec(d.rx_packets as nat);
    lemma_prefix_grows(m7, head, "i,tx_packets="@);
    let m8 = m7 + "i,tx_packets="@;
    lemma_prefix_grows(m8, head, dec_spec(d.tx_packets as nat));
    let m9 = m8 + dec_spec(d.tx_packets as nat);
    lemma_prefix_grows(m9, head, "i,rx_errors="@);
    let m10 = m9 + "i,rx_errors="@;
    lemma_prefix_grows(m10, head, dec_spec(d.rx_errors as nat));
    let m11 = m10 + dec_spec(d.rx_errors as nat);
    lemma_prefix_grows(m11, head, "i,tx_errors="@);
    let m12 = m11 + "i,tx_errors="@;
    lemma_prefix_grows(m12, head, dec_spec(d.tx_errors as nat));
    let m13 = m12 + dec_spec(d.tx_errors as nat);
    lemma_prefix_grows(m13, head, "i,rx_drops="@);
    let m14 = m13 + "i,rx_drops="@;
    lemma_prefix_grows(m14, head, dec_spec(d.rx_drops as nat));
    let m15 = m14 + dec_spec(d.rx_drops as nat);
    lemma_prefix_grows(m15, head, "i,tx_drops="@);
    let m16 = m15 + "i,tx_drops="@;
    lemma_prefix_grows(m16, head, dec_spec(d.tx_drops as nat));
    let m17 = m16 + dec_spec(d.tx_drops as nat);
    lemma_prefix_grows(m17, head, "i "@);
    let m18 = m17 + "i "@;
    lemma_prefix_grows(m18, head, dec_int_spec(now_ns as int));
    let m19 = m18 + dec_int_spec(now_ns as int);
    assert(m19 == iface_line(name, d, now_ns));
}

/// Each field of an interface line is named after the counter it reports:
/// the line is about interface `name`, and `rx_X=` and `tx_X=` hold how far
/// the receive and the transmit counter X grew since the previous reading
/// (zero for a counter that went back), for bytes, packets, errors and drops.
pub proof fn law_line_fields_name_their_counters(name: Seq<char>, cur: IfaceCounters, prev: IfaceCounters, now_ns: i64)
    ensures
        has_prefix(iface_line(name, counters_delta(cur, prev), now_ns), "stellwerk_interfaces,iface="@ + name + " "@),
        has_segment(
            iface_line(name, counters_delta(cur, prev), now_ns),
            "rx_bytes="@ + dec_spec(sat_sub(cur.rx_bytes, prev.rx_bytes) as nat) + "i,tx_bytes="@ + dec_spec(
                sat_sub(cur.tx_bytes, prev.tx_bytes) as nat,
            ) + "i"@,
        ),
        has_segment(
            iface_line(name, counters_delta(cur, prev), now_ns),
            "rx_packets="@ + dec_spec(sat_sub(cur.rx_packets, prev.rx_packets) as nat) + "i,tx_packets="@ + dec_spec(
                sat_sub(cur.tx_packets, prev.tx_packets) as nat,
            ) + "i"@,
        ),
        has_segment(
            iface_line(name, counters_delta(cur, prev), now_ns),
            "rx_errors="@ + dec_spec(sat_sub(cur.rx_errors, prev.rx_errors) as nat) + "i,tx_errors="@ + dec_spec(
                sat_sub(cur.tx_errors, prev.tx_errors) as nat,
            ) + "i"@,
        ),
        has_segment(
            iface_line(name, counters_delta(cur, prev), now_ns),
            "rx_drops="@ + dec_spec(sat_sub(cur.rx_drops, prev.rx_drops) as nat) + "i,tx_drops="@ + dec_spec(
                sat_sub(cur.tx_drops, prev.tx_drops) as nat,
            ) + "i"@,
        ),
{
    let d = counters_delta(cur, prev);
    lemma_line_head(name, d, now_ns);
    lemma_line_segment_bytes(name, d, now_ns);
    lemma_line_segment_packets(name, d, now_ns);
    lemma_line_segment_errors(name, d, now_ns);
    lemma_line_segment_drops(name, d, now_ns);
}

} // verus!
