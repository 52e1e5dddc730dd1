//! Traffic accounting: turns successive readings of the per-client nftables
//! counters into stored deltas and InfluxDB lines.
//!
//! The daemon reads the counters every minute and hands them to
//! [`traffic_tick`]; the first reading of a client only sets its baseline.
//! A counter below its previous reading was reset by a ruleset reload, and
//! its current value is taken as the delta.

use vstd::prelude::*;
use crate::config::InfluxDbConfig;
use crate::model::Client;
use crate::model::{Gateway, NetworkConfig};
use crate::nftables::{
    accounting_in_lines, accounting_out_lines, rfc1918,
    counter_decls, counter_name, counter_views, dots_to_underscores, ip_to_counter_name, ruleset_lines, CounterValue,
    CounterValueV,
};
use crate::text::{append_i64, append_u64, dec_int_spec, dec_spec, trim_end_char, trim_end_char_spec};

verus! {

/// The four counter readings of one client.
#[derive(Debug, Clone, Copy, PartialEq, Eq)]
pub struct CounterState {
    pub bytes_in_intern: u64,
    pub bytes_in_extern: u64,
    pub bytes_out_intern: u64,
    pub bytes_out_extern: u64,
}

/// The last readings of a client.
#[derive(Debug, Clone)]
pub struct PrevReading {
    pub ip: String,
    pub state: CounterState,
}

/// The value of a last reading.
pub struct PrevReadingV {
    pub ip: Seq<char>,
    pub state: CounterState,
}

/// What the accounting loop carries from one reading to the next.
#[derive(Debug, Clone)]
pub struct TrafficState {
    pub prev: Vec<PrevReading>,
    pub cleanup_counter: u32,
}

/// The views of last readings.
pub open spec fn prev_views(s: Seq<PrevReading>) -> Seq<PrevReadingV> {
    Seq::new(s.len(), |i: int| PrevReadingV { ip: s[i].ip@, state: s[i].state })
}

impl TrafficState {
    /// No readings yet.
    pub fn new() -> (r: TrafficState)
        ensures
            r.prev@.len() == 0,
            r.cleanup_counter == 0,
    {
        TrafficState { prev: Vec::new(), cleanup_counter: 0 }
    }
}

/// A traffic delta of one client, ready to be stored.
#[derive(Debug, Clone)]
pub struct TrafficDelta {
    pub ip: String,
    pub gateway: String,
    pub bytes_in: i64,
    pub bytes_out: i64,
    pub bytes_in_intern: i64,
    pub bytes_out_intern: i64,
}

/// The value of a traffic delta.
pub struct TrafficDeltaV {
    pub ip: Seq<char>,
    pub gateway: Seq<char>,
    pub bytes_in: i64,
    pub bytes_out: i64,
    pub bytes_in_intern: i64,
    pub bytes_out_intern: i64,
}

/// The views of traffic deltas.
pub open spec fn delta_views(s: Seq<TrafficDelta>) -> Seq<TrafficDeltaV> {
    Seq::new(
        s.len(),
        |i: int|
            TrafficDeltaV {
                ip: s[i].ip@,
                gateway: s[i].gateway@,
                bytes_in: s[i].bytes_in,
                bytes_out: s[i].bytes_out,
                bytes_in_intern: s[i].bytes_in_intern,
                bytes_out_intern: s[i].bytes_out_intern,
            },
    )
}

/// What one accounting round produces.
#[derive(Debug, Clone)]
pub struct TrafficTick {
    /// Deltas to store, one per client with traffic.
    pub deltas: Vec<TrafficDelta>,
    /// InfluxDB lines for the same deltas (empty when InfluxDB is off).
    pub influx_lines: Vec<String>,
    /// Whether old traffic records are due for deletion.
    pub cleanup: bool,
}

/// The bytes of the first counter named `name`; zero when there is none.
pub open spec fn counter_bytes(cs: Seq<CounterValueV>, name: Seq<char>) -> u64
    decreases cs.len(),
{
    if cs.len() == 0 {
        0
    } else if cs[0].name == name {
        cs[0].bytes
    } else {
        counter_bytes(cs.drop_first(), name)
    }
}

/// The current readings of a client.
pub open spec fn current_state(cs: Seq<CounterValueV>, ip: Seq<char>) -> CounterState {
    let cn = counter_name(ip);
    CounterState {
        bytes_in_intern: counter_bytes(cs, cn + "_in_intern"@),
        bytes_in_extern: counter_bytes(cs, cn + "_in_extern"@),
        bytes_out_intern: counter_bytes(cs, cn + "_out_intern"@),
        bytes_out_extern: counter_bytes(cs, cn + "_out_extern"@),
    }
}

/// The traffic since the previous reading; a reading below the previous one
/// comes from a reset counter and counts in full.
pub open spec fn counter_delta(prev: u64, cur: u64) -> u64 {
    if cur >= prev {
        (cur - prev) as u64
    } else {
        cur
    }
}

/// The position of the last reading of `ip`.
pub open spec fn prev_index(p: Seq<PrevReadingV>, ip: Seq<char>) -> Option<int>
    decreases p.len(),
{
    if p.len() == 0 {
        None
    } else if p[0].ip == ip {
        Some(0)
    } else {
        match prev_index(p.drop_first(), ip) {
            Some(k) => Some(k + 1),
            None => None,
        }
    }
}

/// The InfluxDB line of one client's delta.
pub open spec fn traffic_line(
    ip: Seq<char>,
    gateway: Seq<char>,
    d_in: u64,
    d_out: u64,
    d_in_intern: u64,
    d_out_intern: u64,
    now_ns: i64,
) -> Seq<char> {
    "stellwerk_traffic,client="@ + dots_to_underscores(ip) + ",gateway="@ + gateway + " bytes_in="@ + dec_spec(
        d_in as nat,
    ) + "i,bytes_out="@ + dec_spec(d_out as nat) + "i,bytes_in_intern="@ + dec_spec(d_in_intern as nat)
        + "i,bytes_out_intern="@ + dec_spec(d_out_intern as nat) + "i "@ + dec_int_spec(now_ns as int)
}

/// The result of one accounting round so far: last readings, deltas, lines;
/// `None` when some client's summed delta does not fit 64 bits.
pub struct TickV {
    pub prev: Seq<PrevReadingV>,
    pub deltas: Seq<TrafficDeltaV>,
    pub lines: Seq<Seq<char>>,
}

/// The effect of one client on an accounting round.
pub open spec fn tick_step(t: TickV, cs: Seq<CounterValueV>, c: Client, now_ns: i64, influx: bool) -> Option<TickV> {
    let cur = current_state(cs, c.ip@);
    match prev_index(t.prev, c.ip@) {
        None => Some(TickV { prev: t.prev.push(PrevReadingV { ip: c.ip@, state: cur }), ..t }),
        Some(k) => {
            let p = t.prev[k].state;
            let dii = counter_delta(p.bytes_in_intern, cur.bytes_in_intern);
            let die = counter_delta(p.bytes_in_extern, cur.bytes_in_extern);
            let doi = counter_delta(p.bytes_out_intern, cur.bytes_out_intern);
            let doe = counter_delta(p.bytes_out_extern, cur.bytes_out_extern);
            if dii + die > u64::MAX || doi + doe > u64::MAX {
                None
            } else {
                let d_in = (dii + die) as u64;
                let d_out = (doi + doe) as u64;
                let prev2 = t.prev.update(k, PrevReadingV { ip: c.ip@, state: cur });
                if d_in == 0 && d_out == 0 {
                    Some(TickV { prev: prev2, ..t })
                } else {
                    let d = TrafficDeltaV {
                        ip: c.ip@,
                        gateway: c.gateway@,
                        bytes_in: d_in as i64,
                        bytes_out: d_out as i64,
                        bytes_in_intern: dii as i64,
                        bytes_out_intern: doi as i64,
                    };
                    Some(
                        TickV {
                            prev: prev2,
                            deltas: t.deltas.push(d),
                            lines: if influx {
                                t.lines.push(traffic_line(c.ip@, c.gateway@, d_in, d_out, dii, doi, now_ns))
                            } else {
                                t.lines
                            },
                        },
                    )
                }
            }
        },
    }
}

/// One accounting round over the clients, in order.
pub open spec fn tick_spec(
    prev: Seq<PrevReadingV>,
    cs: Seq<CounterValueV>,
    clients: Seq<Client>,
    now_ns: i64,
    influx: bool,
) -> Option<TickV>
    decreases clients.len(),
{
    if clients.len() == 0 {
        Some(TickV { prev, deltas: Seq::empty(), lines: Seq::empty() })
    } else {
        match tick_spec(prev, cs, clients.drop_last(), now_ns, influx) {
            None => None,
            Some(t) => tick_step(t, cs, clients.last(), now_ns, influx),
        }
    }
}

/// Rounds between two cleanups of old traffic records (about a week of minutes).
pub open spec fn cleanup_period() -> u32 {
    168
}

fn find_counter(counters: &[CounterValue], name: &String) -> (r: u64)
    ensures
        r == counter_bytes(counter_views(counters@), name@),
{
    let ghost cs = counter_views(counters@);
    let mut i: usize = 0;
    proof {
        assert(cs.subrange(0, cs.len() as int) =~= cs);
    }
    while i < counters.len()
        invariant
            i <= counters@.len(),
            cs == counter_views(counters@),
            counter_bytes(cs, name@) == counter_bytes(cs.subrange(i as int, cs.len() as int), name@),
        decreases counters.len() - i,
    {
        let ghost rest = cs.subrange(i as int, cs.len() as int);
        proof {
            assert(rest.drop_first() =~= cs.subrange(i + 1, cs.len() as int));
            assert(rest[0].name == counters@[i as int].name@);
        }
        if counters[i].name == *name {
            return counters[i].bytes;
        }
        i = i + 1;
    }
    0
}

fn suffixed(cn: &String, suffix: &str) -> (r: String)
    ensures
        r@ == cn@ + suffix@,
{
    let mut s = cn.clone();
    s.append(suffix);
    s
}

fn read_state(counters: &[CounterValue], ip: &String) -> (r: CounterState)
    ensures
        r == current_state(counter_views(counters@), ip@),
{
    let cn = ip_to_counter_name(ip.as_str());
    CounterState {
        bytes_in_intern: find_counter(counters, &suffixed(&cn, "_in_intern")),
        bytes_in_extern: find_counter(counters, &suffixed(&cn, "_in_extern")),
        bytes_out_intern: find_counter(counters, &suffixed(&cn, "_out_intern")),
        bytes_out_extern: find_counter(counters, &suffixed(&cn, "_out_extern")),
    }
}

fn delta(prev: u64, cur: u64) -> (r: u64)
    ensures
        r == counter_delta(prev, cur),
{
    if cur >= prev {
        cur - prev
    } else {
        cur
    }
}

fn find_prev(prev: &Vec<PrevReading>, ip: &String) -> (r: Option<usize>)
    ensures
        r matches Some(i) ==> prev_index(prev_views(prev@), ip@) == Some(i as int),
        r is None ==> prev_index(prev_views(prev@), ip@) is None,
{
    let ghost s = prev_views(prev@);
    let mut i: usize = 0;
    proof {
        assert(s.subrange(0, s.len() as int) =~= s);
    }
    while i < prev.len()
        invariant
            i <= prev@.len(),
            s == prev_views(prev@),
            prev_index(s, ip@) == (match prev_index(s.subrange(i as int, s.len() as int), ip@) {
                Some(k) => Some(k + i),
                None => None,
            }),
        decreases prev.len() - i,
    {
        let ghost rest = s.subrange(i as int, s.len() as int);
        proof {
            assert(rest.drop_first() =~= s.subrange(i + 1, s.len() as int));
            assert(rest[0].ip == prev@[i as int].ip@);
        }
        if prev[i].ip == *ip {
            return Some(i);
        }
        i = i + 1;
    }
    None
}

/// A found reading index points at the reading of that client.
pub proof fn lemma_prev_index(p: Seq<PrevReadingV>, ip: Seq<char>)
    ensures
        prev_index(p, ip) matches Some(k) ==> 0 <= k < p.len() && p[k].ip == ip,
    decreases p.len(),
{
    if p.len() > 0 && p[0].ip != ip {
        lemma_prev_index(p.drop_first(), ip);
    }
}

/// The InfluxDB line of one client's delta.
pub fn traffic_influx_line(
    ip: &String,
    gateway: &String,
    d_in: u64,
    d_out: u64,
    d_in_intern: u64,
    d_out_intern: u64,
    now_ns: i64,
) -> (r: String)
    ensures
        r@ == traffic_line(ip@, gateway@, d_in, d_out, d_in_intern, d_out_intern, now_ns),
{
    let cn = ip_to_counter_name(ip.as_str());
    let cs = crate::text::chars_of(cn.as_str());
    let mut tag: Vec<char> = Vec::new();
    let mut k: usize = 2;
    proof {
        reveal_strlit("c_");
        assert(cs@ =~= "c_"@ + dots_to_underscores(ip@));
    }
    while k < cs.len()
        invariant
            2 <= k <= cs@.len(),
            cs@ == "c_"@ + dots_to_underscores(ip@),
            tag@ == cs@.subrange(2, k as int),
        decreases cs.len() - k,
    {
        tag.push(cs[k]);
        k = k + 1;
        proof {
            assert(tag@ =~= cs@.subrange(2, k as int));
        }
    }
    proof {
        assert(tag@ =~= dots_to_underscores(ip@));
    }
    let mut s = String::from_str("stellwerk_traffic,client=");
    crate::text::append_chars(&mut s, &tag);
    s.append(",gateway=");
    s.append(gateway.as_str());
    s.append(" bytes_in=");
    append_u64(&mut s, d_in);
    s.append("i,bytes_out=");
    append_u64(&mut s, d_out);
    s.append("i,bytes_in_intern=");
    append_u64(&mut s, d_in_intern);
    s.append("i,bytes_out_intern=");
    append_u64(&mut s, d_out_intern);
    s.append("i ");
    append_i64(&mut s, now_ns);
    s
}

/// One accounting round. For every client in order: the first reading sets
/// a baseline; later readings yield the deltas of the four counters, and a
/// client with traffic gets a stored delta (and an InfluxDB line when
/// `influx`). Every `cleanup_period()` rounds, old records are due for cleanup.
pub fn traffic_tick(
    state: &mut TrafficState,
    counters: &[CounterValue],
    clients: &[Client],
    now_ns: i64,
    influx: bool,
) -> (r: TrafficTick)
    requires
        tick_spec(prev_views(old(state).prev@), counter_views(counters@), clients@, now_ns, influx) is Some,
    ensures
        ({
            let t = tick_spec(prev_views(old(state).prev@), counter_views(counters@), clients@, now_ns, influx)->0;
            &&& prev_views(final(state).prev@) == t.prev
            &&& delta_views(r.deltas@) == t.deltas
            &&& crate::lookup::sviews(r.influx_lines@) == t.lines
        }),
        old(state).cleanup_counter + 1 >= cleanup_period() ==> r.cleanup && final(state).cleanup_counter == 0,
        old(state).cleanup_counter + 1 < cleanup_period() ==> !r.cleanup && final(state).cleanup_counter
            == old(state).cleanup_counter + 1,
{
    let ghost cs = counter_views(counters@);
    let ghost p0 = prev_views(state.prev@);
    let mut deltas: Vec<TrafficDelta> = Vec::new();
    let mut lines: Vec<String> = Vec::new();
    let mut i: usize = 0;
    proof {
        assert(clients@.subrange(0, 0) =~= Seq::<Client>::empty());
        assert(delta_views(deltas@) =~= Seq::<TrafficDeltaV>::empty());
        assert(crate::lookup::sviews(lines@) =~= Seq::<Seq<char>>::empty());
    }
    while i < clients.len()
        invariant
            i <= clients@.len(),
            cs == counter_views(counters@),
            tick_spec(p0, cs, clients@, now_ns, influx) is Some,
            tick_spec(p0, cs, clients@.subrange(0, i as int), now_ns, influx) == Some(
                TickV {
                    prev: prev_views(state.prev@),
                    deltas: delta_views(deltas@),
                    lines: crate::lookup::sviews(lines@),
                },
            ),
            state.cleanup_counter == old(state).cleanup_counter,
        decreases clients.len() - i,
    {
        let ghost pre = clients@.subrange(0, i as int);
        let ghost post = clients@.subrange(0, i + 1);
        proof {
            assert(post.drop_last() =~= pre);
            assert(post.last() == clients@[i as int]);
            lemma_tick_prefix_some(p0, cs, clients@, i + 1, now_ns, influx);
        }
        let c = &clients[i];
        let ghost t0 = TickV {
            prev: prev_views(state.prev@),
            deltas: delta_views(deltas@),
            lines: crate::lookup::sviews(lines@),
        };
        let cur = read_state(counters, &c.ip);
        let found = find_prev(&state.prev, &c.ip);
        proof {
            lemma_prev_index(prev_views(state.prev@), c.ip@);
        }
        match found {
            None => {
                let ghost before = prev_views(state.prev@);
                state.prev.push(PrevReading { ip: c.ip.clone(), state: cur });
                proof {
                    assert(prev_views(state.prev@) =~= before.push(PrevReadingV { ip: c.ip@, state: cur }));
                }
            },
            Some(k) => {
                let p = state.prev[k].state;
                let dii = delta(p.bytes_in_intern, cur.bytes_in_intern);
                let die = delta(p.bytes_in_extern, cur.bytes_in_extern);
                let doi = delta(p.bytes_out_intern, cur.bytes_out_intern);
                let doe = delta(p.bytes_out_extern, cur.bytes_out_extern);
                proof {
                    assert(tick_spec(p0, cs, post, now_ns, influx) == tick_step(t0, cs, *c, now_ns, influx));
                    assert(tick_step(t0, cs, *c, now_ns, influx) is Some);
                    assert(prev_index(t0.prev, c.ip@) == Some(k as int));
                    assert(t0.prev[k as int].state == p);
                    if dii + die > u64::MAX || doi + doe > u64::MAX {
                        assert(tick_step(t0, cs, *c, now_ns, influx) is None);
                    }
                }
                let d_in = dii + die;
                let d_out = doi + doe;
                let ghost before = prev_views(state.prev@);
                state.prev.set(k, PrevReading { ip: c.ip.clone(), state: cur });
                proof {
                    assert(prev_views(state.prev@) =~= before.update(k as int, PrevReadingV { ip: c.ip@, state: cur }));
                }
                if !(d_in == 0 && d_out == 0) {
                    let dv = TrafficDelta {
                        ip: c.ip.clone(),
                        gateway: c.gateway.clone(),
                        bytes_in: d_in as i64,
                        bytes_out: d_out as i64,
                        bytes_in_intern: dii as i64,
                        bytes_out_intern: doi as i64,
                    };
                    let ghost dbefore = delta_views(deltas@);
                    deltas.push(dv);
                    proof {
                        assert(delta_views(deltas@) =~= dbefore.push(
                            TrafficDeltaV {
                                ip: c.ip@,
                                gateway: c.gateway@,
                                bytes_in: d_in as i64,
                                bytes_out: d_out as i64,
                                bytes_in_intern: dii as i64,
                                bytes_out_intern: doi as i64,
                            },
                        ));
                    }
                    if influx {
                        let l = traffic_influx_line(&c.ip, &c.gateway, d_in, d_out, dii, doi, now_ns);
                        let ghost lbefore = crate::lookup::sviews(lines@);
                        lines.push(l);
                        proof {
                            assert(crate::lookup::sviews(lines@) =~= lbefore.push(l@));
                        }
                    }
                }
            },
        }
        proof {
            assert(tick_spec(p0, cs, post, now_ns, influx) == tick_step(t0, cs, *c, now_ns, influx));
            assert(tick_step(t0, cs, *c, now_ns, influx) == Some(
                TickV {
                    prev: prev_views(state.prev@),
                    deltas: delta_views(deltas@),
                    lines: crate::lookup::sviews(lines@),
                },
            ));
        }
        i = i + 1;
    }
    proof {
        assert(clients@.subrange(0, clients@.len() as int) =~= clients@);
    }
    let cleanup = if state.cleanup_counter >= 167 {
        state.cleanup_counter = 0;
        true
    } else {
        state.cleanup_counter = state.cleanup_counter + 1;
        false
    };
    TrafficTick { deltas, influx_lines: lines, cleanup }
}

/// A round that succeeds on all clients succeeds on every prefix of them.
pub proof fn lemma_tick_prefix_some(
    p0: Seq<PrevReadingV>,
    cs: Seq<CounterValueV>,
    clients: Seq<Client>,
    i: int,
    now_ns: i64,
    influx: bool,
)
    requires
        0 <= i <= clients.len(),
        tick_spec(p0, cs, clients, now_ns, influx) is Some,
    ensures
        tick_spec(p0, cs, clients.subrange(0, i), now_ns, influx) is Some,
    decreases clients.len() - i,
{
    if i < clients.len() {
        lemma_tick_prefix_some(p0, cs, clients, i + 1, now_ns, influx);
        assert(clients.subrange(0, i + 1).drop_last() =~= clients.subrange(0, i));
    } else {
        assert(clients.subrange(0, i) =~= clients);
    }
}

/// Whether the round over these clients keeps every summed delta within 64 bits.
pub fn traffic_tick_fits(state: &TrafficState, counters: &[CounterValue], clients: &[Client]) -> (r: bool)
    ensures
        r == (tick_spec(prev_views(state.prev@), counter_views(counters@), clients@, 0, false) is Some),
{
    let mut probe = TrafficState { prev: Vec::new(), cleanup_counter: 0 };
    let mut j: usize = 0;
    while j < state.prev.len()
        invariant
            j <= state.prev@.len(),
            prev_views(probe.prev@) == prev_views(state.prev@).subrange(0, j as int),
        decreases state.prev.len() - j,
    {
        let ghost before = prev_views(probe.prev@);
        let pr = PrevReading { ip: state.prev[j].ip.clone(), state: state.prev[j].state };
        probe.prev.push(pr);
        proof {
            assert(prev_views(probe.prev@) =~= before.push(PrevReadingV { ip: pr.ip@, state: pr.state }));
        }
        j = j + 1;
        proof {
            assert(prev_views(probe.prev@) =~= prev_views(state.prev@).subrange(0, j as int));
        }
    }
    proof {
        assert(prev_views(probe.prev@) =~= prev_views(state.prev@));
    }
    let ghost cs = counter_views(counters@);
    let ghost p0 = prev_views(state.prev@);
    let mut i: usize = 0;
    proof {
        assert(clients@.subrange(0, 0) =~= Seq::<Client>::empty());
    }
    while i < clients.len()
        invariant
            i <= clients@.len(),
            cs == counter_views(counters@),
            p0 == prev_views(state.prev@),
            tick_spec(p0, cs, clients@.subrange(0, i as int), 0, false) matches Some(t) && t.prev == prev_views(
                probe.prev@,
            ),
        decreases clients.len() - i,
    {
        let ghost pre = clients@.subrange(0, i as int);
        let ghost post = clients@.subrange(0, i + 1);
        proof {
            assert(post.drop_last() =~= pre);
            assert(post.last() == clients@[i as int]);
        }
        let c = &clients[i];
        let ghost t0 = tick_spec(p0, cs, pre, 0, false)->0;
        proof {
            assert(tick_spec(p0, cs, post, 0, false) == tick_step(t0, cs, *c, 0, false));
        }
        let cur = read_state(counters, &c.ip);
        let found = find_prev(&probe.prev, &c.ip);
        proof {
            lemma_prev_index(prev_views(probe.prev@), c.ip@);
        }
        match found {
            None => {
                let ghost before = prev_views(probe.prev@);
                probe.prev.push(PrevReading { ip: c.ip.clone(), state: cur });
                proof {
                    assert(prev_views(probe.prev@) =~= before.push(PrevReadingV { ip: c.ip@, state: cur }));
                }
            },
            Some(k) => {
                let p = probe.prev[k].state;
                let dii = delta(p.bytes_in_intern, cur.bytes_in_intern);
                let die = delta(p.bytes_in_extern, cur.bytes_in_extern);
                let doi = delta(p.bytes_out_intern, cur.bytes_out_intern);
                let doe = delta(p.bytes_out_extern, cur.bytes_out_extern);
                proof {
                    assert(prev_index(t0.prev, c.ip@) == Some(k as int));
                    assert(t0.prev[k as int].state == p);
                }
                if dii > u64::MAX - die || doi > u64::MAX - doe {
                    proof {
                        assert(tick_step(t0, cs, *c, 0, false) is None);
                        assert(tick_spec(p0, cs, post, 0, false) is None);
                        lemma_tick_none_extends(p0, cs, clients@, i + 1, 0, false);
                        assert(tick_spec(p0, cs, clients@, 0, false) is None);
                        assert(p0 == prev_views(state.prev@));
                        assert(cs == counter_views(counters@));
                    }
                    return false;
                }
                let ghost before = prev_views(probe.prev@);
                probe.prev.set(k, PrevReading { ip: c.ip.clone(), state: cur });
                proof {
                    assert(prev_views(probe.prev@) =~= before.update(k as int, PrevReadingV { ip: c.ip@, state: cur }));
                }
            },
        }
        proof {
            assert(tick_spec(p0, cs, post, 0, false) matches Some(t) && t.prev == prev_views(probe.prev@));
        }
        i = i + 1;
    }
    proof {
        assert(clients@.subrange(0, clients@.len() as int) =~= clients@);
    }
    true
}

/// A round that fails on a prefix of the clients fails on all of them.
pub proof fn lemma_tick_none_extends(
    p0: Seq<PrevReadingV>,
    cs: Seq<CounterValueV>,
    clients: Seq<Client>,
    i: int,
    now_ns: i64,
    influx: bool,
)
    requires
        0 <= i <= clients.len(),
        tick_spec(p0, cs, clients.subrange(0, i), now_ns, influx) is None,
    ensures
        tick_spec(p0, cs, clients, now_ns, influx) is None,
    decreases clients.len() - i,
{
    if i < clients.len() {
        assert(clients.subrange(0, i + 1).drop_last() =~= clients.subrange(0, i));
        lemma_tick_none_extends(p0, cs, clients, i + 1, now_ns, influx);
    } else {
        assert(clients.subrange(0, i) =~= clients);
    }
}

/// The InfluxDB write endpoint: the base URL without trailing slashes,
/// the organisation and bucket, nanosecond precision.
pub open spec fn influx_url(url: Seq<char>, org: Seq<char>, bucket: Seq<char>) -> Seq<char> {
    trim_end_char_spec(url, '/') + "/api/v2/write?org="@ + org + "&bucket="@ + bucket + "&precision=ns"@
}

/// The InfluxDB write endpoint of a configuration.
pub fn influx_write_url(cfg: &InfluxDbConfig) -> (r: String)
    ensures
        r@ == influx_url(cfg.url@, cfg.org@, cfg.bucket@),
{
    let mut s = trim_end_char(cfg.url.as_str(), '/');
    s.append("/api/v2/write?org=");
    s.append(cfg.org.as_str());
    s.append("&bucket=");
    s.append(cfg.bucket.as_str());
    s.append("&precision=ns");
    s
}

} // verus!

verus! {

/// The addresses of the clients are pairwise different.
pub open spec fn distinct_ips(clients: Seq<Client>) -> bool {
    forall|i: int, j: int| 0 <= i < j < clients.len() ==> #[trigger] clients[i].ip@ != #[trigger] clients[j].ip@
}

/// No reading is kept for `ip`.
pub proof fn lemma_prev_index_none(p: Seq<PrevReadingV>, ip: Seq<char>)
    requires
        forall|k: int| 0 <= k < p.len() ==> #[trigger] p[k].ip != ip,
    ensures
        prev_index(p, ip) is None,
    decreases p.len(),
{
    if p.len() > 0 {
        assert forall|k: int| 0 <= k < p.drop_first().len() implies #[trigger] p.drop_first()[k].ip != ip by {
            assert(p.drop_first()[k] == p[k + 1]);
        }
        lemma_prev_index_none(p.drop_first(), ip);
    }
}

proof fn lemma_first_round(cs: Seq<CounterValueV>, clients: Seq<Client>, now_ns: i64, influx: bool)
    requires
        distinct_ips(clients),
    ensures
        tick_spec(Seq::empty(), cs, clients, now_ns, influx) matches Some(t) && t.deltas.len() == 0 && t.lines.len()
            == 0 && t.prev.len() == clients.len() && forall|k: int| 0 <= k < clients.len() ==> #[trigger] t.prev[k].ip
            == clients[k].ip@,
    decreases clients.len(),
{
    if clients.len() > 0 {
        let d = clients.drop_last();
        assert forall|i: int, j: int| 0 <= i < j < d.len() implies #[trigger] d[i].ip@ != #[trigger] d[j].ip@ by {
            assert(d[i] == clients[i] && d[j] == clients[j]);
        }
        lemma_first_round(cs, d, now_ns, influx);
        let t = tick_spec(Seq::empty(), cs, d, now_ns, influx)->0;
        let c = clients.last();
        assert forall|k: int| 0 <= k < t.prev.len() implies #[trigger] t.prev[k].ip != c.ip@ by {
            assert(t.prev[k].ip == d[k].ip@);
            assert(d[k] == clients[k]);
        }
        lemma_prev_index_none(t.prev, c.ip@);
    }
}

/// The first reading of the clients only sets their baselines: nothing is
/// stored and nothing is sent, whatever the counters say.
pub proof fn law_first_reading_stores_nothing(cs: Seq<CounterValueV>, clients: Seq<Client>, now_ns: i64, influx: bool)
    requires
        distinct_ips(clients),
    ensures
        tick_spec(Seq::empty(), cs, clients, now_ns, influx) matches Some(t) && t.deltas.len() == 0 && t.lines.len() == 0,
{
    lemma_first_round(cs, clients, now_ns, influx);
}

/// A counter that went backwards was reset: its whole current value is
/// counted, and a counter that did not move yields no traffic.
pub proof fn law_reset_counter_counts_in_full(prev: u64, cur: u64)
    ensures
        cur < prev ==> counter_delta(prev, cur) == cur,
        cur >= prev ==> counter_delta(prev, cur) == cur - prev,
        counter_delta(cur, cur) == 0,
{
}

/// The declaration of a named counter in the ruleset.
pub open spec fn counter_decl(name: Seq<char>) -> Seq<char> {
    "  counter "@ + name + " {}"@
}

/// The declarations of an active client's counters are among the ruleset's
/// counter declarations.
proof fn lemma_counter_decls_cover(cs: Seq<Client>, i: int)
    requires
        0 <= i < cs.len(),
        cs[i].active != 0,
    ensures
        ({
            let cn = counter_name(cs[i].ip@);
            &&& counter_decls(cs).contains(counter_decl(cn + "_in_intern"@))
            &&& counter_decls(cs).contains(counter_decl(cn + "_in_extern"@))
            &&& counter_decls(cs).contains(counter_decl(cn + "_out_intern"@))
            &&& counter_decls(cs).contains(counter_decl(cn + "_out_extern"@))
        }),
    decreases cs.len(),
{
    let cn = counter_name(cs[i].ip@);
    let rest = counter_decls(cs.drop_last());
    if i == cs.len() - 1 {
        reveal_strlit("  counter ");
        reveal_strlit(" {}");
        reveal_strlit("_in_intern");
        reveal_strlit("_in_extern");
        reveal_strlit("_out_intern");
        reveal_strlit("_out_extern");
        reveal_strlit("_in_intern {}");
        reveal_strlit("_in_extern {}");
        reveal_strlit("_out_intern {}");
        reveal_strlit("_out_extern {}");
        let d = counter_decls(cs);
        let n = rest.len() as int;
        assert(d[n] =~= counter_decl(cn + "_in_intern"@));
        assert(d[n + 1] =~= counter_decl(cn + "_in_extern"@));
        assert(d[n + 2] =~= counter_decl(cn + "_out_intern"@));
        assert(d[n + 3] =~= counter_decl(cn + "_out_extern"@));
    } else {
        assert(cs.drop_last()[i] == cs[i]);
        lemma_counter_decls_cover(cs.drop_last(), i);
        let d = counter_decls(cs);
        assert(rest.len() <= d.len());
        assert forall|k: int| 0 <= k < rest.len() implies #[trigger] d[k] == rest[k] by {
        }
        let x0 = counter_decl(cn + "_in_intern"@);
        let x1 = counter_decl(cn + "_in_extern"@);
        let x2 = counter_decl(cn + "_out_intern"@);
        let x3 = counter_decl(cn + "_out_extern"@);
        let k0 = choose|k: int| 0 <= k < rest.len() && rest[k] == x0;
        let k1 = choose|k: int| 0 <= k < rest.len() && rest[k] == x1;
        let k2 = choose|k: int| 0 <= k < rest.len() && rest[k] == x2;
        let k3 = choose|k: int| 0 <= k < rest.len() && rest[k] == x3;
        assert(d[k0] == x0);
        assert(d[k1] == x1);
        assert(d[k2] == x2);
        assert(d[k3] == x3);
    }
}

/// Accounting reads what the ruleset declares: for every active client, the
/// four counters whose readings `current_state` takes are declared in the
/// ruleset that `build_ruleset` writes.
pub proof fn law_accounted_counters_are_declared(
    cs: Seq<Client>,
    gs: Seq<Gateway>,
    ns: Seq<NetworkConfig>,
    dns_gw: Option<Seq<char>>,
    user: Seq<char>,
    i: int,
)
    requires
        0 <= i < cs.len(),
        cs[i].active != 0,
    ensures
        ({
            let cn = counter_name(cs[i].ip@);
            let lines = ruleset_lines(cs, gs, ns, dns_gw, user);
            &&& lines.contains(counter_decl(cn + "_in_intern"@))
            &&& lines.contains(counter_decl(cn + "_in_extern"@))
            &&& lines.contains(counter_decl(cn + "_out_intern"@))
            &&& lines.contains(counter_decl(cn + "_out_extern"@))
        }),
{
    lemma_counter_decls_cover(cs, i);
    let cn = counter_name(cs[i].ip@);
    let d = counter_decls(cs);
    let lines = ruleset_lines(cs, gs, ns, dns_gw, user);
    let head = seq!["table inet stellwerk {"@] + d;
    assert forall|k: int| 0 <= k < d.len() implies #[trigger] lines[k + 1] == d[k] by {
        assert(head[k + 1] == d[k]);
    }
    let x0 = counter_decl(cn + "_in_intern"@);
    let x1 = counter_decl(cn + "_in_extern"@);
    let x2 = counter_decl(cn + "_out_intern"@);
    let x3 = counter_decl(cn + "_out_extern"@);
    let k0 = choose|k: int| 0 <= k < d.len() && d[k] == x0;
    let k1 = choose|k: int| 0 <= k < d.len() && d[k] == x1;
    let k2 = choose|k: int| 0 <= k < d.len() && d[k] == x2;
    let k3 = choose|k: int| 0 <= k < d.len() && d[k] == x3;
    assert(lines[k0 + 1] == x0);
    assert(lines[k1 + 1] == x1);
    assert(lines[k2 + 1] == x2);
    assert(lines[k3 + 1] == x3);
}

/// `l` is a rule line that counts into the counter named `x`: it ends in
/// ` counter name <x>;`.
pub open spec fn names_counter(l: Seq<char>, a: Seq<char>, x: Seq<char>) -> bool {
    l == a + " counter name "@ + x + ";"@
}

/// `l` names, in ` counter name <x>;`, a counter `x` that one of the
/// declarations `decls` declares.
pub open spec fn uses_declared(l: Seq<char>, decls: Seq<Seq<char>>) -> bool {
    exists|a: Seq<char>, x: Seq<char>| #[trigger] names_counter(l, a, x) && decls.contains(counter_decl(x))
}

proof fn lemma_decls_grow(cs: Seq<Client>)
    requires
        cs.len() > 0,
    ensures
        forall|l: Seq<char>| uses_declared(l, counter_decls(cs.drop_last())) ==> #[trigger] uses_declared(l, counter_decls(cs)),
{
    let dd = counter_decls(cs.drop_last());
    let cd = counter_decls(cs);
    assert forall|l: Seq<char>| uses_declared(l, dd) implies #[trigger] uses_declared(l, cd) by {
        let (a, x) = choose|a: Seq<char>, x: Seq<char>| #[trigger] names_counter(l, a, x) && dd.contains(counter_decl(x));
        let j = choose|j: int| 0 <= j < dd.len() && dd[j] == counter_decl(x);
        assert(cd[j] == dd[j]);
        assert(names_counter(l, a, x));
    }
}

/// Every accounting rule line names a counter of an active client.
proof fn lemma_accounting_lines_name_declared(cs: Seq<Client>)
    ensures
        forall|k: int| 0 <= k < accounting_out_lines(cs).len() ==> uses_declared(
            #[trigger] accounting_out_lines(cs)[k],
            counter_decls(cs),
        ),
        forall|k: int| 0 <= k < accounting_in_lines(cs).len() ==> uses_declared(
            #[trigger] accounting_in_lines(cs)[k],
            counter_decls(cs),
        ),
    decreases cs.len(),
{
    if cs.len() == 0 {
        assert(accounting_out_lines(cs).len() == 0);
        assert(accounting_in_lines(cs).len() == 0);
    } else {
        let d = cs.drop_last();
        lemma_accounting_lines_name_declared(d);
        lemma_decls_grow(cs);
        let cd = counter_decls(cs);
        let c = cs.last();
        let ro = accounting_out_lines(d);
        let ri = accounting_in_lines(d);
        let o = accounting_out_lines(cs);
        let n = accounting_in_lines(cs);
        if c.active != 0 {
            lemma_counter_decls_cover(cs, cs.len() - 1);
            reveal_strlit(" counter name ");
            reveal_strlit(";");
            reveal_strlit("_out_intern;");
            reveal_strlit("_out_extern;");
            reveal_strlit("_in_intern;");
            reveal_strlit("_in_extern;");
            reveal_strlit("_out_intern");
            reveal_strlit("_out_extern");
            reveal_strlit("_in_intern");
            reveal_strlit("_in_extern");
            let cn = counter_name(c.ip@);
            let a0 = "    ip saddr "@ + c.ip@ + " ip daddr "@ + rfc1918();
            let a1 = "    ip saddr "@ + c.ip@ + " ip daddr != "@ + rfc1918();
            let a2 = "    ip daddr "@ + c.ip@ + " ip saddr "@ + rfc1918();
            let a3 = "    ip daddr "@ + c.ip@ + " ip saddr != "@ + rfc1918();
            let x0 = cn + "_out_intern"@;
            let x1 = cn + "_out_extern"@;
            let x2 = cn + "_in_intern"@;
            let x3 = cn + "_in_extern"@;
            assert(o[ro.len() as int] =~= a0 + " counter name "@ + x0 + ";"@);
            assert(o[ro.len() as int + 1] =~= a1 + " counter name "@ + x1 + ";"@);
            assert(n[ri.len() as int] =~= a2 + " counter name "@ + x2 + ";"@);
            assert(n[ri.len() as int + 1] =~= a3 + " counter name "@ + x3 + ";"@);
            assert(names_counter(o[ro.len() as int], a0, x0));
            assert(names_counter(o[ro.len() as int + 1], a1, x1));
            assert(names_counter(n[ri.len() as int], a2, x2));
            assert(names_counter(n[ri.len() as int + 1], a3, x3));
            assert forall|k: int| 0 <= k < o.len() implies uses_declared(#[trigger] o[k], cd) by {
                if k < ro.len() {
                    assert(o[k] == ro[k]);
                    assert(uses_declared(ro[k], counter_decls(d)));
                }
            }
            assert forall|k: int| 0 <= k < n.len() implies uses_declared(#[trigger] n[k], cd) by {
                if k < ri.len() {
                    assert(n[k] == ri[k]);
                    assert(uses_declared(ri[k], counter_decls(d)));
                }
            }
        } else {
            assert forall|k: int| 0 <= k < o.len() implies uses_declared(#[trigger] o[k], cd) by {
                assert(uses_declared(ro[k], counter_decls(d)));
            }
            assert forall|k: int| 0 <= k < n.len() implies uses_declared(#[trigger] n[k], cd) by {
                assert(uses_declared(ri[k], counter_decls(d)));
            }
        }
    }
}

/// The ruleset declares its counters before it uses them. Of the lines that
/// `ruleset_text` (the text `build_ruleset` returns) joins with newlines, the
/// ones after the table header are the counter declarations, then the first
/// chain opens; every rule of the two accounting chains names, in
/// ` counter name <x>;`, a counter `x` that one of those declarations
/// declares.
pub proof fn law_counter_rules_use_declared_counters(
    cs: Seq<Client>,
    gs: Seq<Gateway>,
    ns: Seq<NetworkConfig>,
    dns_gw: Option<Seq<char>>,
    user: Seq<char>,
)
    ensures
        ({
            let lines = ruleset_lines(cs, gs, ns, dns_gw, user);
            let d = counter_decls(cs);
            &&& lines.subrange(1, d.len() as int + 1) == d
            &&& lines[d.len() as int + 1] == "  chain postrouting {"@
        }),
        forall|k: int| 0 <= k < accounting_out_lines(cs).len() ==> uses_declared(
            #[trigger] accounting_out_lines(cs)[k],
            counter_decls(cs),
        ),
        forall|k: int| 0 <= k < accounting_in_lines(cs).len() ==> uses_declared(
            #[trigger] accounting_in_lines(cs)[k],
            counter_decls(cs),
        ),
{
    lemma_accounting_lines_name_declared(cs);
    let d = counter_decls(cs);
    let head = seq!["table inet stellwerk {"@] + d + seq!["  chain postrouting {"@];
    assert(head[d.len() as int + 1] == "  chain postrouting {"@);
    assert(ruleset_lines(cs, gs, ns, dns_gw, user)[d.len() as int + 1] == head[d.len() as int + 1]);
    assert forall|k: int| 0 <= k < d.len() implies #[trigger] ruleset_lines(cs, gs, ns, dns_gw, user).subrange(1, d.len() as int + 1)[k] == d[k] by {
        assert(head[k + 1] == d[k]);
        assert(ruleset_lines(cs, gs, ns, dns_gw, user)[k + 1] == head[k + 1]);
    }
    assert(ruleset_lines(cs, gs, ns, dns_gw, user).subrange(1, d.len() as int + 1) =~= d);
}

} // verus!
