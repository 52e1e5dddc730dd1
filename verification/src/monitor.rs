//! Link monitoring: what the daemon does when ppp0 or the GRE tunnel goes
//! down or comes back, and the per-client automatic fallback to ppp0.
//!
//! The pings and the `ip` invocations happen outside; the functions here
//! take their results and decide the events, commands and store changes.

use vstd::prelude::*;
use crate::config::MonitoringConfig;
use crate::lookup::sviews;
use crate::lookup::{find_gateway, lookup_gateway};
use crate::model::{opt_view, Client, ClientV, Gateway, GatewayV, GroupV};
use crate::order::{has_key, key_index};
use crate::routing::{cviews, push_arg, push_arg_string, push_cmd};
use crate::store::{
    activate_fallback_for_clients, after_fallback, after_restore, client_views, count_where,
    event_views, falls_back, gateway_views, group_target, group_views, insert_monitor_event,
    is_restored, with_group_gateway, Database,
};
use crate::model::MonitorEventV;
use crate::text::{
    chars_eq, chars_of, has_prefix, has_substring, lines_of, lines_spec, starts_with, contains_chars,
    string_from_chars, tokens_of, tokens_spec, views,
};

verus! {

// ---------------------------------------------------------------------------
// Link state and its transitions
// ---------------------------------------------------------------------------

/// The state that the web interface shows.
#[derive(Debug, Clone)]
pub struct InterfaceStatus {
    pub ppp0_up: bool,
    pub gre_up: bool,
    /// Per interface: whether it answered the last check.
    pub gateway_health: Vec<(String, bool)>,
    /// Unix time of the last check.
    pub last_check: i64,
}

/// The status before the first check: both links assumed up.
pub fn new_status() -> (r: InterfaceStatus)
    ensures
        r.ppp0_up,
        r.gre_up,
        r.gateway_health@.len() == 0,
        r.last_check == 0,
{
    InterfaceStatus { ppp0_up: true, gre_up: true, gateway_health: Vec::new(), last_check: 0 }
}

/// Records the result of a check.
pub fn record_check(status: &mut InterfaceStatus, ppp0_up: bool, gre_up: bool, now: i64)
    ensures
        final(status).ppp0_up == ppp0_up,
        final(status).gre_up == gre_up,
        final(status).last_check == now,
        final(status).gateway_health == old(status).gateway_health,
{
    status.ppp0_up = ppp0_up;
    status.gre_up = gre_up;
    status.last_check = now;
}

/// What the links were at the previous check.
#[derive(Debug, Clone, Copy)]
pub struct LinkState {
    pub ppp0_was_up: bool,
    pub gre_was_up: bool,
}

/// The state before the first check: both links up.
pub fn initial_links() -> (r: LinkState)
    ensures
        r.ppp0_was_up,
        r.gre_was_up,
{
    LinkState { ppp0_was_up: true, gre_was_up: true }
}

/// A step of a check, in the order in which it is taken.
#[derive(Debug, Clone)]
pub enum MonitorAction {
    /// Append an event to the monitor log.
    RecordEvent { event: String, detail: Option<String> },
    /// Ask HomeAssistant to switch the Starlink dish on.
    EnableStarlink,
    /// Point the default route of every GRE table at ppp0.
    ActivateGreFailover,
    /// Point the default route of every GRE table back at the tunnel.
    RestoreGreFailover,
}

/// The view of a step.
pub enum ActionView {
    RecordEvent(Seq<char>, Option<Seq<char>>),
    EnableStarlink,
    ActivateGreFailover,
    RestoreGreFailover,
}

/// The view of a step.
pub open spec fn action_view(a: MonitorAction) -> ActionView {
    match a {
        MonitorAction::RecordEvent { event, detail } => ActionView::RecordEvent(event@, opt_view(detail)),
        MonitorAction::EnableStarlink => ActionView::EnableStarlink,
        MonitorAction::ActivateGreFailover => ActionView::ActivateGreFailover,
        MonitorAction::RestoreGreFailover => ActionView::RestoreGreFailover,
    }
}

/// The views of steps.
pub open spec fn action_views(v: Seq<MonitorAction>) -> Seq<ActionView> {
    Seq::new(v.len(), |i: int| action_view(v[i]))
}

/// The steps for ppp0: when it goes down, log it (with the checked host) and
/// switch Starlink on if HomeAssistant is configured; when it comes back, log it.
pub open spec fn ppp0_steps(was_up: bool, now_up: bool, host: Seq<char>, ha: bool) -> Seq<ActionView> {
    if was_up && !now_up {
        seq![ActionView::RecordEvent("ppp0_down"@, Some(host))] + if ha {
            seq![ActionView::EnableStarlink]
        } else {
            Seq::empty()
        }
    } else if !was_up && now_up {
        seq![ActionView::RecordEvent("ppp0_up"@, Some(host))]
    } else {
        Seq::empty()
    }
}

/// The steps for the GRE tunnel when failover is enabled: when it goes down,
/// log it and fail over; when it comes back, log it and restore.
pub open spec fn gre_steps(enabled: bool, was_up: bool, now_up: bool, iface: Seq<char>) -> Seq<ActionView> {
    if !enabled {
        Seq::empty()
    } else if was_up && !now_up {
        seq![ActionView::RecordEvent("gre_failover_active"@, Some(iface)), ActionView::ActivateGreFailover]
    } else if !was_up && now_up {
        seq![ActionView::RecordEvent("gre_failover_restored"@, Some(iface)), ActionView::RestoreGreFailover]
    } else {
        Seq::empty()
    }
}

fn push_action(v: &mut Vec<MonitorAction>, a: MonitorAction)
    ensures
        action_views(final(v)@) == action_views(old(v)@).push(action_view(a)),
{
    let ghost av = action_view(a);
    v.push(a);
    proof {
        assert(action_views(v@) =~= action_views(old(v)@).push(av));
    }
}

fn event_action(event: &str, detail: &String) -> (r: MonitorAction)
    ensures
        action_view(r) == ActionView::RecordEvent(event@, Some(detail@)),
{
    MonitorAction::RecordEvent { event: event.to_owned(), detail: Some(detail.clone()) }
}

/// One check of the links: the steps to take for the ppp0 and GRE results,
/// in order; the state becomes the results.
pub fn monitor_step(
    state: &mut LinkState,
    cfg: &MonitoringConfig,
    ha_enabled: bool,
    ppp0_now: bool,
    gre_now: bool,
) -> (r: Vec<MonitorAction>)
    ensures
        action_views(r@) == ppp0_steps(old(state).ppp0_was_up, ppp0_now, cfg.ppp0_check_host@, ha_enabled)
            + gre_steps(cfg.gre_failover_enabled, old(state).gre_was_up, gre_now, cfg.gre_interface@),
        final(state).ppp0_was_up == ppp0_now,
        final(state).gre_was_up == gre_now,
{
    let mut r: Vec<MonitorAction> = Vec::new();
    if state.ppp0_was_up && !ppp0_now {
        push_action(&mut r, event_action("ppp0_down", &cfg.ppp0_check_host));
        if ha_enabled {
            push_action(&mut r, MonitorAction::EnableStarlink);
        }
    } else if !state.ppp0_was_up && ppp0_now {
        push_action(&mut r, event_action("ppp0_up", &cfg.ppp0_check_host));
    }
    proof {
        assert(action_views(r@) =~= ppp0_steps(old(state).ppp0_was_up, ppp0_now, cfg.ppp0_check_host@, ha_enabled));
    }
    let ghost mid = action_views(r@);
    if cfg.gre_failover_enabled {
        if state.gre_was_up && !gre_now {
            push_action(&mut r, event_action("gre_failover_active", &cfg.gre_interface));
            push_action(&mut r, MonitorAction::ActivateGreFailover);
        } else if !state.gre_was_up && gre_now {
            push_action(&mut r, event_action("gre_failover_restored", &cfg.gre_interface));
            push_action(&mut r, MonitorAction::RestoreGreFailover);
        }
    }
    proof {
        assert(action_views(r@) =~= mid + gre_steps(cfg.gre_failover_enabled, old(state).gre_was_up, gre_now, cfg.gre_interface@));
    }
    state.ppp0_was_up = ppp0_now;
    state.gre_was_up = gre_now;
    r
}

/// The arguments of one ping (three seconds to answer), through `iface` when given.
pub open spec fn ping_args_spec(host: Seq<char>, iface: Option<Seq<char>>) -> Seq<Seq<char>> {
    seq!["-c"@, "1"@, "-W"@, "3"@, "-q"@] + match iface {
        Some(i) => seq!["-I"@, i],
        None => Seq::empty(),
    } + seq![host]
}

/// The `ping` arguments that check a host, through an interface when given.
pub fn ping_args(host: &str, iface: Option<&str>) -> (r: Vec<String>)
    ensures
        sviews(r@) == ping_args_spec(host@, crate::store::opt_str(iface)),
{
    let mut r: Vec<String> = Vec::new();
    push_arg(&mut r, "-c");
    push_arg(&mut r, "1");
    push_arg(&mut r, "-W");
    push_arg(&mut r, "3");
    push_arg(&mut r, "-q");
    if let Some(i) = iface {
        push_arg(&mut r, "-I");
        push_arg(&mut r, i);
    }
    push_arg(&mut r, host);
    proof {
        assert(sviews(r@) =~= ping_args_spec(host@, crate::store::opt_str(iface)));
    }
    r
}

/// Logs that Starlink was switched on.
pub fn record_starlink_on(db: &mut Database, now: i64)
    requires
        old(db).wf(),
        old(db).next_event_id < i64::MAX,
    ensures
        final(db).wf(),
        event_views(final(db).monitor_events@) == event_views(old(db).monitor_events@).push(
            MonitorEventV { id: old(db).next_event_id, ts: now, event: "starlink_on"@, detail: None },
        ),
        final(db).next_event_id == old(db).next_event_id + 1,
        final(db).clients == old(db).clients,
        final(db).gateways == old(db).gateways,
{
    insert_monitor_event(db, "starlink_on", None, now);
}

// ---------------------------------------------------------------------------
// GRE failover commands
// ---------------------------------------------------------------------------

/// The next hop of the first default route via ppp0 in `ip route show table main` output.
pub open spec fn ppp0_default_line(lines: Seq<Seq<char>>) -> Option<Seq<char>>
    decreases lines.len(),
{
    if lines.len() == 0 {
        None
    } else if has_prefix(lines[0], "default"@) && has_substring(lines[0], "ppp0"@) {
        Some(lines[0])
    } else {
        ppp0_default_line(lines.drop_first())
    }
}

/// The word after the first `via`.
pub open spec fn via_target(words: Seq<Seq<char>>) -> Option<Seq<char>>
    decreases words.len(),
{
    if words.len() < 2 {
        None
    } else if words[0] == "via"@ {
        Some(words[1])
    } else {
        via_target(words.drop_first())
    }
}

/// The next hop of ppp0's default route: the word after `via` on the first
/// default route line that mentions ppp0.
pub open spec fn ppp0_nexthop_spec(route_show: Seq<char>) -> Option<Seq<char>> {
    match ppp0_default_line(lines_spec(route_show)) {
        Some(l) => via_target(tokens_spec(l)),
        None => None,
    }
}

fn via_word(words: &Vec<Vec<char>>) -> (r: Option<Vec<char>>)
    ensures
        match via_target(views(words@)) {
            Some(w) => r is Some && r->0@ == w,
            None => r is None,
        },
{
    let via_w = chars_of("via");
    let mut i: usize = 0;
    proof {
        assert(views(words@).subrange(0, words@.len() as int) =~= views(words@));
    }
    while i < words.len() && words.len() - i > 1
        invariant
            i <= words@.len(),
            via_w@ == "via"@,
            via_target(views(words@)) == via_target(views(words@).subrange(i as int, words@.len() as int)),
        decreases words.len() - i,
    {
        let ghost rest = views(words@).subrange(i as int, words@.len() as int);
        proof {
            assert(rest.drop_first() =~= views(words@).subrange(i + 1, words@.len() as int));
            assert(rest[0] == words@[i as int]@);
            assert(rest[1] == words@[i + 1]@);
        }
        if chars_eq(&words[i], &via_w) {
            return Some(crate::text::copy_chars(&words[i + 1]));
        }
        i = i + 1;
    }
    None
}

/// The next hop of ppp0 read from `ip route show table main` output.
pub fn ppp0_nexthop(route_show: &str) -> (r: Option<String>)
    ensures
        opt_view(r) == ppp0_nexthop_spec(route_show@),
{
    let text = chars_of(route_show);
    let lines = lines_of(&text);
    let pdef = chars_of("default");
    let pppp = chars_of("ppp0");
    let mut i: usize = 0;
    proof {
        assert(views(lines@).subrange(0, lines@.len() as int) =~= views(lines@));
    }
    while i < lines.len()
        invariant
            i <= lines@.len(),
            pdef@ == "default"@,
            pppp@ == "ppp0"@,
            ppp0_default_line(views(lines@)) == ppp0_default_line(views(lines@).subrange(i as int, lines@.len() as int)),
            views(lines@) == lines_spec(route_show@),
        decreases lines.len() - i,
    {
        let ghost rest = views(lines@).subrange(i as int, lines@.len() as int);
        proof {
            assert(rest.drop_first() =~= views(lines@).subrange(i + 1, lines@.len() as int));
            assert(rest[0] == lines@[i as int]@);
        }
        if starts_with(&lines[i], &pdef) && contains_chars(&lines[i], &pppp) {
            let words = tokens_of(&lines[i]);
            return match via_word(&words) {
                Some(w) => Some(string_from_chars(&w)),
                None => None,
            };
        }
        i = i + 1;
    }
    None
}

/// The failover route of one GRE table: default via ppp0's next hop.
pub open spec fn failover_cmd(nexthop: Seq<char>, table: Seq<char>) -> Seq<Seq<char>> {
    seq!["route"@, "replace"@, "default"@, "via"@, nexthop, "dev"@, "ppp0"@, "table"@, table]
}

/// The failover commands: one per gateway on the GRE interface, in order.
pub open spec fn failover_cmds(gs: Seq<Gateway>, gre_iface: Seq<char>, nexthop: Seq<char>) -> Seq<Seq<Seq<char>>>
    decreases gs.len(),
{
    if gs.len() == 0 {
        Seq::empty()
    } else {
        let rest = failover_cmds(gs.drop_last(), gre_iface, nexthop);
        if gs.last().interface@ == gre_iface {
            rest.push(failover_cmd(nexthop, gs.last().table_name@))
        } else {
            rest
        }
    }
}

/// The commands that send every GRE table's default route through ppp0.
pub fn failover_activate_commands(gateways: &Vec<Gateway>, gre_interface: &str, nexthop: &str) -> (r: Vec<Vec<String>>)
    ensures
        cviews(r@) == failover_cmds(gateways@, gre_interface@, nexthop@),
{
    let mut out: Vec<Vec<String>> = Vec::new();
    let mut i: usize = 0;
    proof {
        assert(gateways@.subrange(0, 0) =~= Seq::<Gateway>::empty());
    }
    while i < gateways.len()
        invariant
            i <= gateways@.len(),
            cviews(out@) == failover_cmds(gateways@.subrange(0, i as int), gre_interface@, nexthop@),
        decreases gateways.len() - i,
    {
        let ghost pre = gateways@.subrange(0, i as int);
        let ghost post = gateways@.subrange(0, i + 1);
        proof {
            assert(post.drop_last() =~= pre);
            assert(post.last() == gateways@[i as int]);
        }
        let g = &gateways[i];
        if crate::text::str_eq(g.interface.as_str(), gre_interface) {
            let mut c: Vec<String> = Vec::new();
            push_arg(&mut c, "route");
            push_arg(&mut c, "replace");
            push_arg(&mut c, "default");
            push_arg(&mut c, "via");
            push_arg(&mut c, nexthop);
            push_arg(&mut c, "dev");
            push_arg(&mut c, "ppp0");
            push_arg(&mut c, "table");
            push_arg_string(&mut c, g.table_name.clone());
            proof {
                assert(sviews(c@) =~= failover_cmd(nexthop@, g.table_name@));
            }
            push_cmd(&mut out, c);
        }
        i = i + 1;
    }
    proof {
        assert(gateways@.subrange(0, gateways@.len() as int) =~= gateways@);
    }
    out
}

/// The restored route of one GRE table: default via the GRE next hop, with
/// the gateway's source address when it has one.
pub open spec fn restore_cmd(g: Gateway, gre_iface: Seq<char>, gre_nexthop: Seq<char>) -> Seq<Seq<char>> {
    seq!["route"@, "replace"@, "default"@, "via"@, gre_nexthop, "dev"@, gre_iface] + match g.src_ip {
        Some(s) => seq!["src"@, s@],
        None => Seq::empty(),
    } + seq!["table"@, g.table_name@]
}

/// The restore commands: one per gateway on the GRE interface, in order.
pub open spec fn restore_cmds(gs: Seq<Gateway>, gre_iface: Seq<char>, gre_nexthop: Seq<char>) -> Seq<Seq<Seq<char>>>
    decreases gs.len(),
{
    if gs.len() == 0 {
        Seq::empty()
    } else {
        let rest = restore_cmds(gs.drop_last(), gre_iface, gre_nexthop);
        if gs.last().interface@ == gre_iface {
            rest.push(restore_cmd(gs.last(), gre_iface, gre_nexthop))
        } else {
            rest
        }
    }
}

/// The commands that send every GRE table's default route through the tunnel again.
pub fn failover_restore_commands(gateways: &Vec<Gateway>, gre_interface: &str, gre_nexthop: &str) -> (r: Vec<Vec<String>>)
    ensures
        cviews(r@) == restore_cmds(gateways@, gre_interface@, gre_nexthop@),
{
    let mut out: Vec<Vec<String>> = Vec::new();
    let mut i: usize = 0;
    proof {
        assert(gateways@.subrange(0, 0) =~= Seq::<Gateway>::empty());
    }
    while i < gateways.len()
        invariant
            i <= gateways@.len(),
            cviews(out@) == restore_cmds(gateways@.subrange(0, i as int), gre_interface@, gre_nexthop@),
        decreases gateways.len() - i,
    {
        let ghost pre = gateways@.subrange(0, i as int);
        let ghost post = gateways@.subrange(0, i + 1);
        proof {
            assert(post.drop_last() =~= pre);
            assert(post.last() == gateways@[i as int]);
        }
        let g = &gateways[i];
        if crate::text::str_eq(g.interface.as_str(), gre_interface) {
            let mut c: Vec<String> = Vec::new();
            push_arg(&mut c, "route");
            push_arg(&mut c, "replace");
            push_arg(&mut c, "default");
            push_arg(&mut c, "via");
            push_arg(&mut c, gre_nexthop);
            push_arg(&mut c, "dev");
            push_arg(&mut c, gre_interface);
            if let Some(s) = &g.src_ip {
                push_arg(&mut c, "src");
                push_arg_string(&mut c, s.clone());
            }
            push_arg(&mut c, "table");
            push_arg_string(&mut c, g.table_name.clone());
            proof {
                assert(sviews(c@) =~= restore_cmd(*g, gre_interface@, gre_nexthop@));
            }
            push_cmd(&mut out, c);
        }
        i = i + 1;
    }
    proof {
        assert(gateways@.subrange(0, gateways@.len() as int) =~= gateways@);
    }
    out
}


// ---------------------------------------------------------------------------
// Automatic fallback of single clients
// ---------------------------------------------------------------------------

/// An active client with automatic fallback that uses gateway `name` now or
/// will return to it.
pub open spec fn watched_by(c: ClientV, name: Seq<char>) -> bool {
    c.autofallback == 1 && c.active == 1 && (c.gateway == name || c.original_gateway == Some(name))
}

/// Some client watches the gateway `name`.
pub open spec fn has_watcher(cs: Seq<ClientV>, name: Seq<char>) -> bool {
    exists|i: int| 0 <= i < cs.len() && watched_by(#[trigger] cs[i], name)
}

/// The gateways to watch, in table order: those with a watching client,
/// except gateways on ppp0 itself or on the loopback interface.
pub open spec fn fallback_gateways(cs: Seq<ClientV>, gs: Seq<GatewayV>) -> Seq<GatewayV>
    decreases gs.len(),
{
    if gs.len() == 0 {
        Seq::empty()
    } else {
        let rest = fallback_gateways(cs, gs.drop_last());
        let g = gs.last();
        if has_watcher(cs, g.name) && g.interface != "ppp0"@ && g.interface != "lo"@ {
            rest.push(g)
        } else {
            rest
        }
    }
}

fn watched(clients: &Vec<Client>, name: &String) -> (r: bool)
    ensures
        r == has_watcher(client_views(clients@), name@),
{
    let mut i: usize = 0;
    while i < clients.len()
        invariant
            i <= clients@.len(),
            forall|j: int| 0 <= j < i ==> !watched_by(#[trigger] client_views(clients@)[j], name@),
        decreases clients.len() - i,
    {
        let c = &clients[i];
        let on_it = crate::text::str_eq(c.gateway.as_str(), name.as_str());
        let returns_to = match &c.original_gateway {
            Some(o) => crate::text::str_eq(o.as_str(), name.as_str()),
            None => false,
        };
        proof {
            assert(client_views(clients@)[i as int] == c@);
        }
        if c.autofallback == 1 && c.active == 1 && (on_it || returns_to) {
            return true;
        }
        i = i + 1;
    }
    false
}

/// The gateways that the automatic fallback watches.
pub fn autofallback_gateways(db: &Database) -> (r: Vec<Gateway>)
    ensures
        gateway_views(r@) == fallback_gateways(client_views(db.clients@), gateway_views(db.gateways@)),
{
    let ghost cs = client_views(db.clients@);
    let ghost gs = gateway_views(db.gateways@);
    let mut out: Vec<Gateway> = Vec::new();
    let mut i: usize = 0;
    proof {
        assert(gs.subrange(0, 0) =~= Seq::<GatewayV>::empty());
    }
    while i < db.gateways.len()
        invariant
            i <= db.gateways@.len(),
            cs == client_views(db.clients@),
            gs == gateway_views(db.gateways@),
            gateway_views(out@) == fallback_gateways(cs, gs.subrange(0, i as int)),
        decreases db.gateways.len() - i,
    {
        let ghost pre = gs.subrange(0, i as int);
        let ghost post = gs.subrange(0, i + 1);
        proof {
            assert(post.drop_last() =~= pre);
            assert(post.last() == db.gateways@[i as int]@);
        }
        let g = &db.gateways[i];
        let w = watched(&db.clients, &g.name);
        let on_ppp0 = crate::text::str_eq(g.interface.as_str(), "ppp0");
        let on_lo = crate::text::str_eq(g.interface.as_str(), "lo");
        if w && !on_ppp0 && !on_lo {
            let ghost before = gateway_views(out@);
            out.push(g.copy());
            proof {
                assert(gateway_views(out@) =~= before.push(g@));
            }
        }
        i = i + 1;
    }
    proof {
        assert(gs.subrange(0, gs.len() as int) =~= gs);
    }
    out
}

/// The interfaces of the gateways, each once, in order of first appearance.
pub open spec fn distinct_ifaces(gs: Seq<GatewayV>) -> Seq<Seq<char>>
    decreases gs.len(),
{
    if gs.len() == 0 {
        Seq::empty()
    } else {
        let rest = distinct_ifaces(gs.drop_last());
        if rest.contains(gs.last().interface) {
            rest
        } else {
            rest.push(gs.last().interface)
        }
    }
}

/// The interfaces to check, each once.
pub fn interfaces_to_check(gateways: &Vec<Gateway>) -> (r: Vec<String>)
    ensures
        sviews(r@) == distinct_ifaces(gateway_views(gateways@)),
{
    let ghost gs = gateway_views(gateways@);
    let mut out: Vec<String> = Vec::new();
    let mut i: usize = 0;
    proof {
        assert(gs.subrange(0, 0) =~= Seq::<GatewayV>::empty());
    }
    while i < gateways.len()
        invariant
            i <= gateways@.len(),
            gs == gateway_views(gateways@),
            sviews(out@) == distinct_ifaces(gs.subrange(0, i as int)),
        decreases gateways.len() - i,
    {
        let ghost pre = gs.subrange(0, i as int);
        let ghost post = gs.subrange(0, i + 1);
        proof {
            assert(post.drop_last() =~= pre);
            assert(post.last() == gateways@[i as int]@);
        }
        let iface = &gateways[i].interface;
        let mut seen = false;
        let mut j: usize = 0;
        while j < out.len()
            invariant
                j <= out@.len(),
                seen == (exists|k: int| 0 <= k < j && (#[trigger] sviews(out@)[k]) == iface@),
            decreases out.len() - j,
        {
            if crate::text::str_eq(out[j].as_str(), iface.as_str()) {
                proof {
                    assert(sviews(out@)[j as int] == iface@);
                }
                seen = true;
            }
            j = j + 1;
        }
        if !seen {
            push_arg_string(&mut out, iface.clone());
        } else {
            proof {
                let k = choose|k: int| 0 <= k < out@.len() && (#[trigger] sviews(out@)[k]) == iface@;
                assert(sviews(out@).contains(iface@));
            }
        }
        proof {
            assert(sviews(out@) =~= distinct_ifaces(post));
        }
        i = i + 1;
    }
    proof {
        assert(gs.subrange(0, gs.len() as int) =~= gs);
    }
    out
}

/// The names of the gateways on an interface, in order.
pub open spec fn names_on(gs: Seq<GatewayV>, iface: Seq<char>) -> Seq<Seq<char>>
    decreases gs.len(),
{
    if gs.len() == 0 {
        Seq::empty()
    } else {
        let rest = names_on(gs.drop_last(), iface);
        if gs.last().interface == iface {
            rest.push(gs.last().name)
        } else {
            rest
        }
    }
}

/// Names joined by commas.
pub open spec fn join_commas(ns: Seq<Seq<char>>) -> Seq<char>
    decreases ns.len(),
{
    if ns.len() == 0 {
        Seq::empty()
    } else if ns.len() == 1 {
        ns[0]
    } else {
        join_commas(ns.drop_last()) + ","@ + ns.last()
    }
}

/// The detail of a fallback event: the gateway names and, in brackets, the interface.
pub open spec fn fallback_detail(names: Seq<Seq<char>>, iface: Seq<char>) -> Seq<char> {
    join_commas(names) + " ("@ + iface + ")"@
}

fn gateway_names_on(gateways: &Vec<Gateway>, iface: &str) -> (r: Vec<String>)
    ensures
        sviews(r@) == names_on(gateway_views(gateways@), iface@),
{
    let ghost gs = gateway_views(gateways@);
    let mut out: Vec<String> = Vec::new();
    let mut i: usize = 0;
    proof {
        assert(gs.subrange(0, 0) =~= Seq::<GatewayV>::empty());
    }
    while i < gateways.len()
        invariant
            i <= gateways@.len(),
            gs == gateway_views(gateways@),
            sviews(out@) == names_on(gs.subrange(0, i as int), iface@),
        decreases gateways.len() - i,
    {
        let ghost pre = gs.subrange(0, i as int);
        let ghost post = gs.subrange(0, i + 1);
        proof {
            assert(post.drop_last() =~= pre);
            assert(post.last() == gateways@[i as int]@);
        }
        if crate::text::str_eq(gateways[i].interface.as_str(), iface) {
            push_arg_string(&mut out, gateways[i].name.clone());
        }
        i = i + 1;
    }
    proof {
        assert(gs.subrange(0, gs.len() as int) =~= gs);
    }
    out
}

fn detail_text(names: &Vec<String>, iface: &str) -> (r: String)
    ensures
        r@ == fallback_detail(sviews(names@), iface@),
{
    let mut out = String::new();
    let mut i: usize = 0;
    proof {
        assert(sviews(names@).subrange(0, 0) =~= Seq::<Seq<char>>::empty());
    }
    while i < names.len()
        invariant
            i <= names@.len(),
            out@ == join_commas(sviews(names@).subrange(0, i as int)),
        decreases names.len() - i,
    {
        let ghost pre = sviews(names@).subrange(0, i as int);
        let ghost post = sviews(names@).subrange(0, i + 1);
        proof {
            assert(post.drop_last() =~= pre);
            assert(post.last() == names@[i as int]@);
        }
        if i > 0 {
            out.append(",");
        }
        out.append(names[i].as_str());
        proof {
            if i == 0 {
                assert(post.len() == 1);
            }
        }
        i = i + 1;
    }
    proof {
        assert(sviews(names@).subrange(0, names@.len() as int) =~= sviews(names@));
    }
    out.append(" (");
    out.append(iface);
    out.append(")");
    out
}

/// The views of the per-interface health entries.
pub open spec fn health_views(h: Seq<(String, bool)>) -> Seq<(Seq<char>, bool)> {
    Seq::new(h.len(), |i: int| (h[i].0@, h[i].1))
}

/// The recorded state of an interface: the first entry with its name.
pub open spec fn health_get(h: Seq<(Seq<char>, bool)>, iface: Seq<char>) -> Option<bool>
    decreases h.len(),
{
    if h.len() == 0 {
        None
    } else if h[0].0 == iface {
        Some(h[0].1)
    } else {
        health_get(h.drop_first(), iface)
    }
}

/// The entries after recording a state: the first entry of the interface is
/// replaced, or a new entry is appended.
pub open spec fn health_set(h: Seq<(Seq<char>, bool)>, iface: Seq<char>, up: bool) -> Seq<(Seq<char>, bool)>
    decreases h.len(),
{
    if h.len() == 0 {
        seq![(iface, up)]
    } else if h[0].0 == iface {
        h.update(0, (iface, up))
    } else {
        seq![h[0]] + health_set(h.drop_first(), iface, up)
    }
}

/// The position of the first entry of an interface.
fn health_index(h: &Vec<(String, bool)>, iface: &str) -> (r: Option<usize>)
    ensures
        match r {
            Some(i) => i < h@.len() && h@[i as int].0@ == iface@ && forall|j: int| 0 <= j < i ==> (#[trigger] h@[j]).0@ != iface@,
            None => forall|j: int| 0 <= j < h@.len() ==> (#[trigger] h@[j]).0@ != iface@,
        },
{
    let mut i: usize = 0;
    while i < h.len()
        invariant
            i <= h@.len(),
            forall|j: int| 0 <= j < i ==> (#[trigger] h@[j]).0@ != iface@,
        decreases h.len() - i,
    {
        if crate::text::str_eq(h[i].0.as_str(), iface) {
            return Some(i);
        }
        i = i + 1;
    }
    None
}

proof fn lemma_health_found(h: Seq<(Seq<char>, bool)>, iface: Seq<char>, i: int, up: bool)
    requires
        0 <= i < h.len(),
        h[i].0 == iface,
        forall|j: int| 0 <= j < i ==> (#[trigger] h[j]).0 != iface,
    ensures
        health_get(h, iface) == Some(h[i].1),
        health_set(h, iface, up) == h.update(i, (iface, up)),
    decreases i,
{
    if i > 0 {
        let t = h.drop_first();
        assert forall|j: int| 0 <= j < i - 1 implies (#[trigger] t[j]).0 != iface by {
            assert(t[j] == h[j + 1]);
        }
        lemma_health_found(t, iface, i - 1, up);
        assert(h[0].0 != iface);
        assert(seq![h[0]] + t.update(i - 1, (iface, up)) =~= h.update(i, (iface, up)));
    }
}

proof fn lemma_health_missing(h: Seq<(Seq<char>, bool)>, iface: Seq<char>, up: bool)
    requires
        forall|j: int| 0 <= j < h.len() ==> (#[trigger] h[j]).0 != iface,
    ensures
        health_get(h, iface) is None,
        health_set(h, iface, up) == h.push((iface, up)),
    decreases h.len(),
{
    if h.len() > 0 {
        let t = h.drop_first();
        assert forall|j: int| 0 <= j < t.len() implies (#[trigger] t[j]).0 != iface by {
            assert(t[j] == h[j + 1]);
        }
        lemma_health_missing(t, iface, up);
        assert(h[0].0 != iface);
        assert(seq![h[0]] + t.push((iface, up)) =~= h.push((iface, up)));
    }
}

/// The state of an interface at the previous check; up when never checked.
pub open spec fn was_up_spec(h: Seq<(Seq<char>, bool)>, iface: Seq<char>) -> bool {
    match health_get(h, iface) {
        Some(b) => b,
        None => true,
    }
}

/// Takes the check result of one watched interface. When it went down, logs
/// `autofallback_active` and moves the fallback clients of its gateways to
/// ppp0; when it came back, logs `autofallback_restored` and moves them back.
/// Records the result and returns whether any client moved (routing must then
/// be applied again).
pub fn autofallback_transition(
    db: &mut Database,
    health: &mut Vec<(String, bool)>,
    watched_gateways: &Vec<Gateway>,
    iface: &str,
    now_up: bool,
    now: i64,
) -> (moved: bool)
    requires
        old(db).wf(),
        old(db).next_event_id < i64::MAX,
    ensures
        final(db).wf(),
        health_views(final(health)@) == health_set(health_views(old(health)@), iface@, now_up),
        final(db).gateways == old(db).gateways,
        ({
            let was = was_up_spec(health_views(old(health)@), iface@);
            let names = names_on(gateway_views(watched_gateways@), iface@);
            let ev = |e: Seq<char>| MonitorEventV {
                id: old(db).next_event_id,
                ts: now,
                event: e,
                detail: Some(fallback_detail(names, iface@)),
            };
            if was && !now_up {
                &&& event_views(final(db).monitor_events@) == event_views(old(db).monitor_events@).push(ev("autofallback_active"@))
                &&& client_views(final(db).clients@) == Seq::new(old(db).clients@.len(), |i: int| after_fallback(old(db).clients@[i]@, names))
                &&& moved == (count_where(client_views(old(db).clients@), |c: ClientV| falls_back(c, names)) > 0)
            } else if !was && now_up {
                &&& event_views(final(db).monitor_events@) == event_views(old(db).monitor_events@).push(ev("autofallback_restored"@))
                &&& client_views(final(db).clients@) == Seq::new(old(db).clients@.len(), |i: int| after_restore(old(db).clients@[i]@, names))
                &&& moved == (count_where(client_views(old(db).clients@), |c: ClientV| is_restored(c, names)) > 0)
            } else {
                &&& *final(db) == *old(db)
                &&& !moved
            }
        }),
{
    let idx = health_index(health, iface);
    let ghost hv = health_views(health@);
    let was = match idx {
        Some(i) => health[i].1,
        None => true,
    };
    proof {
        match idx {
            Some(i) => {
                assert forall|j: int| 0 <= j < i implies (#[trigger] hv[j]).0 != iface@ by {
                    assert(hv[j].0 == health@[j].0@);
                }
                lemma_health_found(hv, iface@, i as int, now_up);
            },
            None => {
                assert forall|j: int| 0 <= j < hv.len() implies (#[trigger] hv[j]).0 != iface@ by {
                    assert(hv[j].0 == health@[j].0@);
                }
                lemma_health_missing(hv, iface@, now_up);
            },
        }
    }
    let mut moved = false;
    if was && !now_up {
        let names = gateway_names_on(watched_gateways, iface);
        let detail = detail_text(&names, iface);
        insert_monitor_event(db, "autofallback_active", Some(detail.as_str()), now);
        let n = activate_fallback_for_clients(db, &names);
        moved = n > 0;
    } else if !was && now_up {
        let names = gateway_names_on(watched_gateways, iface);
        let detail = detail_text(&names, iface);
        insert_monitor_event(db, "autofallback_restored", Some(detail.as_str()), now);
        let n = crate::store::restore_fallback_clients(db, &names);
        moved = n > 0;
    }
    match idx {
        Some(i) => {
            health.set(i, (iface.to_owned(), now_up));
            proof {
                assert(health_views(health@) =~= hv.update(i as int, (iface@, now_up)));
            }
        },
        None => {
            health.push((iface.to_owned(), now_up));
            proof {
                assert(health_views(health@) =~= hv.push((iface@, now_up)));
            }
        },
    }
    moved
}


// ---------------------------------------------------------------------------
// Failover of whole groups
// ---------------------------------------------------------------------------

/// The groups to watch with the interface of their gateway: groups that have
/// a fallback gateway and whose own gateway is known, in table order.
pub open spec fn group_watch_spec(gr: Seq<GroupV>, gs: Seq<Gateway>) -> Seq<(Seq<char>, Seq<char>)>
    decreases gr.len(),
{
    if gr.len() == 0 {
        Seq::empty()
    } else {
        let rest = group_watch_spec(gr.drop_last(), gs);
        let g = gr.last();
        if g.fallback_gateway is Some {
            match find_gateway(gs, g.gateway) {
                Some(gw) => rest.push((g.name, gw.interface@)),
                None => rest,
            }
        } else {
            rest
        }
    }
}

/// The groups with a fallback gateway, each with the interface to check.
pub fn group_watch_list(db: &Database) -> (r: Vec<(String, String)>)
    ensures
        crate::discovery::pair_views(r@) == group_watch_spec(group_views(db.groups@), db.gateways@),
{
    let ghost gv = group_views(db.groups@);
    let mut out: Vec<(String, String)> = Vec::new();
    let mut i: usize = 0;
    proof {
        assert(gv.subrange(0, 0) =~= Seq::<GroupV>::empty());
    }
    while i < db.groups.len()
        invariant
            i <= db.groups@.len(),
            gv == group_views(db.groups@),
            crate::discovery::pair_views(out@) == group_watch_spec(gv.subrange(0, i as int), db.gateways@),
        decreases db.groups.len() - i,
    {
        let ghost pre = gv.subrange(0, i as int);
        let ghost post = gv.subrange(0, i + 1);
        proof {
            assert(post.drop_last() =~= pre);
            assert(post.last() == db.groups@[i as int]@);
        }
        let g = &db.groups[i];
        if g.fallback_gateway.is_some() {
            if let Some(gw) = lookup_gateway(db.gateways.as_slice(), &g.gateway) {
                let ghost before = crate::discovery::pair_views(out@);
                let e = (g.name.clone(), gw.interface.clone());
                let ghost ev = (e.0@, e.1@);
                out.push(e);
                proof {
                    assert(crate::discovery::pair_views(out@) =~= before.push(ev));
                }
            }
        }
        i = i + 1;
    }
    proof {
        assert(gv.subrange(0, gv.len() as int) =~= gv);
    }
    out
}

/// The key under which the state of a group is recorded: `grp:<name>`.
pub open spec fn group_key(name: Seq<char>) -> Seq<char> {
    "grp:"@ + name
}

/// Takes the check result of the interface of a group's gateway. When it went
/// down, the group switches to its fallback gateway; when it came back, to its
/// own gateway. Records the result under `grp:<name>` and returns whether the
/// group switched (routing must then be applied again).
pub fn group_failover_transition(
    db: &mut Database,
    health: &mut Vec<(String, bool)>,
    group_name: &str,
    iface_up: bool,
) -> (switched: bool)
    requires
        old(db).wf(),
    ensures
        final(db).wf(),
        health_views(final(health)@) == health_set(health_views(old(health)@), group_key(group_name@), iface_up),
        ({
            let was = was_up_spec(health_views(old(health)@), group_key(group_name@));
            if was != iface_up {
                &&& switched
                &&& crate::store::only_clients_groups_changed(*old(db), *final(db))
                &&& (has_key(old(db).groups@, group_name@) ==> ({
                    let k = key_index(old(db).groups@, group_name@);
                    let g = old(db).groups@[k]@;
                    &&& client_views(final(db).clients@) == Seq::new(
                        old(db).clients@.len(),
                        |i: int| with_group_gateway(old(db).clients@[i]@, group_name@, group_target(g, !iface_up)),
                    )
                    &&& group_views(final(db).groups@) == group_views(old(db).groups@).update(
                        k,
                        GroupV { fallback_active: if !iface_up { 1 } else { 0 }, ..g },
                    )
                }))
                &&& (!has_key(old(db).groups@, group_name@) ==> *final(db) == *old(db))
            } else {
                &&& !switched
                &&& *final(db) == *old(db)
            }
        }),
{
    let mut key = String::from_str("grp:");
    key.append(group_name);
    let idx = health_index(health, key.as_str());
    let ghost hv = health_views(health@);
    let was = match idx {
        Some(i) => health[i].1,
        None => true,
    };
    proof {
        match idx {
            Some(i) => {
                assert forall|j: int| 0 <= j < i implies (#[trigger] hv[j]).0 != key@ by {
                    assert(hv[j].0 == health@[j].0@);
                }
                lemma_health_found(hv, key@, i as int, iface_up);
            },
            None => {
                assert forall|j: int| 0 <= j < hv.len() implies (#[trigger] hv[j]).0 != key@ by {
                    assert(hv[j].0 == health@[j].0@);
                }
                lemma_health_missing(hv, key@, iface_up);
            },
        }
    }
    let mut switched = false;
    if was != iface_up {
        crate::store::set_group_fallback(db, group_name, !iface_up);
        switched = true;
    }
    match idx {
        Some(i) => {
            health.set(i, (key, iface_up));
            proof {
                assert(health_views(health@) =~= hv.update(i as int, (group_key(group_name@), iface_up)));
            }
        },
        None => {
            let ghost kv = key@;
            health.push((key, iface_up));
            proof {
                assert(health_views(health@) =~= hv.push((kv, iface_up)));
            }
        },
    }
    switched
}


// ---------------------------------------------------------------------------
// Laws of the monitor
// ---------------------------------------------------------------------------

/// A link that keeps its state causes no step: no event, no Starlink call, no failover.
pub proof fn law_steady_links_do_nothing(up: bool, gre_up: bool, host: Seq<char>, ha: bool, failover: bool, iface: Seq<char>)
    ensures
        ppp0_steps(up, up, host, ha) == Seq::<ActionView>::empty(),
        gre_steps(failover, gre_up, gre_up, iface) == Seq::<ActionView>::empty(),
{
}

/// What a check records is what the next check compares with, and recording
/// one interface leaves the others' states as they were.
pub proof fn law_health_read_back(h: Seq<(Seq<char>, bool)>, iface: Seq<char>, up: bool, other: Seq<char>)
    ensures
        health_get(health_set(h, iface, up), iface) == Some(up),
        other != iface ==> health_get(health_set(h, iface, up), other) == health_get(h, other),
    decreases h.len(),
{
    if h.len() > 0 && h[0].0 != iface {
        law_health_read_back(h.drop_first(), iface, up, other);
        let t = seq![h[0]] + health_set(h.drop_first(), iface, up);
        assert(t[0] == h[0]);
        assert(t.drop_first() =~= health_set(h.drop_first(), iface, up));
        assert(health_get(t, iface) == health_get(t.drop_first(), iface));
        if other != iface && h[0].0 != other {
            assert(health_get(t, other) == health_get(t.drop_first(), other));
            assert(health_get(h, other) == health_get(h.drop_first(), other));
        }
    } else if h.len() > 0 {
        let t = h.update(0, (iface, up));
        assert(t.drop_first() =~= h.drop_first());
        assert(t[0].0 == iface);
        if other != iface {
            assert(health_get(t, other) == health_get(t.drop_first(), other));
            assert(health_get(h, other) == health_get(h.drop_first(), other));
        }
    } else {
        let t = seq![(iface, up)];
        assert(t.drop_first() =~= Seq::<(Seq<char>, bool)>::empty());
        assert(t[0].0 == iface);
        if other != iface {
            assert(health_get(t, other) == health_get(t.drop_first(), other));
        }
    }
}

/// A restore command puts back the table of a failover command: same table,
/// routed via the tunnel's next hop on the tunnel interface.
pub open spec fn restores(f: Seq<Seq<char>>, r: Seq<Seq<char>>, gre_iface: Seq<char>, gre_nexthop: Seq<char>) -> bool {
    &&& f.last() == r.last()
    &&& r[4] == gre_nexthop
    &&& r[6] == gre_iface
}

/// GRE recovery puts back every route that GRE failover replaced: the two
/// command lists address the same routing tables, in the same order, and
/// each restore sends its table through the tunnel again.
pub proof fn law_restore_covers_failover(gs: Seq<Gateway>, gre_iface: Seq<char>, ppp0_nexthop: Seq<char>, gre_nexthop: Seq<char>)
    ensures
        failover_cmds(gs, gre_iface, ppp0_nexthop).len() == restore_cmds(gs, gre_iface, gre_nexthop).len(),
        forall|k: int| 0 <= k < failover_cmds(gs, gre_iface, ppp0_nexthop).len() ==> restores(
            #[trigger] failover_cmds(gs, gre_iface, ppp0_nexthop)[k],
            restore_cmds(gs, gre_iface, gre_nexthop)[k],
            gre_iface,
            gre_nexthop,
        ),
    decreases gs.len(),
{
    if gs.len() > 0 {
        let ga = gs.drop_last();
        law_restore_covers_failover(ga, gre_iface, ppp0_nexthop, gre_nexthop);
        let g = gs.last();
        if g.interface@ == gre_iface {
            let rc = restore_cmd(g, gre_iface, gre_nexthop);
            let fc = failover_cmd(ppp0_nexthop, g.table_name@);
            assert(rc.last() == g.table_name@);
            assert(fc.last() == g.table_name@);
            assert(restores(fc, rc, gre_iface, gre_nexthop));
        }
        assert forall|k: int| 0 <= k < failover_cmds(gs, gre_iface, ppp0_nexthop).len() implies restores(
            #[trigger] failover_cmds(gs, gre_iface, ppp0_nexthop)[k],
            restore_cmds(gs, gre_iface, gre_nexthop)[k],
            gre_iface,
            gre_nexthop,
        ) by {
            if k < failover_cmds(ga, gre_iface, ppp0_nexthop).len() {
                assert(restores(
                    failover_cmds(ga, gre_iface, ppp0_nexthop)[k],
                    restore_cmds(ga, gre_iface, gre_nexthop)[k],
                    gre_iface,
                    gre_nexthop,
                ));
            }
        }
    }
}

/// Over successive checks from the initial state (ppp0 taken as up): check
/// `k` logs `ppp0_down`, and asks for Starlink when HomeAssistant is
/// configured, exactly when ppp0 was up at the check before (or `k` is the
/// first) and is down now; it logs `ppp0_up` exactly when ppp0 was down and is
/// up again; it takes no other ppp0 step. `was` are the link states that
/// `monitor_step` carries from check to check, `steps` its ppp0 steps.
pub proof fn law_ppp0_events_follow_the_pings(
    was: Seq<bool>,
    pings: Seq<bool>,
    steps: Seq<Seq<ActionView>>,
    host: Seq<char>,
    ha: bool,
)
    requires
        was.len() == pings.len() + 1,
        steps.len() == pings.len(),
        was[0],
        forall|k: int| 0 <= k < pings.len() ==> was[k + 1] == pings[k],
        forall|k: int| 0 <= k < pings.len() ==> #[trigger] steps[k] == ppp0_steps(was[k], pings[k], host, ha),
    ensures
        forall|k: int| 0 <= k < pings.len() ==> {
            let prev = if k == 0 { true } else { pings[k - 1] };
            &&& (#[trigger] steps[k]).contains(ActionView::RecordEvent("ppp0_down"@, Some(host))) <==> (prev && !pings[k])
            &&& steps[k].contains(ActionView::EnableStarlink) <==> (prev && !pings[k] && ha)
            &&& steps[k].contains(ActionView::RecordEvent("ppp0_up"@, Some(host))) <==> (!prev && pings[k])
            &&& steps[k].len() <= 2
        },
{
    reveal_strlit("ppp0_down");
    reveal_strlit("ppp0_up");
    assert("ppp0_down"@ != "ppp0_up"@) by {
        assert("ppp0_down"@[5] != "ppp0_up"@[5]);
    }
    assert forall|k: int| 0 <= k < pings.len() implies {
        let prev = if k == 0 { true } else { pings[k - 1] };
        &&& (#[trigger] steps[k]).contains(ActionView::RecordEvent("ppp0_down"@, Some(host))) <==> (prev && !pings[k])
        &&& steps[k].contains(ActionView::EnableStarlink) <==> (prev && !pings[k] && ha)
        &&& steps[k].contains(ActionView::RecordEvent("ppp0_up"@, Some(host))) <==> (!prev && pings[k])
        &&& steps[k].len() <= 2
    } by {
        let prev = if k == 0 { true } else { pings[k - 1] };
        if k > 0 {
            assert(was[k] == pings[k - 1]);
        }
        assert(was[k] == prev);
        let st = steps[k];
        let down = ActionView::RecordEvent("ppp0_down"@, Some(host));
        let up = ActionView::RecordEvent("ppp0_up"@, Some(host));
        if prev && !pings[k] {
            assert(st[0] == down);
            if ha {
                assert(st[1] == ActionView::EnableStarlink);
            }
            assert(!st.contains(up));
            assert(!ha ==> !st.contains(ActionView::EnableStarlink));
        } else if !prev && pings[k] {
            assert(st =~= seq![up]);
            assert(st[0] == up);
            assert(!st.contains(down));
            assert(!st.contains(ActionView::EnableStarlink));
        } else {
            assert(st =~= Seq::<ActionView>::empty());
        }
    }
}

/// A gateway stays watched as long as an active client with automatic
/// fallback is on it or will return to it (it is its original gateway while
/// the client is in fallback), unless it runs on ppp0 or the loopback: so the
/// recovery of a failed gateway is seen and its clients are restored.
pub proof fn law_return_gateway_stays_watched(cs: Seq<ClientV>, gs: Seq<GatewayV>, i: int, k: int)
    requires
        0 <= i < cs.len(),
        0 <= k < gs.len(),
        cs[i].autofallback == 1,
        cs[i].active == 1,
        cs[i].gateway == gs[k].name || cs[i].original_gateway == Some(gs[k].name),
        gs[k].interface != "ppp0"@,
        gs[k].interface != "lo"@,
    ensures
        fallback_gateways(cs, gs).contains(gs[k]),
    decreases gs.len(),
{
    let rest = fallback_gateways(cs, gs.drop_last());
    if k == gs.len() - 1 {
        assert(watched_by(cs[i], gs[k].name));
        assert(has_watcher(cs, gs[k].name));
        let f = fallback_gateways(cs, gs);
        assert(f == rest.push(gs[k]));
        assert(f[rest.len() as int] == gs[k]);
    } else {
        assert(gs.drop_last()[k] == gs[k]);
        law_return_gateway_stays_watched(cs, gs.drop_last(), i, k);
        let j = choose|j: int| 0 <= j < rest.len() && rest[j] == gs[k];
        let f = fallback_gateways(cs, gs);
        assert(f[j] == rest[j]);
    }
}

} // verus!
