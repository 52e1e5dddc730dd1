# Stellwerk

Stellwerk runs on a Linux router and decides, per LAN client, through which
uplink (GRE tunnel, DSL, Starlink, WireGuard or Mullvad tunnel) its traffic
leaves. It keeps the assignments in SQLite, turns them into nftables and
iproute2 rules, watches the uplinks and fails clients over, accounts traffic
per client and serves a small HTTP(S) API with admin and viewer sessions.

## Layout

- `src/` — the library, verified with Verus. Every public function states
  its result in `ensures` over spec functions and views (reading the clock
  and drawing random bytes are what they are: nothing more is claimed):
  - `store` — the database as sorted keyed tables with their invariant
    (`Database::wf`), and every operation the daemon performs on it;
  - `nftables`, `routing` — the ruleset text and the `ip` commands built
    from the store;
  - `monitor` — link and gateway failover decisions as steps from state and
    check result to next state and actions;
  - `traffic`, `interfaces` — counter deltas, reset handling and InfluxDB lines;
  - `discovery` — parsers of `ip neigh` and `getent` output;
  - `mullvad`, `api` — interface naming, relay choice, `rt_tables` editing,
    WireGuard configuration text and request decisions;
  - `auth` — password hashes, session tokens, cookies and roles;
  - `text`, `order`, `sort`, `lookup` — the string, ordering and search
    groundwork the rest is proved on;
  - `clock` — the current time, and the operations stamped with it.
- `tests/` — tests of the library on concrete values.
- `app/` — the daemon around the library: configuration file, SQLite,
  processes, HTTP clients and server, and the background loops.
