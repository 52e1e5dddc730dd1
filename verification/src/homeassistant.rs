//! HomeAssistant: where the requests go that switch the Starlink dish.
//!
//! The HTTP client itself lives with the caller; this module decides whether
//! HomeAssistant is used and builds the request URLs.

use vstd::prelude::*;
use crate::config::HomeAssistantConfig;
use crate::text::{trim_end_char, trim_end_char_spec};

verus! {

/// The address and credentials of a HomeAssistant instance.
#[derive(Debug, Clone)]
pub struct HaEndpoint {
    /// The base URL without trailing slashes.
    pub base_url: String,
    pub token: String,
    pub starlink_entity: String,
}

/// HomeAssistant is used when it is enabled and a token is configured.
pub fn ha_configured(cfg: &HomeAssistantConfig) -> (r: bool)
    ensures
        r == (cfg.enabled && cfg.token@.len() > 0),
{
    cfg.enabled && cfg.token.unicode_len() > 0
}

/// The endpoint of the configured instance.
pub fn ha_endpoint(cfg: &HomeAssistantConfig) -> (r: HaEndpoint)
    ensures
        r.base_url@ == trim_end_char_spec(cfg.url@, '/'),
        r.token@ == cfg.token@,
        r.starlink_entity@ == cfg.starlink_entity@,
{
    HaEndpoint {
        base_url: trim_end_char(cfg.url.as_str(), '/'),
        token: cfg.token.clone(),
        starlink_entity: cfg.starlink_entity.clone(),
    }
}

/// The URL that calls `<domain>.<service>`.
pub open spec fn service_url_text(base: Seq<char>, domain: Seq<char>, service: Seq<char>) -> Seq<char> {
    base + "/api/services/"@ + domain + "/"@ + service
}

/// The URL of a service call.
pub fn service_url(ep: &HaEndpoint, domain: &str, service: &str) -> (r: String)
    ensures
        r@ == service_url_text(ep.base_url@, domain@, service@),
{
    let mut r = ep.base_url.clone();
    r.append("/api/services/");
    r.append(domain);
    r.append("/");
    r.append(service);
    r
}

/// The URL of the state of an entity.
pub open spec fn state_url_text(base: Seq<char>, entity: Seq<char>) -> Seq<char> {
    base + "/api/states/"@ + entity
}

/// The URL that reads the state of an entity.
pub fn state_url(ep: &HaEndpoint, entity_id: &str) -> (r: String)
    ensures
        r@ == state_url_text(ep.base_url@, entity_id@),
{
    let mut r = ep.base_url.clone();
    r.append("/api/states/");
    r.append(entity_id);
    r
}

/// The URL that switches the Starlink dish on (`switch.turn_on`) or off (`switch.turn_off`).
pub fn starlink_switch_url(ep: &HaEndpoint, on: bool) -> (r: String)
    ensures
        r@ == service_url_text(ep.base_url@, "switch"@, if on {
            "turn_on"@
        } else {
            "turn_off"@
        }),
{
    if on {
        service_url(ep, "switch", "turn_on")
    } else {
        service_url(ep, "switch", "turn_off")
    }
}

} // verus!
