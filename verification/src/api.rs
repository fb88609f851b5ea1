//! The decisions of the HTTP API: who may call it, what a status report
//! says, how a request turns into the next configuration, and what happens
//! when applying or saving that configuration fails.
use vstd::prelude::*;

use crate::firewall::{destination_text, dnat_words, PRE};
use crate::ipv4::{push_ipv4, Ipv4Addr};
use crate::live::{first_index, has_dnat_jump, rule_of_words, rule_views, LiveRule, LiveRuleView};
use crate::model::{
    config_error_message, config_outcome, is_tailnet_ip, protocol_name, tailnet_ip, Config,
    Forward, ForwardInput,
};
use crate::tailscale::Node;
use crate::text::{chars_of, owned, push_char, push_decimal, str_eq, trim, trimmed};

verus! {

/// An HTTP error answer: its status code and message.
#[derive(Clone, Debug)]
pub struct ApiError {
    pub status: u16,
    pub message: String,
}

/// A 400 answer with the given message.
pub fn bad_request(message: String) -> (e: ApiError)
    ensures
        e.status == 400,
        e.message@ == message@,
{
    ApiError { status: 400, message }
}

/// A 500 answer with the given message.
pub fn internal(message: String) -> (e: ApiError)
    ensures
        e.status == 500,
        e.message@ == message@,
{
    ApiError { status: 500, message }
}

fn error_with(status: u16, message: &str) -> (e: ApiError)
    ensures
        e.status == status,
        e.message@ == message@,
{
    ApiError { status, message: owned(message) }
}

/// The request method, as far as the origin check tells methods apart.
#[derive(Clone, Copy, Debug, PartialEq, Eq, Structural)]
pub enum Method {
    Get,
    Head,
    Options,
    Other,
}

/// `c` with ASCII upper-case letters made lower-case.
pub open spec fn ascii_lower(c: char) -> char {
    if 'A' <= c <= 'Z' {
        ((c as u32) + 32) as char
    } else {
        c
    }
}

/// Equal but for the case of ASCII letters (`str::eq_ignore_ascii_case`).
pub open spec fn eq_ignore_ascii_case(a: Seq<char>, b: Seq<char>) -> bool {
    a.len() == b.len() && forall|i: int| 0 <= i < a.len() ==> ascii_lower(#[trigger] a[i]) == ascii_lower(b[i])
}

/// Whether `a` and `b` are equal but for the case of ASCII letters.
pub fn eq_ignore_case(a: &str, b: &str) -> (r: bool)
    ensures
        r == eq_ignore_ascii_case(a@, b@),
{
    let x = chars_of(a);
    let y = chars_of(b);
    if x.len() != y.len() {
        return false;
    }
    let mut i: usize = 0;
    while i < x.len()
        invariant
            0 <= i <= x@.len() == y@.len(),
            x@ == a@,
            y@ == b@,
            forall|k: int| 0 <= k < i ==> ascii_lower(#[trigger] x@[k]) == ascii_lower(y@[k]),
        decreases x.len() - i,
    {
        let c = x[i];
        let d = y[i];
        let lc = if c >= 'A' && c <= 'Z' {
            (c as u32) + 32
        } else {
            c as u32
        };
        let ld = if d >= 'A' && d <= 'Z' {
            (d as u32) + 32
        } else {
            d as u32
        };
        assert(lc == ascii_lower(c) as u32);
        assert(ld == ascii_lower(d) as u32);
        if lc != ld {
            return false;
        }
        i = i + 1;
    }
    true
}

/// The answer to a request whose peer is not a Tailscale IPv4 address.
pub open spec fn peer_refused_message() -> Seq<char> {
    "Tailscale IPv4 access required"@
}

/// The peer is a Tailscale IPv4 address.
pub open spec fn peer_admitted(peer: Option<Ipv4Addr>) -> bool {
    peer matches Some(ip) && tailnet_ip(ip)
}

/// Admits a request only from a Tailscale IPv4 peer; `peer` is the peer's
/// IPv4 address, or `None` where it has none.
pub fn authorize_peer(peer: Option<Ipv4Addr>) -> (r: Result<Ipv4Addr, ApiError>)
    ensures
        match r {
            Ok(ip) => peer == Some(ip) && tailnet_ip(ip),
            Err(e) => !(peer matches Some(ip) && tailnet_ip(ip)) && e.status == 403 && e.message@
                == peer_refused_message(),
        },
{
    match peer {
        Some(ip) => {
            if is_tailnet_ip(ip) {
                Ok(ip)
            } else {
                Err(error_with(403, "Tailscale IPv4 access required"))
            }
        },
        None => Err(error_with(403, "Tailscale IPv4 access required")),
    }
}

/// Whether some allowed user matches the login, ignoring ASCII case.
pub open spec fn login_allowed(allowed: Seq<String>, login: Seq<char>) -> bool {
    exists|i: int| 0 <= i < allowed.len() && eq_ignore_ascii_case((#[trigger] allowed[i])@, login)
}

/// Methods that never change anything.
pub open spec fn safe_method(m: Method) -> bool {
    m == Method::Get || m == Method::Head || m == Method::Options
}

/// A write is same-origin: it has no `Origin` header, or the header's text is
/// `http://` and the `Host` header (comparing an unreadable header as absent).
pub open spec fn same_origin(origin: Option<Option<String>>, host: Option<String>) -> bool {
    match origin {
        None => true,
        Some(o) => match (o, host) {
            (None, None) => true,
            (Some(a), Some(h)) => a@ == "http://"@ + h@,
            _ => false,
        },
    }
}

/// Admits a request: its peer (`None` where it has no IPv4 address) must be a
/// Tailscale IPv4 address, the peer's login (`None` where Tailscale could not
/// tell it) must be on the allow list, and a request that may change
/// something must come from the API's own origin. `origin` is the `Origin`
/// header if present (with its text, if it is readable); `host` is the
/// readable text of the `Host` header. The checks run in that order.
pub fn authorize(
    peer: Option<Ipv4Addr>,
    allowed_users: &Vec<String>,
    login: Option<String>,
    method: Method,
    origin: Option<Option<String>>,
    host: Option<String>,
) -> (r: Result<(), ApiError>)
    ensures
        match r {
            Ok(()) => {
                &&& peer_admitted(peer)
                &&& login matches Some(l) && login_allowed(allowed_users@, l@)
                &&& safe_method(method) || same_origin(origin, host)
            },
            Err(e) => e.status == 403 && if !peer_admitted(peer) {
                e.message@ == peer_refused_message()
            } else if login is None {
                e.message@ == "Tailscale identity unavailable"@
            } else if !login_allowed(allowed_users@, login->0@) {
                e.message@ == "Tailscale user is not allowed"@
            } else {
                !safe_method(method) && !same_origin(origin, host) && e.message@
                    == "cross-origin mutation rejected"@
            },
        },
{
    if let Err(e) = authorize_peer(peer) {
        return Err(e);
    }
    let login = match login {
        Some(l) => l,
        None => {
            return Err(error_with(403, "Tailscale identity unavailable"));
        },
    };
    let mut permitted = false;
    let mut i: usize = 0;
    while i < allowed_users.len()
        invariant
            0 <= i <= allowed_users@.len(),
            permitted == exists|k: int|
                0 <= k < i && eq_ignore_ascii_case((#[trigger] allowed_users@[k])@, login@),
        decreases allowed_users.len() - i,
    {
        if eq_ignore_case(allowed_users[i].as_str(), login.as_str()) {
            permitted = true;
        }
        i = i + 1;
    }
    if !permitted {
        return Err(error_with(403, "Tailscale user is not allowed"));
    }
    let safe = match method {
        Method::Get | Method::Head | Method::Options => true,
        Method::Other => false,
    };
    if !safe {
        match origin {
            Some(o) => {
                let expected = match host {
                    Some(h) => {
                        let mut e = owned("http://");
                        e.append(h.as_str());
                        Some(e)
                    },
                    None => None,
                };
                let matched = match (o, expected) {
                    (None, None) => true,
                    (Some(a), Some(x)) => a == x,
                    _ => false,
                };
                if !matched {
                    return Err(error_with(403, "cross-origin mutation rejected"));
                }
            },
            None => {},
        }
    }
    Ok(())
}

/// The counts and drift flag of a status report.
#[derive(Clone, Copy, Debug, PartialEq, Eq, Structural)]
pub struct StatusSummary {
    pub configured_forwards: usize,
    pub enabled_forwards: usize,
    pub live_managed_rules: usize,
    pub in_sync: bool,
}

/// A live rule installs forward `f`: same protocol, public port and destination.
pub open spec fn rule_serves(r: LiveRuleView, f: Forward) -> bool {
    &&& r.protocol == protocol_name(f.protocol)
    &&& r.public_port == f.public_port
    &&& r.destination == destination_text(f)
}

/// The enabled forwards of a configuration.
pub open spec fn enabled_forwards(c: Config) -> Seq<Forward> {
    c.forwards@.filter(|f: Forward| f.enabled)
}

/// The live rules in the managed chain.
pub open spec fn managed_rules(live: Seq<LiveRule>) -> Seq<LiveRule> {
    live.filter(|r: LiveRule| r.managed)
}

/// The live managed rules match the enabled forwards: as many of them, and
/// each enabled forward served by one of them.
pub open spec fn in_sync(c: Config, live: Seq<LiveRule>) -> bool {
    &&& managed_rules(live).len() == enabled_forwards(c).len()
    &&& forall|i: int|
        0 <= i < c.forwards@.len() && (#[trigger] c.forwards@[i]).enabled ==> exists|j: int|
            0 <= j < live.len() && (#[trigger] live[j]).managed && rule_serves(
                live[j]@,
                c.forwards@[i],
            )
}

/// Whether a live rule serves a forward.
fn serves(r: &LiveRule, f: &Forward) -> (b: bool)
    ensures
        b == rule_serves(r@, *f),
{
    let mut destination = String::new();
    push_ipv4(&mut destination, f.target_ip);
    push_char(&mut destination, ':');
    push_decimal(&mut destination, f.target_port as u32);
    assert(destination@ =~= destination_text(*f));
    str_eq(r.protocol.as_str(), f.protocol.as_str()) && r.public_port == f.public_port
        && r.destination == destination
}

/// The counts and drift flag that `GET /status` reports for a configuration
/// and the live rules.
pub fn status_summary(config: &Config, live: &Vec<LiveRule>) -> (s: StatusSummary)
    ensures
        s.configured_forwards == config.forwards@.len(),
        s.enabled_forwards == enabled_forwards(*config).len(),
        s.live_managed_rules == managed_rules(live@).len(),
        s.in_sync == in_sync(*config, live@),
{
    let ghost pf = |f: Forward| f.enabled;
    let ghost pr = |r: LiveRule| r.managed;
    let mut managed: usize = 0;
    let mut i: usize = 0;
    while i < live.len()
        invariant
            0 <= i <= live@.len(),
            managed == live@.take(i as int).filter(pr).len(),
            pr == (|r: LiveRule| r.managed),
            managed <= i,
        decreases live.len() - i,
    {
        proof {
            assert(live@.take(i + 1) =~= live@.take(i as int).push(live@[i as int]));
            live@.take(i as int).lemma_filter_len_push(pr, live@[i as int]);
        }
        if live[i].managed {
            managed = managed + 1;
        }
        i = i + 1;
    }
    assert(live@.take(live@.len() as int) =~= live@);
    let mut enabled: usize = 0;
    let mut i: usize = 0;
    while i < config.forwards.len()
        invariant
            0 <= i <= config.forwards@.len(),
            enabled == config.forwards@.take(i as int).filter(pf).len(),
            pf == (|f: Forward| f.enabled),
            enabled <= i,
        decreases config.forwards.len() - i,
    {
        proof {
            assert(config.forwards@.take(i + 1) =~= config.forwards@.take(i as int).push(
                config.forwards@[i as int],
            ));
            config.forwards@.take(i as int).lemma_filter_len_push(pf, config.forwards@[i as int]);
        }
        if config.forwards[i].enabled {
            enabled = enabled + 1;
        }
        i = i + 1;
    }
    assert(config.forwards@.take(config.forwards@.len() as int) =~= config.forwards@);
    let mut all_served = true;
    let mut i: usize = 0;
    while i < config.forwards.len() && all_served
        invariant
            0 <= i <= config.forwards@.len(),
            all_served == forall|k: int|
                0 <= k < i && (#[trigger] config.forwards@[k]).enabled ==> exists|j: int|
                    0 <= j < live@.len() && (#[trigger] live@[j]).managed && rule_serves(
                        live@[j]@,
                        config.forwards@[k],
                    ),
        decreases config.forwards.len() - i,
    {
        let f = &config.forwards[i];
        if f.enabled {
            let mut found = false;
            let mut j: usize = 0;
            while j < live.len() && !found
                invariant
                    0 <= j <= live@.len(),
                    f == config.forwards@[i as int],
                    found == exists|m: int|
                        0 <= m < j && (#[trigger] live@[m]).managed && rule_serves(live@[m]@, *f),
                decreases live.len() - j,
            {
                if live[j].managed && serves(&live[j], f) {
                    found = true;
                }
                j = j + 1;
            }
            all_served = found;
        }
        i = i + 1;
    }
    StatusSummary {
        configured_forwards: config.forwards.len(),
        enabled_forwards: enabled,
        live_managed_rules: managed,
        in_sync: managed == enabled && all_served,
    }
}

/// The node a forward input points to: the first node with its `node_id`.
pub open spec fn node_index(nodes: Seq<Node>, node_id: Seq<char>) -> Option<int> {
    if exists|k: int| 0 <= k < nodes.len() && (#[trigger] nodes[k]).id@ == node_id {
        Some(
            choose|k: int|
                0 <= k < nodes.len() && (#[trigger] nodes[k]).id@ == node_id && forall|m: int|
                    0 <= m < k ==> (#[trigger] nodes[m]).id@ != node_id,
        )
    } else {
        None
    }
}

/// The forward that an input describes, with the given id, pointing to `node`.
pub open spec fn resolved(input: ForwardInput, id: u128, node: Node, f: Forward) -> bool {
    &&& f.id == id
    &&& f.label@ == trimmed(input.label@)
    &&& f.protocol == input.protocol
    &&& f.public_port == input.public_port
    &&& f.node_id@ == node.id@
    &&& f.node_name@ == node.name@
    &&& f.target_ip == node.ipv4
    &&& f.target_port == input.target_port
    &&& f.enabled == input.enabled
}

/// The forward with id `id` that `input` describes, its destination taken
/// from the tailnet node it names (its label trimmed), or a 400 answer when no
/// node has that id.
pub fn resolve_forward(input: &ForwardInput, id: u128, nodes: &Vec<Node>) -> (r: Result<
    Forward,
    ApiError,
>)
    ensures
        match r {
            Ok(f) => node_index(nodes@, input.node_id@) matches Some(k) && resolved(
                *input,
                id,
                nodes@[k],
                f,
            ),
            Err(e) => node_index(nodes@, input.node_id@) is None && e.status == 400 && e.message@
                == "destination node is not present in the tailnet"@,
        },
{
    let mut k: usize = 0;
    while k < nodes.len()
        invariant
            0 <= k <= nodes@.len(),
            forall|m: int| 0 <= m < k ==> (#[trigger] nodes@[m]).id@ != input.node_id@,
        decreases nodes.len() - k,
    {
        if nodes[k].id == input.node_id {
            let node = &nodes[k];
            proof {
                let ghost kk = k as int;
                assert(0 <= kk < nodes@.len() && nodes@[kk].id@ == input.node_id@ && forall|m: int|
                    0 <= m < kk ==> (#[trigger] nodes@[m]).id@ != input.node_id@);
                let c = choose|c: int|
                    0 <= c < nodes@.len() && (#[trigger] nodes@[c]).id@ == input.node_id@
                        && forall|m: int| 0 <= m < c ==> (#[trigger] nodes@[m]).id@ != input.node_id@;
                if c < kk {
                    assert(nodes@[c].id@ != input.node_id@);
                }
                if kk < c {
                    assert(nodes@[kk].id@ != input.node_id@);
                }
            }
            let f = Forward {
                id,
                label: trim(input.label.as_str()),
                protocol: input.protocol,
                public_port: input.public_port,
                node_id: node.id.clone(),
                node_name: node.name.clone(),
                target_ip: node.ipv4,
                target_port: input.target_port,
                enabled: input.enabled,
            };
            return Ok(f);
        }
        k = k + 1;
    }
    Err(error_with(400, "destination node is not present in the tailnet"))
}

/// An exact copy of a forward.
pub fn copy_forward(f: &Forward) -> (r: Forward)
    ensures
        r == *f,
{
    Forward {
        id: f.id,
        label: f.label.clone(),
        protocol: f.protocol,
        public_port: f.public_port,
        node_id: f.node_id.clone(),
        node_name: f.node_name.clone(),
        target_ip: f.target_ip,
        target_port: f.target_port,
        enabled: f.enabled,
    }
}

/// Two configurations agree on everything but their forwards.
pub open spec fn same_settings(a: Config, b: Config) -> bool {
    &&& a.listen_port == b.listen_port
    &&& a.public_interface@ == b.public_interface@
    &&& a.tailscale_interface@ == b.tailscale_interface@
    &&& a.allowed_users@ == b.allowed_users@
    &&& a.reserved_ports@ == b.reserved_ports@
}

/// `c` with its forwards replaced by `forwards`.
fn with_forwards(c: &Config, forwards: Vec<Forward>) -> (r: Config)
    ensures
        same_settings(r, *c),
        r.forwards@ == forwards@,
{
    let mut users: Vec<String> = Vec::new();
    let mut i: usize = 0;
    while i < c.allowed_users.len()
        invariant
            0 <= i <= c.allowed_users@.len(),
            users@ == c.allowed_users@.take(i as int),
        decreases c.allowed_users.len() - i,
    {
        users.push(c.allowed_users[i].clone());
        assert(users@ =~= c.allowed_users@.take(i + 1));
        i = i + 1;
    }
    assert(users@ =~= c.allowed_users@);
    let mut reserved: Vec<crate::model::ReservedPort> = Vec::new();
    let mut i: usize = 0;
    while i < c.reserved_ports.len()
        invariant
            0 <= i <= c.reserved_ports@.len(),
            reserved@ == c.reserved_ports@.take(i as int),
        decreases c.reserved_ports.len() - i,
    {
        reserved.push(c.reserved_ports[i]);
        assert(reserved@ =~= c.reserved_ports@.take(i + 1));
        i = i + 1;
    }
    assert(reserved@ =~= c.reserved_ports@);
    Config {
        listen_port: c.listen_port,
        public_interface: c.public_interface.clone(),
        tailscale_interface: c.tailscale_interface.clone(),
        allowed_users: users,
        reserved_ports: reserved,
        forwards,
    }
}

/// The next configuration after creating `forward`: it is appended.
pub fn with_forward_added(current: &Config, forward: Forward) -> (next: Config)
    ensures
        same_settings(next, *current),
        next.forwards@ == current.forwards@.push(forward),
{
    let mut forwards: Vec<Forward> = Vec::new();
    let mut i: usize = 0;
    while i < current.forwards.len()
        invariant
            0 <= i <= current.forwards@.len(),
            forwards@ == current.forwards@.take(i as int),
        decreases current.forwards.len() - i,
    {
        forwards.push(copy_forward(&current.forwards[i]));
        assert(forwards@ =~= current.forwards@.take(i + 1));
        i = i + 1;
    }
    forwards.push(forward);
    assert(forwards@ =~= current.forwards@.push(forward));
    with_forwards(current, forwards)
}

/// The position of the first forward with id `id`.
pub open spec fn forward_index(forwards: Seq<Forward>, id: u128) -> Option<int> {
    if exists|k: int| 0 <= k < forwards.len() && (#[trigger] forwards[k]).id == id {
        Some(
            choose|k: int|
                0 <= k < forwards.len() && (#[trigger] forwards[k]).id == id && forall|m: int|
                    0 <= m < k ==> (#[trigger] forwards[m]).id != id,
        )
    } else {
        None
    }
}

/// The answer for an id that no forward has.
pub open spec fn not_found_message() -> Seq<char> {
    "forward not found"@
}

/// The next configuration after replacing forward `id` by `forward`: the first
/// forward with that id is replaced, or a 404 answer when there is none.
pub fn with_forward_replaced(current: &Config, id: u128, forward: Forward) -> (r: Result<
    Config,
    ApiError,
>)
    ensures
        match r {
            Ok(next) => forward_index(current.forwards@, id) matches Some(k) && same_settings(
                next,
                *current,
            ) && next.forwards@ == current.forwards@.update(k, forward),
            Err(e) => forward_index(current.forwards@, id) is None && e.status == 404
                && e.message@ == not_found_message(),
        },
{
    let mut forwards: Vec<Forward> = Vec::new();
    let mut found = false;
    let mut forward = Some(forward);
    let ghost given = forward->0;
    let ghost mut at: int = 0;
    let mut i: usize = 0;
    while i < current.forwards.len()
        invariant
            0 <= i <= current.forwards@.len(),
            forwards@.len() == i,
            found == exists|k: int| 0 <= k < i && (#[trigger] current.forwards@[k]).id == id,
            found ==> 0 <= at < i && current.forwards@[at].id == id && (forall|m: int|
                0 <= m < at ==> (#[trigger] current.forwards@[m]).id != id) && forwards@
                == current.forwards@.take(i as int).update(at, given) && forward is None,
            !found ==> forwards@ == current.forwards@.take(i as int) && forward == Some(given),
        decreases current.forwards.len() - i,
    {
        if !found && current.forwards[i].id == id {
            let f = forward.take().unwrap();
            forwards.push(f);
            proof {
                at = i as int;
            }
            found = true;
            assert(forwards@ =~= current.forwards@.take(i + 1).update(at, given));
        } else {
            forwards.push(copy_forward(&current.forwards[i]));
            if found {
                assert(forwards@ =~= current.forwards@.take(i + 1).update(at, given));
            } else {
                assert(forwards@ =~= current.forwards@.take(i + 1));
            }
        }
        i = i + 1;
    }
    if !found {
        return Err(error_with(404, "forward not found"));
    }
    proof {
        let c = choose|c: int|
            0 <= c < current.forwards@.len() && (#[trigger] current.forwards@[c]).id == id
                && forall|m: int| 0 <= m < c ==> (#[trigger] current.forwards@[m]).id != id;
        if c < at {
            assert(current.forwards@[c].id != id);
        }
        if at < c {
            assert(current.forwards@[at].id != id);
        }
        assert(current.forwards@.take(current.forwards@.len() as int) =~= current.forwards@);
    }
    Ok(with_forwards(current, forwards))
}

/// The forwards that a deletion of `id` keeps.
pub open spec fn forwards_without(forwards: Seq<Forward>, id: u128) -> Seq<Forward> {
    forwards.filter(|f: Forward| f.id != id)
}

/// The next configuration after deleting forward `id`: every forward with
/// that id is dropped, or a 404 answer when none has it.
pub fn with_forward_removed(current: &Config, id: u128) -> (r: Result<Config, ApiError>)
    ensures
        match r {
            Ok(next) => same_settings(next, *current) && next.forwards@ == forwards_without(
                current.forwards@,
                id,
            ) && exists|k: int| 0 <= k < current.forwards@.len() && (#[trigger] current.forwards@[k]).id == id,
            Err(e) => (forall|k: int| 0 <= k < current.forwards@.len() ==> (#[trigger] current.forwards@[k]).id != id)
                && e.status == 404 && e.message@ == not_found_message(),
        },
{
    let ghost p = |f: Forward| f.id != id;
    let mut forwards: Vec<Forward> = Vec::new();
    let mut i: usize = 0;
    while i < current.forwards.len()
        invariant
            0 <= i <= current.forwards@.len(),
            p == (|f: Forward| f.id != id),
            forwards@ == current.forwards@.take(i as int).filter(p),
        decreases current.forwards.len() - i,
    {
        proof {
            assert(current.forwards@.take(i + 1).drop_last() =~= current.forwards@.take(i as int));
            reveal_with_fuel(Seq::filter, 1);
        }
        if current.forwards[i].id != id {
            forwards.push(copy_forward(&current.forwards[i]));
        }
        assert(forwards@ =~= current.forwards@.take(i + 1).filter(p));
        i = i + 1;
    }
    assert(current.forwards@.take(current.forwards@.len() as int) =~= current.forwards@);
    if forwards.len() == current.forwards.len() {
        proof {
            lemma_filter_keeps_all(current.forwards@, id);
        }
        return Err(error_with(404, "forward not found"));
    }
    proof {
        if forall|k: int| 0 <= k < current.forwards@.len() ==> (#[trigger] current.forwards@[k]).id != id {
            lemma_filter_none_removed(current.forwards@, id);
        }
    }
    Ok(with_forwards(current, forwards))
}

proof fn lemma_filter_keeps_all(s: Seq<Forward>, id: u128)
    requires
        forwards_without(s, id).len() == s.len(),
    ensures
        forall|k: int| 0 <= k < s.len() ==> (#[trigger] s[k]).id != id,
    decreases s.len(),
{
    reveal_with_fuel(Seq::filter, 1);
    if s.len() > 0 {
        let t = s.drop_last();
        t.lemma_filter_len_push(|f: Forward| f.id != id, s.last());
        assert(t.push(s.last()) =~= s);
        assert(forwards_without(t, id).len() <= t.len()) by {
            lemma_filter_len_le(t, id);
        }
        lemma_filter_keeps_all(t, id);
        assert forall|k: int| 0 <= k < s.len() implies (#[trigger] s[k]).id != id by {
            if k < t.len() {
                assert(s[k] == t[k]);
            }
        }
    }
}

proof fn lemma_filter_len_le(s: Seq<Forward>, id: u128)
    ensures
        forwards_without(s, id).len() <= s.len(),
    decreases s.len(),
{
    reveal_with_fuel(Seq::filter, 1);
    if s.len() > 0 {
        lemma_filter_len_le(s.drop_last(), id);
    }
}

proof fn lemma_filter_none_removed(s: Seq<Forward>, id: u128)
    requires
        forall|k: int| 0 <= k < s.len() ==> (#[trigger] s[k]).id != id,
    ensures
        forwards_without(s, id) == s,
    decreases s.len(),
{
    reveal_with_fuel(Seq::filter, 1);
    if s.len() > 0 {
        let t = s.drop_last();
        assert forall|k: int| 0 <= k < t.len() implies (#[trigger] t[k]).id != id by {
            assert(t[k] == s[k]);
        }
        lemma_filter_none_removed(t, id);
        assert(s.last().id != id);
        assert(t.push(s.last()) =~= s);
    }
}

/// What to do next while a new configuration replaces the current one.
#[derive(Clone, Debug)]
pub enum ChangeAction {
    /// Apply the new configuration's rules.
    ApplyNext,
    /// Save the new configuration.
    Persist,
    /// Re-apply the current configuration's rules (what comes of that is only
    /// logged), keep the current configuration, and answer with the error.
    RollBack(ApiError),
    /// Make the new configuration current and answer with success.
    Commit,
    /// Answer with the error; nothing was touched.
    Reject(ApiError),
}

/// The first move of a change: a configuration that does not validate is
/// refused with a 400 answer before anything is touched.
pub fn begin_change(next: &Config) -> (a: ChangeAction)
    ensures
        match config_outcome(*next) {
            Ok(()) => a is ApplyNext,
            Err(e) => a matches ChangeAction::Reject(err) && err.status == 400 && err.message@
                == config_error_message(e),
        },
{
    match next.validate() {
        Ok(()) => ChangeAction::ApplyNext,
        Err(e) => ChangeAction::Reject(bad_request(e.message())),
    }
}

/// The move after applying the new rules: save on success; on failure roll
/// back and answer with a 500 answer that carries the failure.
pub fn after_apply(result: Result<(), String>) -> (a: ChangeAction)
    ensures
        match result {
            Ok(()) => a is Persist,
            Err(m) => a matches ChangeAction::RollBack(err) && err.status == 500 && err.message@
                == m@,
        },
{
    match result {
        Ok(()) => ChangeAction::Persist,
        Err(m) => ChangeAction::RollBack(internal(m)),
    }
}

/// The move after saving: commit on success; on failure roll back and answer
/// with a 500 answer that carries the failure.
pub fn after_persist(result: Result<(), String>) -> (a: ChangeAction)
    ensures
        match result {
            Ok(()) => a is Commit,
            Err(m) => a matches ChangeAction::RollBack(err) && err.status == 500 && err.message@
                == m@,
        },
{
    match result {
        Ok(()) => ChangeAction::Commit,
        Err(m) => ChangeAction::RollBack(internal(m)),
    }
}

/// `POST /forwards`: the new forward, under the fresh id `id` that the
/// caller drew, with its destination taken from the tailnet node it names,
/// and the configuration with the forward appended.
pub fn create_forward(
    current: &Config,
    id: u128,
    input: &ForwardInput,
    nodes: &Vec<Node>,
) -> (r: Result<(Forward, Config), ApiError>)
    ensures
        match r {
            Ok((f, next)) => {
                &&& f.id == id
                &&& node_index(nodes@, input.node_id@) matches Some(k) && resolved(
                    *input,
                    id,
                    nodes@[k],
                    f,
                )
                &&& same_settings(next, *current)
                &&& next.forwards@ == current.forwards@.push(f)
            },
            Err(e) => node_index(nodes@, input.node_id@) is None && e.status == 400 && e.message@
                == "destination node is not present in the tailnet"@,
        },
{
    let forward = resolve_forward(input, id, nodes)?;
    let next = with_forward_added(current, copy_forward(&forward));
    Ok((forward, next))
}

/// `PUT /forwards/{id}`: the replacement forward, its destination taken from
/// the tailnet node it names, and the configuration with the first forward of
/// that id replaced; a 400 answer for an unknown node (checked first), a 404
/// answer for an unknown id.
pub fn update_forward(
    current: &Config,
    id: u128,
    input: &ForwardInput,
    nodes: &Vec<Node>,
) -> (r: Result<(Forward, Config), ApiError>)
    ensures
        match r {
            Ok((f, next)) => node_index(nodes@, input.node_id@) matches Some(k) && resolved(
                *input,
                id,
                nodes@[k],
                f,
            ) && (forward_index(current.forwards@, id) matches Some(j) && same_settings(
                next,
                *current,
            ) && next.forwards@ == current.forwards@.update(j, f)),
            Err(e) => if node_index(nodes@, input.node_id@) is None {
                e.status == 400 && e.message@ == "destination node is not present in the tailnet"@
            } else {
                forward_index(current.forwards@, id) is None && e.status == 404 && e.message@
                    == not_found_message()
            },
        },
{
    let forward = resolve_forward(input, id, nodes)?;
    let next = with_forward_replaced(current, id, copy_forward(&forward))?;
    Ok((forward, next))
}

/// `DELETE /forwards/{id}`: the configuration without the forwards of that
/// id, or a 404 answer when there is none.
pub fn delete_forward(current: &Config, id: u128) -> (r: Result<Config, ApiError>)
    ensures
        match r {
            Ok(next) => same_settings(next, *current) && next.forwards@ == forwards_without(
                current.forwards@,
                id,
            ) && exists|k: int| 0 <= k < current.forwards@.len() && (#[trigger] current.forwards@[k]).id == id,
            Err(e) => (forall|k: int| 0 <= k < current.forwards@.len() ==> (#[trigger] current.forwards@[k]).id != id)
                && e.status == 404 && e.message@ == not_found_message(),
        },
{
    with_forward_removed(current, id)
}

/// The live rule that the DNAT rule of forward `f` is reported as.
pub open spec fn installed_rule(f: Forward) -> LiveRuleView {
    LiveRuleView {
        chain: PRE@,
        protocol: protocol_name(f.protocol),
        public_port: f.public_port,
        destination: destination_text(f),
        managed: true,
    }
}

/// Read back as a live rule, the DNAT rule that an update installs for a
/// forward is a managed rule that serves that forward.
pub proof fn law_dnat_rule_reads_back(f: Forward)
    ensures
        rule_of_words(dnat_words(f)) == Some(installed_rule(f)),
        rule_serves(installed_rule(f), f),
{
    reveal_strlit("-A");
    reveal_strlit("-p");
    reveal_strlit("--dport");
    reveal_strlit("-j");
    reveal_strlit("DNAT");
    reveal_strlit("--to-destination");
    reveal_strlit("TAILNAT_PRE");
    crate::text::lemma_decimal(f.public_port as nat);
    let w = dnat_words(f);
    let dec = crate::text::decimal(f.public_port as nat);
    assert(w.len() == 10);
    assert(w[0] == "-A"@);
    assert(w[7] == "DNAT"@);
    assert(has_dnat_jump(w));
    assert("-p"@.len() == 2);
    assert("--dport"@.len() == 7);
    assert(PRE@.len() == 11);
    assert("-p"@ != "--dport"@);
    assert("-A"@[1] != "-p"@[1]);
    assert("DNAT"@.len() == 4);
    assert("-j"@.len() == 2);
    assert("-A"@.len() == 2);
    assert("--to-destination"@.len() == 16);
    assert(first_index(w, "-p"@, 2) == Some(2int));
    assert(first_index(w, "-p"@, 1) == Some(2int));
    assert(first_index(w, "-p"@, 0) == Some(2int));
    assert(first_index(w, "--dport"@, 4) == Some(4int));
    assert(first_index(w, "--dport"@, 3) == Some(4int));
    assert(first_index(w, "--dport"@, 2) == Some(4int));
    assert(first_index(w, "--dport"@, 1) == Some(4int));
    assert(first_index(w, "--dport"@, 0) == Some(4int));
    assert(dec.len() <= 5);
    assert(first_index(w, "--to-destination"@, 8) == Some(8int));
    assert(first_index(w, "--to-destination"@, 7) == Some(8int));
    assert(first_index(w, "--to-destination"@, 6) == Some(8int));
    assert(first_index(w, "--to-destination"@, 5) == Some(8int));
    assert(first_index(w, "--to-destination"@, 4) == Some(8int));
    assert(first_index(w, "--to-destination"@, 3) == Some(8int));
    assert(first_index(w, "--to-destination"@, 2) == Some(8int));
    assert(first_index(w, "--to-destination"@, 1) == Some(8int));
    assert(first_index(w, "--to-destination"@, 0) == Some(8int));
    crate::text::law_port_text_round_trip(f.public_port);
}

proof fn lemma_filter_keeps_managed(live: Seq<LiveRule>)
    requires
        forall|j: int| 0 <= j < live.len() ==> (#[trigger] live[j]).managed,
    ensures
        managed_rules(live) == live,
    decreases live.len(),
{
    reveal_with_fuel(Seq::filter, 1);
    if live.len() > 0 {
        let t = live.drop_last();
        assert forall|j: int| 0 <= j < t.len() implies (#[trigger] t[j]).managed by {
            assert(t[j] == live[j]);
        }
        lemma_filter_keeps_managed(t);
        assert(t.push(live.last()) =~= live);
    }
}

/// When the live managed rules are exactly what an update installs for the
/// enabled forwards (read back in order), the status reports them in sync.
pub proof fn law_installed_rules_in_sync(c: Config, live: Seq<LiveRule>)
    requires
        rule_views(live) == enabled_forwards(c).map_values(|f: Forward| installed_rule(f)),
    ensures
        in_sync(c, live),
{
    let en = enabled_forwards(c);
    assert(rule_views(live).len() == live.len());
    assert forall|j: int| 0 <= j < live.len() implies (#[trigger] live[j]).managed by {
        assert(rule_views(live)[j] == live[j]@);
        assert(rule_views(live)[j] == installed_rule(en[j]));
    }
    lemma_filter_keeps_managed(live);
    assert forall|i: int|
        0 <= i < c.forwards@.len() && (#[trigger] c.forwards@[i]).enabled implies exists|j: int|
        0 <= j < live.len() && (#[trigger] live[j]).managed && rule_serves(live[j]@, c.forwards@[i]) by {
        c.forwards@.lemma_filter_contains(|f: Forward| f.enabled, i);
        assert(en.contains(c.forwards@[i]));
        let j = choose|j: int| 0 <= j < en.len() && en[j] == c.forwards@[i];
        assert(rule_views(live)[j] == live[j]@);
        assert(live[j]@ == installed_rule(en[j]));
        law_dnat_rule_reads_back(en[j]);
        assert(live[j].managed);
    }
}

/// Deleting a forward that was just created, under an id that no other
/// forward has, gives back the forwards from before the creation.
pub proof fn law_delete_undoes_create(forwards: Seq<Forward>, f: Forward)
    requires
        forall|k: int| 0 <= k < forwards.len() ==> (#[trigger] forwards[k]).id != f.id,
    ensures
        forwards_without(forwards.push(f), f.id) == forwards,
{
    reveal_with_fuel(Seq::filter, 1);
    lemma_filter_none_removed(forwards, f.id);
    assert(forwards.push(f).drop_last() =~= forwards);
}

/// A status report is in sync only when the live managed chain holds exactly
/// as many rules as there are enabled forwards (so a stale managed rule for a
/// paused or removed forward puts it out of sync) and every enabled forward
/// is served by a live managed rule; when both hold, it is in sync.
pub proof fn law_in_sync_counts_and_serves(c: Config, live: Seq<LiveRule>)
    ensures
        in_sync(c, live) ==> live.filter(|r: LiveRule| r.managed).len() == c.forwards@.filter(
            |f: Forward| f.enabled,
        ).len(),
        in_sync(c, live) ==> forall|i: int|
            0 <= i < c.forwards@.len() && (#[trigger] c.forwards@[i]).enabled ==> exists|j: int|
                0 <= j < live.len() && (#[trigger] live[j]).managed && live[j]@.protocol
                    == protocol_name(c.forwards@[i].protocol) && live[j]@.public_port
                    == c.forwards@[i].public_port && live[j]@.destination == crate::ipv4::ipv4_text(
                    c.forwards@[i].target_ip,
                ) + seq![':'] + crate::text::decimal(c.forwards@[i].target_port as nat),
        (live.filter(|r: LiveRule| r.managed).len() == c.forwards@.filter(|f: Forward| f.enabled).len()
            && forall|i: int|
            0 <= i < c.forwards@.len() && (#[trigger] c.forwards@[i]).enabled ==> exists|j: int|
                0 <= j < live.len() && (#[trigger] live[j]).managed && live[j]@.protocol
                    == protocol_name(c.forwards@[i].protocol) && live[j]@.public_port
                    == c.forwards@[i].public_port && live[j]@.destination == crate::ipv4::ipv4_text(
                    c.forwards@[i].target_ip,
                ) + seq![':'] + crate::text::decimal(c.forwards@[i].target_port as nat)) ==> in_sync(c, live),
{
    assert(live.filter(|r: LiveRule| r.managed) == managed_rules(live));
    assert(c.forwards@.filter(|f: Forward| f.enabled) == enabled_forwards(c));
}

} // verus!
