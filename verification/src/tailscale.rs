//! What the library reads from the Tailscale CLI: the peers of `tailscale
//! status --json`, the login of `tailscale whois --json`, and this machine's
//! address from `tailscale ip -4`.
use vstd::prelude::*;

use crate::ipv4::{ipv4_from_text, ipv4_text, ipv4_to_string, parse_ipv4, Ipv4Addr};
use crate::model::{is_tailnet_ip, tailnet_ip};
use crate::order::{
    law_text_le_is_lexicographic, prefix_or_first_smaller, stable_order, stable_sort_positions, texts,
};
use crate::text::{chars_of, owned, string_from_range, trim, trimmed};

verus! {

/// A JSON value, as the CLI prints it (numbers kept as their text).
#[derive(Debug)]
pub enum Json {
    Null,
    Bool(bool),
    Number(String),
    String(String),
    Array(Vec<Json>),
    Object(Vec<(String, Json)>),
}

/// `serde_json::Value`, which the CLI's output is parsed into.
#[verifier::external_type_specification]
#[verifier::external_body]
pub struct ExJsonValue(serde_json::Value);

/// What `serde_json::from_str::<serde_json::Value>` makes of `text`, as a
/// [`Json`] (`None` where the text is not JSON). It depends on the text alone.
pub uninterp spec fn json_of_text(text: Seq<char>) -> Option<Json>;

/// A `serde_json::Value` as a [`Json`], variant for variant: numbers by their
/// text (`Number::to_string`), members in the order the map yields them.
#[verifier::external_body]
fn json_from_value(value: serde_json::Value) -> Json {
    match value {
        serde_json::Value::Null => Json::Null,
        serde_json::Value::Bool(b) => Json::Bool(b),
        serde_json::Value::Number(n) => Json::Number(n.to_string()),
        serde_json::Value::String(text) => Json::String(text),
        serde_json::Value::Array(items) => Json::Array(items.into_iter().map(json_from_value).collect()),
        serde_json::Value::Object(members) => Json::Object(
            members.into_iter().map(|(k, v)| (k, json_from_value(v))).collect(),
        ),
    }
}

/// `serde_json::from_str::<serde_json::Value>`: the JSON value that `text`
/// holds, or `None` where serde_json refuses it. The contract names the
/// result (`json_of_text`) and claims no more of it: serde_json's grammar is
/// not restated here.
#[verifier::external_body]
fn parse_json(text: &str) -> (r: Option<Json>)
    ensures
        r == json_of_text(text@),
{
    serde_json::from_str::<serde_json::Value>(text).ok().map(json_from_value)
}

/// A tailnet peer that a forward can point to.
#[derive(Clone, Debug)]
pub struct Node {
    pub id: String,
    pub name: String,
    pub ipv4: Ipv4Addr,
    pub online: bool,
    pub os: String,
}

/// A node, as character sequences.
pub struct NodeView {
    pub id: Seq<char>,
    pub name: Seq<char>,
    pub ipv4: Ipv4Addr,
    pub online: bool,
    pub os: Seq<char>,
}

impl View for Node {
    type V = NodeView;

    open spec fn view(&self) -> NodeView {
        NodeView {
            id: self.id@,
            name: self.name@,
            ipv4: self.ipv4,
            online: self.online,
            os: self.os@,
        }
    }
}

/// The views of a list of nodes.
pub open spec fn node_views(v: Seq<Node>) -> Seq<NodeView> {
    v.map_values(|n: Node| n@)
}

/// The value of the first member named `key`, from position `k` on.
pub open spec fn member_from(members: Seq<(String, Json)>, key: Seq<char>, k: int) -> Option<Json>
    decreases members.len() - k,
{
    if k < 0 || k >= members.len() {
        None
    } else if members[k].0@ == key {
        Some(members[k].1)
    } else {
        member_from(members, key, k + 1)
    }
}

/// The member `key` of an object (`Value::get`); `None` for other values.
pub open spec fn json_get(v: Json, key: Seq<char>) -> Option<Json> {
    match v {
        Json::Object(members) => member_from(members@, key, 0),
        _ => None,
    }
}

/// The text of a JSON string (`Value::as_str`).
pub open spec fn json_str(v: Option<Json>) -> Option<Seq<char>> {
    match v {
        Some(Json::String(s)) => Some(s@),
        _ => None,
    }
}

/// The value of a JSON boolean (`Value::as_bool`).
pub open spec fn json_bool(v: Option<Json>) -> Option<bool> {
    match v {
        Some(Json::Bool(b)) => Some(b),
        _ => None,
    }
}

/// The position of the first `.` in `s` at or after `k`, or its length.
pub open spec fn dot_from(s: Seq<char>, k: int) -> int
    decreases s.len() - k,
{
    if k >= s.len() {
        s.len() as int
    } else if s[k] == '.' {
        k
    } else {
        dot_from(s, k + 1)
    }
}

/// The first label of a DNS name: what comes before its first `.`.
pub open spec fn first_label(s: Seq<char>) -> Seq<char> {
    s.take(dot_from(s, 0))
}

/// A peer's name: the first label of its `DNSName` if that is not empty,
/// else its `HostName`.
pub open spec fn node_name_of(v: Json) -> Option<Seq<char>> {
    match json_str(json_get(v, "DNSName"@)) {
        Some(dns) => if first_label(dns).len() > 0 {
            Some(first_label(dns))
        } else {
            json_str(json_get(v, "HostName"@))
        },
        None => json_str(json_get(v, "HostName"@)),
    }
}

/// The first entry, from position `k` on, that is a string holding a
/// Tailscale IPv4 address.
pub open spec fn tailnet_entry_from(entries: Seq<Json>, k: int) -> Option<Ipv4Addr>
    decreases entries.len() - k,
{
    if k < 0 || k >= entries.len() {
        None
    } else {
        match entries[k] {
            Json::String(s) => match ipv4_from_text(s@) {
                Some(ip) => if tailnet_ip(ip) {
                    Some(ip)
                } else {
                    tailnet_entry_from(entries, k + 1)
                },
                None => tailnet_entry_from(entries, k + 1),
            },
            _ => tailnet_entry_from(entries, k + 1),
        }
    }
}

/// The peer that one entry of the status's `Peer` object describes: it needs
/// a string `ID`, a name, and a Tailscale IPv4 address among its
/// `TailscaleIPs`; `Online` defaults to false and `OS` to `unknown`.
pub open spec fn node_of(v: Json) -> Option<NodeView> {
    match (json_str(json_get(v, "ID"@)), node_name_of(v), json_get(v, "TailscaleIPs"@)) {
        (Some(id), Some(name), Some(Json::Array(entries))) => match tailnet_entry_from(entries@, 0) {
            Some(ip) => Some(
                NodeView {
                    id,
                    name,
                    ipv4: ip,
                    online: match json_bool(json_get(v, "Online"@)) {
                        Some(b) => b,
                        None => false,
                    },
                    os: match json_str(json_get(v, "OS"@)) {
                        Some(s) => s,
                        None => "unknown"@,
                    },
                },
            ),
            None => None,
        },
        _ => None,
    }
}

/// The member `key` of an object (`Value::get`).
#[verifier::loop_isolation(false)]
pub fn json_member<'a>(v: &'a Json, key: &str) -> (r: Option<&'a Json>)
    ensures
        match r {
            Some(x) => json_get(*v, key@) == Some(*x),
            None => json_get(*v, key@) is None,
        },
{
    match v {
        Json::Object(members) => {
            let k_text = owned(key);
            let mut k: usize = 0;
            while k < members.len()
                invariant
                    0 <= k <= members@.len(),
                    k_text@ == key@,
                    member_from(members@, key@, 0) == member_from(members@, key@, k as int),
                decreases members.len() - k,
            {
                if members[k].0 == k_text {
                    return Some(&members[k].1);
                }
                k = k + 1;
            }
            None
        },
        _ => None,
    }
}

/// The text of a JSON string (`Value::as_str`).
pub fn json_as_str(v: Option<&Json>) -> (r: Option<&String>)
    ensures
        match r {
            Some(s) => json_str(match v { Some(x) => Some(*x), None => None }) == Some(s@),
            None => json_str(match v { Some(x) => Some(*x), None => None }) is None,
        },
{
    match v {
        Some(Json::String(s)) => Some(s),
        _ => None,
    }
}

/// The first label of a DNS name.
fn first_label_of(s: &String) -> (r: String)
    ensures
        r@ == first_label(s@),
{
    let v = chars_of(s.as_str());
    let mut k: usize = 0;
    while k < v.len() && v[k] != '.'
        invariant
            0 <= k <= v@.len(),
            v@ == s@,
            dot_from(v@, 0) == dot_from(v@, k as int),
        decreases v.len() - k,
    {
        k = k + 1;
    }
    let r = string_from_range(&v, 0, k);
    assert(r@ =~= first_label(s@));
    r
}

/// The first entry that is a string holding a Tailscale IPv4 address.
fn tailnet_entry(entries: &Vec<Json>) -> (r: Option<Ipv4Addr>)
    ensures
        r == tailnet_entry_from(entries@, 0),
{
    let mut k: usize = 0;
    while k < entries.len()
        invariant
            0 <= k <= entries@.len(),
            tailnet_entry_from(entries@, 0) == tailnet_entry_from(entries@, k as int),
        decreases entries.len() - k,
    {
        match &entries[k] {
            Json::String(s) => {
                match parse_ipv4(s.as_str()) {
                    Some(ip) => {
                        if is_tailnet_ip(ip) {
                            return Some(ip);
                        }
                    },
                    None => {},
                }
            },
            _ => {},
        }
        k = k + 1;
    }
    None
}

/// The peer that one entry of the status's `Peer` object describes.
pub fn node_from_json(value: &Json) -> (r: Option<Node>)
    ensures
        match r {
            Some(n) => node_of(*value) == Some(n@),
            None => node_of(*value) is None,
        },
{
    let id = match json_as_str(json_member(value, "ID")) {
        Some(s) => s.clone(),
        None => {
            return None;
        },
    };
    let from_dns = match json_as_str(json_member(value, "DNSName")) {
        Some(dns) => {
            let label = first_label_of(dns);
            if !label.as_str().is_empty() {
                Some(label)
            } else {
                None
            }
        },
        None => None,
    };
    let name = match from_dns {
        Some(label) => label,
        None => match json_as_str(json_member(value, "HostName")) {
            Some(s) => s.clone(),
            None => {
                return None;
            },
        },
    };
    let ipv4 = match json_member(value, "TailscaleIPs") {
        Some(Json::Array(entries)) => match tailnet_entry(entries) {
            Some(ip) => ip,
            None => {
                return None;
            },
        },
        _ => {
            return None;
        },
    };
    let online = match json_member(value, "Online") {
        Some(Json::Bool(b)) => *b,
        _ => false,
    };
    let os = match json_as_str(json_member(value, "OS")) {
        Some(s) => s.clone(),
        None => owned("unknown"),
    };
    Some(Node { id, name, ipv4, online, os })
}

/// Why the Tailscale CLI's answer could not be used.
#[derive(Clone, Copy, Debug, PartialEq, Eq, Structural)]
pub enum TailscaleError {
    /// `tailscale status --json` had no `Peer` object.
    NoPeerObject,
    /// A whois was asked for an address outside the tailnet.
    NotFromTailnet,
    /// The whois answer names no login (a tagged device).
    NoLogin,
    /// `tailscale ip -4` did not print an IPv4 address.
    InvalidAddress,
    /// `tailscale ip -4` printed an address outside the tailnet.
    NotTailnetAddress,
    /// `tailscale status --json` did not print JSON.
    InvalidStatusJson,
    /// `tailscale whois --json` did not print JSON.
    InvalidWhoisJson,
}

/// The message that goes with each error.
pub open spec fn tailscale_error_message(e: TailscaleError) -> Seq<char> {
    match e {
        TailscaleError::NoPeerObject => "tailscale status has no Peer object"@,
        TailscaleError::NotFromTailnet => "request did not originate from a Tailscale IPv4 address"@,
        TailscaleError::NoLogin => "Tailscale peer has no user login (tagged device?)"@,
        TailscaleError::InvalidAddress => "invalid Tailscale IPv4"@,
        TailscaleError::NotTailnetAddress => "Tailscale did not return a tailnet IPv4 address"@,
        TailscaleError::InvalidStatusJson => "invalid tailscale status JSON"@,
        TailscaleError::InvalidWhoisJson => "invalid tailscale whois JSON"@,
    }
}

impl TailscaleError {
    /// The human-readable message of this error.
    pub fn message(&self) -> (m: String)
        ensures
            m@ == tailscale_error_message(*self),
    {
        let s = match self {
            TailscaleError::NoPeerObject => "tailscale status has no Peer object",
            TailscaleError::NotFromTailnet => "request did not originate from a Tailscale IPv4 address",
            TailscaleError::NoLogin => "Tailscale peer has no user login (tagged device?)",
            TailscaleError::InvalidAddress => "invalid Tailscale IPv4",
            TailscaleError::NotTailnetAddress => "Tailscale did not return a tailnet IPv4 address",
            TailscaleError::InvalidStatusJson => "invalid tailscale status JSON",
            TailscaleError::InvalidWhoisJson => "invalid tailscale whois JSON",
        };
        owned(s)
    }
}

/// What `str::to_lowercase` returns for `s` (Unicode lower-case mapping).
pub uninterp spec fn lowercase(s: Seq<char>) -> Seq<char>;

/// `str::to_lowercase`.
#[verifier::external_body]
fn to_lowercase(s: &str) -> (r: String)
    ensures
        r@ == lowercase(s@),
{
    s.to_lowercase()
}

/// The values of the members of an object, in order.
pub open spec fn member_values(members: Seq<(String, Json)>) -> Seq<Json> {
    members.map_values(|p: (String, Json)| p.1)
}

/// The peers that a status describes, in the order of its `Peer` object, or
/// `None` where it has no `Peer` object.
pub open spec fn status_peers(status: Json) -> Option<Seq<NodeView>> {
    match json_get(status, "Peer"@) {
        Some(Json::Object(members)) => Some(
            member_values(members@).filter_map(|v: Json| node_of(v)),
        ),
        _ => None,
    }
}

/// The sort keys of nodes: their names in lower case.
pub open spec fn name_keys(ns: Seq<NodeView>) -> Seq<Seq<char>> {
    ns.map_values(|n: NodeView| lowercase(n.name))
}

/// `sorted` is `found` sorted by lower-case name, nodes with equal keys kept
/// in their order.
pub open spec fn sorted_by_name(found: Seq<NodeView>, sorted: Seq<NodeView>) -> bool {
    exists|perm: Seq<usize>|
        stable_order(name_keys(found), perm, found.len() as int) && sorted.len() == found.len()
            && forall|i: int| 0 <= i < found.len() ==> sorted[i] == found[#[trigger] perm[i] as int]
}

/// An exact copy of a node.
fn copy_node(n: &Node) -> (r: Node)
    ensures
        r@ == n@,
{
    Node { id: n.id.clone(), name: n.name.clone(), ipv4: n.ipv4, online: n.online, os: n.os.clone() }
}

/// The tailnet peers of a `tailscale status --json` answer, sorted by
/// lower-case name.
pub fn peer_nodes(status: &Json) -> (r: Result<Vec<Node>, TailscaleError>)
    ensures
        match r {
            Ok(v) => status_peers(*status) matches Some(found) && sorted_by_name(found, node_views(v@)),
            Err(e) => status_peers(*status) is None && e == TailscaleError::NoPeerObject,
        },
{
    let members = match json_member(status, "Peer") {
        Some(Json::Object(members)) => members,
        _ => {
            return Err(TailscaleError::NoPeerObject);
        },
    };
    let ghost f = |v: Json| node_of(v);
    let mut found: Vec<Node> = Vec::new();
    let mut k: usize = 0;
    while k < members.len()
        invariant
            0 <= k <= members@.len(),
            f == (|v: Json| node_of(v)),
            node_views(found@) == member_values(members@.take(k as int)).filter_map(f),
        decreases members.len() - k,
    {
        let ghost before = found@;
        match node_from_json(&members[k].1) {
            Some(n) => {
                found.push(n);
            },
            None => {},
        }
        proof {
            let vals = member_values(members@.take(k + 1));
            assert(vals.drop_last() =~= member_values(members@.take(k as int)));
            assert(vals.last() == members@[k as int].1);
            assert(node_views(found@) =~= vals.filter_map(f));
        }
        k = k + 1;
    }
    assert(members@.take(members@.len() as int) =~= members@);
    let ghost found_view = node_views(found@);
    let mut keys: Vec<Vec<char>> = Vec::new();
    let mut k: usize = 0;
    while k < found.len()
        invariant
            0 <= k <= found@.len(),
            found_view == node_views(found@),
            keys@.len() == k,
            texts(keys@) == name_keys(found_view.take(k as int)),
        decreases found.len() - k,
    {
        let key = chars_of(to_lowercase(found[k].name.as_str()).as_str());
        let ghost before = keys@;
        keys.push(key);
        proof {
            assert forall|m: int| 0 <= m < k + 1 implies texts(keys@)[m] == name_keys(
                found_view.take(k + 1),
            )[m] by {
                if m < k {
                    assert(texts(before)[m] == name_keys(found_view.take(k as int))[m]);
                }
            }
        }
        assert(texts(keys@) =~= name_keys(found_view.take(k + 1)));
        k = k + 1;
    }
    assert(found_view.take(found_view.len() as int) =~= found_view);
    let perm = stable_sort_positions(&keys);
    let mut sorted: Vec<Node> = Vec::new();
    let mut i: usize = 0;
    while i < perm.len()
        invariant
            0 <= i <= perm@.len() == found@.len(),
            found_view == node_views(found@),
            stable_order(name_keys(found_view), perm@, found_view.len() as int),
            sorted@.len() == i,
            forall|m: int| 0 <= m < i ==> (#[trigger] node_views(sorted@)[m]) == found_view[perm@[m] as int],
        decreases perm.len() - i,
    {
        let ghost before = sorted@;
        sorted.push(copy_node(&found[perm[i]]));
        proof {
            assert forall|m: int| 0 <= m < i + 1 implies (#[trigger] node_views(sorted@)[m])
                == found_view[perm@[m] as int] by {
                if m < i {
                    assert(node_views(before)[m] == found_view[perm@[m] as int]);
                    assert(sorted@[m] == before[m]);
                }
            }
        }
        i = i + 1;
    }
    proof {
        assert(sorted_by_name(found_view, node_views(sorted@))) by {
            assert forall|m: int| 0 <= m < found_view.len() implies node_views(sorted@)[m]
                == found_view[#[trigger] perm@[m] as int] by {
                assert(node_views(sorted@)[m] == found_view[perm@[m] as int]);
            }
        }
    }
    Ok(sorted)
}

/// The login that a `tailscale whois --json` answer names: the string
/// `UserProfile.LoginName`.
pub open spec fn whois_login_of(reply: Json) -> Option<Seq<char>> {
    match json_get(reply, "UserProfile"@) {
        Some(user) => json_str(json_get(user, "LoginName"@)),
        None => None,
    }
}

/// The arguments of the `tailscale` call that asks who is behind `ip`; only
/// Tailscale addresses are asked about.
pub fn whois_command(ip: Ipv4Addr) -> (r: Result<Vec<String>, TailscaleError>)
    ensures
        match r {
            Ok(args) => tailnet_ip(ip) && crate::firewall::words(args@) == seq![
                "whois"@,
                "--json"@,
                ipv4_text(ip),
            ],
            Err(e) => !tailnet_ip(ip) && e == TailscaleError::NotFromTailnet,
        },
{
    if !is_tailnet_ip(ip) {
        return Err(TailscaleError::NotFromTailnet);
    }
    let mut args: Vec<String> = Vec::new();
    args.push(owned("whois"));
    args.push(owned("--json"));
    args.push(ipv4_to_string(ip));
    assert(crate::firewall::words(args@) =~= seq!["whois"@, "--json"@, ipv4_text(ip)]);
    Ok(args)
}

/// The login that a `tailscale whois --json` answer names.
pub fn reply_login(reply: &Json) -> (r: Result<String, TailscaleError>)
    ensures
        match r {
            Ok(login) => whois_login_of(*reply) == Some(login@),
            Err(e) => whois_login_of(*reply) is None && e == TailscaleError::NoLogin,
        },
{
    let user = match json_member(reply, "UserProfile") {
        Some(u) => u,
        None => {
            return Err(TailscaleError::NoLogin);
        },
    };
    match json_as_str(json_member(user, "LoginName")) {
        Some(s) => Ok(s.clone()),
        None => Err(TailscaleError::NoLogin),
    }
}

/// The tailnet peers, sorted by lower-case name, from what `tailscale status
/// --json` printed.
pub fn nodes(output: &str) -> (r: Result<Vec<Node>, TailscaleError>)
    ensures
        match json_of_text(output@) {
            None => r == Err::<Vec<Node>, TailscaleError>(TailscaleError::InvalidStatusJson),
            Some(status) => match r {
                Ok(v) => status_peers(status) matches Some(found) && sorted_by_name(
                    found,
                    node_views(v@),
                ),
                Err(e) => status_peers(status) is None && e == TailscaleError::NoPeerObject,
            },
        },
{
    match parse_json(output) {
        Some(status) => peer_nodes(&status),
        None => Err(TailscaleError::InvalidStatusJson),
    }
}

/// The login behind `ip`, from what `tailscale whois --json` printed for it;
/// an address outside the tailnet is refused whatever was printed (and the
/// CLI is not to be asked about it: see `whois_command`).
pub fn whois_login(ip: Ipv4Addr, output: &str) -> (r: Result<String, TailscaleError>)
    ensures
        !tailnet_ip(ip) ==> r == Err::<String, TailscaleError>(TailscaleError::NotFromTailnet),
        tailnet_ip(ip) ==> match json_of_text(output@) {
            None => r == Err::<String, TailscaleError>(TailscaleError::InvalidWhoisJson),
            Some(reply) => match r {
                Ok(login) => whois_login_of(reply) == Some(login@),
                Err(e) => whois_login_of(reply) is None && e == TailscaleError::NoLogin,
            },
        },
{
    if !is_tailnet_ip(ip) {
        return Err(TailscaleError::NotFromTailnet);
    }
    match parse_json(output) {
        Some(reply) => reply_login(&reply),
        None => Err(TailscaleError::InvalidWhoisJson),
    }
}

/// This machine's Tailscale address, from what `tailscale ip -4` printed.
pub fn own_ipv4(output: &str) -> (r: Result<Ipv4Addr, TailscaleError>)
    ensures
        r == match ipv4_from_text(trimmed(output@)) {
            Some(ip) => if tailnet_ip(ip) {
                Ok(ip)
            } else {
                Err(TailscaleError::NotTailnetAddress)
            },
            None => Err(TailscaleError::InvalidAddress),
        },
{
    let text = trim(output);
    match parse_ipv4(text.as_str()) {
        Some(ip) => {
            if is_tailnet_ip(ip) {
                Ok(ip)
            } else {
                Err(TailscaleError::NotTailnetAddress)
            }
        },
        None => Err(TailscaleError::InvalidAddress),
    }
}

/// Peers sorted by name come in lexicographic order of their lower-case
/// names: of two peers, the earlier one's name is a prefix of the later
/// one's, or is smaller at the first character where they differ.
pub proof fn law_peers_in_name_order(found: Seq<NodeView>, sorted: Seq<NodeView>)
    requires
        sorted_by_name(found, sorted),
    ensures
        forall|i: int, j: int|
            0 <= i < j < sorted.len() ==> prefix_or_first_smaller(
                lowercase(#[trigger] sorted[i].name),
                lowercase(#[trigger] sorted[j].name),
            ),
{
    let perm = choose|perm: Seq<usize>|
        stable_order(name_keys(found), perm, found.len() as int) && sorted.len() == found.len()
            && forall|i: int| 0 <= i < found.len() ==> sorted[i] == found[#[trigger] perm[i] as int];
    let keys = name_keys(found);
    assert forall|i: int, j: int| 0 <= i < j < sorted.len() implies prefix_or_first_smaller(
        lowercase(#[trigger] sorted[i].name),
        lowercase(#[trigger] sorted[j].name),
    ) by {
        assert(sorted[i] == found[perm[i] as int]);
        assert(sorted[j] == found[perm[j] as int]);
        assert(crate::order::text_le(keys[perm[i] as int], keys[perm[j] as int]));
        law_text_le_is_lexicographic(keys[perm[i] as int], keys[perm[j] as int]);
    }
}


} // verus!
