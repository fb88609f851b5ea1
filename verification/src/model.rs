//! The configuration: forwards, reserved ports, interfaces, and the rules
//! that a configuration must satisfy before it is applied or saved.
use vstd::prelude::*;

use crate::ipv4::Ipv4Addr;
use crate::text::{chars_of, is_blank, is_blank_str};

verus! {

/// Transport protocol of a forward.
#[derive(Clone, Copy, Debug, PartialEq, Eq, Structural)]
pub enum Protocol {
    Tcp,
    Udp,
}

/// The name under which iptables and the API know a protocol.
pub open spec fn protocol_name(p: Protocol) -> Seq<char> {
    match p {
        Protocol::Tcp => seq!['t', 'c', 'p'],
        Protocol::Udp => seq!['u', 'd', 'p'],
    }
}

impl Protocol {
    /// Lower-case protocol name, as iptables spells it.
    pub fn as_str(self) -> (name: &'static str)
        ensures
            name@ == protocol_name(self),
    {
        match self {
            Protocol::Tcp => {
                proof {
                    reveal_strlit("tcp");
                }
                "tcp"
            },
            Protocol::Udp => {
                proof {
                    reveal_strlit("udp");
                }
                "udp"
            },
        }
    }
}

/// A local port that no forward may take.
#[derive(Clone, Copy, Debug, PartialEq, Eq, Structural)]
pub struct ReservedPort {
    pub protocol: Protocol,
    pub port: u16,
}

/// One public port forwarded to a service on a tailnet peer.
/// `id` is the forward's UUID as a 128-bit number.
#[derive(Clone, Debug)]
pub struct Forward {
    pub id: u128,
    pub label: String,
    pub protocol: Protocol,
    pub public_port: u16,
    pub node_id: String,
    pub node_name: String,
    pub target_ip: Ipv4Addr,
    pub target_port: u16,
    pub enabled: bool,
}

/// The editable fields of a forward, as a client sends them.
#[derive(Clone, Debug)]
pub struct ForwardInput {
    pub label: String,
    pub protocol: Protocol,
    pub public_port: u16,
    pub node_id: String,
    pub target_port: u16,
    pub enabled: bool,
}

/// The whole persisted configuration.
#[derive(Clone, Debug)]
pub struct Config {
    pub listen_port: u16,
    pub public_interface: String,
    pub tailscale_interface: String,
    pub allowed_users: Vec<String>,
    pub reserved_ports: Vec<ReservedPort>,
    pub forwards: Vec<Forward>,
}

/// Why a configuration was refused.
#[derive(Clone, Copy, Debug, PartialEq, Eq, Structural)]
pub enum ConfigError {
    ListenPort,
    Interfaces,
    AllowedUsers,
    DuplicateId,
    Label,
    Ports,
    Destination,
    ReservedPort,
    DuplicatePort,
}

/// The message that goes with each refusal.
pub open spec fn config_error_message(e: ConfigError) -> Seq<char> {
    match e {
        ConfigError::ListenPort => "listen_port must be between 1 and 65535"@,
        ConfigError::Interfaces => "invalid or identical network interfaces"@,
        ConfigError::AllowedUsers => "allowed_users must contain at least one Tailscale login"@,
        ConfigError::DuplicateId => "duplicate forward id"@,
        ConfigError::Label => "forward labels must contain 1\u{2013}80 characters"@,
        ConfigError::Ports => "ports must be between 1 and 65535"@,
        ConfigError::Destination => "forward destination must be a Tailscale IPv4 peer"@,
        ConfigError::ReservedPort => "a forward uses a reserved local port"@,
        ConfigError::DuplicatePort => "duplicate public protocol/port"@,
    }
}

impl ConfigError {
    /// The human-readable message of this refusal.
    pub fn message(&self) -> (m: String)
        ensures
            m@ == config_error_message(*self),
    {
        let s = match self {
            ConfigError::ListenPort => "listen_port must be between 1 and 65535",
            ConfigError::Interfaces => "invalid or identical network interfaces",
            ConfigError::AllowedUsers => "allowed_users must contain at least one Tailscale login",
            ConfigError::DuplicateId => "duplicate forward id",
            ConfigError::Label => "forward labels must contain 1\u{2013}80 characters",
            ConfigError::Ports => "ports must be between 1 and 65535",
            ConfigError::Destination => "forward destination must be a Tailscale IPv4 peer",
            ConfigError::ReservedPort => "a forward uses a reserved local port",
            ConfigError::DuplicatePort => "duplicate public protocol/port",
        };
        s.to_owned()
    }
}

/// The interface name that a configuration without one uses.
pub open spec fn default_tailnet_interface_name() -> Seq<char> {
    seq!['t', 'a', 'i', 'l', 's', 'c', 'a', 'l', 'e', '0']
}

/// `"tailscale0"`, the interface that Tailscale creates by default.
pub fn default_tailnet_interface() -> (s: String)
    ensures
        s@ == default_tailnet_interface_name(),
{
    let s = "tailscale0";
    proof {
        reveal_strlit("tailscale0");
    }
    s.to_owned()
}

/// The address lies in Tailscale's range 100.64.0.0/10.
pub open spec fn tailnet_ip(ip: Ipv4Addr) -> bool {
    ip.a == 100 && 64 <= ip.b <= 127
}

/// Whether `ip` is a Tailscale (CGNAT 100.64.0.0/10) address.
pub fn is_tailnet_ip(ip: Ipv4Addr) -> (r: bool)
    ensures
        r == tailnet_ip(ip),
{
    ip.a == 100 && 64 <= ip.b && ip.b <= 127
}

/// A character allowed in an interface name.
pub open spec fn interface_char(c: char) -> bool {
    ||| 'a' <= c <= 'z'
    ||| 'A' <= c <= 'Z'
    ||| '0' <= c <= '9'
    ||| c == '_'
    ||| c == '-'
    ||| c == '.'
}

/// A usable network interface name: 1 to 15 characters, each an ASCII letter,
/// digit, `_`, `-` or `.`.
pub open spec fn interface_name_ok(s: Seq<char>) -> bool {
    &&& 1 <= s.len() <= 15
    &&& forall|i: int| 0 <= i < s.len() ==> interface_char(#[trigger] s[i])
}

/// Whether `value` is a usable network interface name.
pub fn valid_interface(value: &str) -> (r: bool)
    ensures
        r == interface_name_ok(value@),
{
    let v = chars_of(value);
    if v.len() == 0 || v.len() > 15 {
        return false;
    }
    let mut i: usize = 0;
    while i < v.len()
        invariant
            0 <= i <= v@.len(),
            v@ == value@,
            forall|k: int| 0 <= k < i ==> interface_char(#[trigger] v@[k]),
        decreases v.len() - i,
    {
        let c = v[i];
        let ok = (c >= 'a' && c <= 'z') || (c >= 'A' && c <= 'Z') || (c >= '0' && c <= '9') || c
            == '_' || c == '-' || c == '.';
        if !ok {
            assert(!interface_char(v@[i as int]));
            return false;
        }
        i = i + 1;
    }
    true
}

/// The (protocol, public port) pair that a forward occupies.
pub open spec fn forward_key(f: Forward) -> (Protocol, u16) {
    (f.protocol, f.public_port)
}

/// The reserved list holds the (protocol, port) pair.
pub open spec fn is_reserved(c: Config, key: (Protocol, u16)) -> bool {
    exists|k: int|
        0 <= k < c.reserved_ports@.len() && (#[trigger] c.reserved_ports@[k]).protocol == key.0
            && c.reserved_ports@[k].port == key.1
}

/// What is wrong with forward `i`, given that all forwards before it passed.
pub open spec fn forward_problem(c: Config, i: int) -> Option<ConfigError> {
    let f = c.forwards@[i];
    if exists|j: int| 0 <= j < i && (#[trigger] c.forwards@[j]).id == f.id {
        Some(ConfigError::DuplicateId)
    } else if is_blank(f.label@) || f.label@.len() > 80 {
        Some(ConfigError::Label)
    } else if f.public_port == 0 || f.target_port == 0 {
        Some(ConfigError::Ports)
    } else if !tailnet_ip(f.target_ip) || is_blank(f.node_id@) {
        Some(ConfigError::Destination)
    } else if is_reserved(c, forward_key(f)) {
        Some(ConfigError::ReservedPort)
    } else if exists|j: int|
        0 <= j < i && forward_key(#[trigger] c.forwards@[j]) == forward_key(f) {
        Some(ConfigError::DuplicatePort)
    } else {
        None
    }
}

/// The outcome of checking the first `n` forwards in order: the first problem found.
pub open spec fn forwards_outcome(c: Config, n: int) -> Result<(), ConfigError>
    decreases n,
{
    if n <= 0 {
        Ok(())
    } else {
        match forwards_outcome(c, n - 1) {
            Err(e) => Err(e),
            Ok(()) => match forward_problem(c, n - 1) {
                Some(e) => Err(e),
                None => Ok(()),
            },
        }
    }
}

/// The outcome of `Config::validate`: the first rule, in the order the checks
/// run, that the configuration breaks.
pub open spec fn config_outcome(c: Config) -> Result<(), ConfigError> {
    if c.listen_port == 0 {
        Err(ConfigError::ListenPort)
    } else if !interface_name_ok(c.public_interface@) || !interface_name_ok(
        c.tailscale_interface@,
    ) || c.public_interface@ == c.tailscale_interface@ {
        Err(ConfigError::Interfaces)
    } else if c.allowed_users@.len() == 0 || exists|u: int|
        0 <= u < c.allowed_users@.len() && is_blank((#[trigger] c.allowed_users@[u])@) {
        Err(ConfigError::AllowedUsers)
    } else {
        forwards_outcome(c, c.forwards@.len() as int)
    }
}

/// A configuration that `Config::validate` accepts.
pub open spec fn config_valid(c: Config) -> bool {
    config_outcome(c) is Ok
}

impl Config {
    /// Checks the rules of a configuration, reporting the first that fails.
    #[verifier::loop_isolation(false)]
    pub fn validate(&self) -> (r: Result<(), ConfigError>)
        ensures
            r == config_outcome(*self),
    {
        if self.listen_port == 0 {
            return Err(ConfigError::ListenPort);
        }
        if !valid_interface(self.public_interface.as_str()) || !valid_interface(
            self.tailscale_interface.as_str(),
        ) || self.public_interface == self.tailscale_interface {
            return Err(ConfigError::Interfaces);
        }
        if self.allowed_users.len() == 0 {
            return Err(ConfigError::AllowedUsers);
        }
        let mut u: usize = 0;
        while u < self.allowed_users.len()
            invariant
                0 <= u <= self.allowed_users@.len(),
                forall|k: int| 0 <= k < u ==> !is_blank((#[trigger] self.allowed_users@[k])@),
            decreases self.allowed_users.len() - u,
        {
            if is_blank_str(self.allowed_users[u].as_str()) {
                assert(is_blank(self.allowed_users@[u as int]@));
                return Err(ConfigError::AllowedUsers);
            }
            u = u + 1;
        }
        let n = self.forwards.len();
        let mut i: usize = 0;
        while i < n
            invariant
                0 <= i <= n == self.forwards@.len(),
                forwards_outcome(*self, i as int) == Ok::<(), ConfigError>(()),
            decreases n - i,
        {
            match self.forward_problem_at(i) {
                Some(e) => {
                    proof {
                        lemma_forwards_outcome_err(*self, i as int + 1, n as int);
                    }
                    return Err(e);
                },
                None => {},
            }
            i = i + 1;
        }
        Ok(())
    }

    /// What is wrong with forward `i` (see `forward_problem`).
    #[verifier::loop_isolation(false)]
    fn forward_problem_at(&self, i: usize) -> (r: Option<ConfigError>)
        requires
            i < self.forwards@.len(),
        ensures
            r == forward_problem(*self, i as int),
    {
        let f = &self.forwards[i];
        let mut j: usize = 0;
        while j < i
            invariant
                0 <= j <= i < self.forwards@.len(),
                f == self.forwards@[i as int],
                forall|k: int| 0 <= k < j ==> (#[trigger] self.forwards@[k]).id != f.id,
            decreases i - j,
        {
            if self.forwards[j].id == f.id {
                return Some(ConfigError::DuplicateId);
            }
            j = j + 1;
        }
        if is_blank_str(f.label.as_str()) || chars_of(f.label.as_str()).len() > 80 {
            return Some(ConfigError::Label);
        }
        if f.public_port == 0 || f.target_port == 0 {
            return Some(ConfigError::Ports);
        }
        if !is_tailnet_ip(f.target_ip) || is_blank_str(f.node_id.as_str()) {
            return Some(ConfigError::Destination);
        }
        let mut k: usize = 0;
        while k < self.reserved_ports.len()
            invariant
                0 <= k <= self.reserved_ports@.len(),
                i < self.forwards@.len(),
                f == self.forwards@[i as int],
                forall|m: int|
                    0 <= m < k ==> !((#[trigger] self.reserved_ports@[m]).protocol == f.protocol
                        && self.reserved_ports@[m].port == f.public_port),
            decreases self.reserved_ports.len() - k,
        {
            let p = self.reserved_ports[k];
            if p.protocol == f.protocol && p.port == f.public_port {
                assert(self.reserved_ports@[k as int] == p);
                assert(is_reserved(*self, forward_key(*f)));
                return Some(ConfigError::ReservedPort);
            }
            k = k + 1;
        }
        let mut j: usize = 0;
        while j < i
            invariant
                0 <= j <= i < self.forwards@.len(),
                f == self.forwards@[i as int],
                forall|m: int|
                    0 <= m < j ==> forward_key(#[trigger] self.forwards@[m]) != forward_key(*f),
            decreases i - j,
        {
            let g = &self.forwards[j];
            if g.protocol == f.protocol && g.public_port == f.public_port {
                assert(forward_key(self.forwards@[j as int]) == forward_key(*f));
                return Some(ConfigError::DuplicatePort);
            }
            j = j + 1;
        }
        None
    }
}

proof fn lemma_forwards_outcome_err(c: Config, m: int, n: int)
    requires
        forwards_outcome(c, m) is Err,
        0 <= m <= n,
    ensures
        forwards_outcome(c, n) == forwards_outcome(c, m),
    decreases n,
{
    if m < n {
        lemma_forwards_outcome_err(c, m, n - 1);
    }
}

proof fn lemma_forwards_outcome_ok(c: Config, n: int, i: int)
    requires
        forwards_outcome(c, n) is Ok,
        0 <= i < n,
    ensures
        forward_problem(c, i) is None,
    decreases n,
{
    if i < n - 1 {
        lemma_forwards_outcome_ok(c, n - 1, i);
    }
}

/// In a configuration that validates, no two forwards share an id or a
/// (protocol, public port) pair, even where one of them is paused, and no
/// forward uses a reserved local port or a port 0, or points outside the tailnet.
pub proof fn law_valid_config_forwards(c: Config)
    requires
        config_valid(c),
    ensures
        forall|i: int, j: int|
            0 <= i < j < c.forwards@.len() ==> (#[trigger] c.forwards@[i]).id != (
            #[trigger] c.forwards@[j]).id && forward_key(c.forwards@[i]) != forward_key(
                c.forwards@[j],
            ),
        forall|i: int|
            0 <= i < c.forwards@.len() ==> !is_reserved(c, forward_key(#[trigger] c.forwards@[i]))
                && c.forwards@[i].public_port != 0 && c.forwards@[i].target_port != 0
                && tailnet_ip(c.forwards@[i].target_ip),
{
    assert forall|i: int, j: int| 0 <= i < j < c.forwards@.len() implies (
    #[trigger] c.forwards@[i]).id != (#[trigger] c.forwards@[j]).id && forward_key(c.forwards@[i])
        != forward_key(c.forwards@[j]) by {
        lemma_forwards_outcome_ok(c, c.forwards@.len() as int, j);
    }
    assert forall|i: int| 0 <= i < c.forwards@.len() implies !is_reserved(
        c,
        forward_key(#[trigger] c.forwards@[i]),
    ) && c.forwards@[i].public_port != 0 && c.forwards@[i].target_port != 0 && tailnet_ip(
        c.forwards@[i].target_ip,
    ) by {
        lemma_forwards_outcome_ok(c, c.forwards@.len() as int, i);
    }
}

proof fn lemma_forwards_outcome_all_ok(c: Config, n: int)
    requires
        0 <= n <= c.forwards@.len(),
        forall|i: int| 0 <= i < n ==> (#[trigger] forward_problem(c, i)) is None,
    ensures
        forwards_outcome(c, n) is Ok,
    decreases n,
{
    if n > 0 {
        lemma_forwards_outcome_all_ok(c, n - 1);
        assert(forward_problem(c, n - 1) is None);
    }
}

/// Removing or reordering forwards never makes a valid configuration
/// invalid: `d` keeps `c`'s settings, and its forwards are forwards of `c`,
/// forward `k` being `c`'s forward `pick[k]`, no forward of `c` taken twice.
pub proof fn law_fewer_forwards_stay_valid(c: Config, d: Config, pick: Seq<int>)
    requires
        config_valid(c),
        d.listen_port == c.listen_port,
        d.public_interface@ == c.public_interface@,
        d.tailscale_interface@ == c.tailscale_interface@,
        d.allowed_users@ == c.allowed_users@,
        d.reserved_ports@ == c.reserved_ports@,
        pick.len() == d.forwards@.len(),
        forall|k: int|
            0 <= k < pick.len() ==> 0 <= #[trigger] pick[k] < c.forwards@.len() && d.forwards@[k]
                == c.forwards@[pick[k]],
        forall|a: int, b: int| 0 <= a < b < pick.len() ==> pick[a] != pick[b],
    ensures
        config_valid(d),
{
    let n = c.forwards@.len() as int;
    law_valid_config_forwards(c);
    assert(forall|u: int|
        0 <= u < d.allowed_users@.len() ==> (#[trigger] d.allowed_users@[u])@ == c.allowed_users@[u]@);
    assert forall|i: int| 0 <= i < d.forwards@.len() implies (#[trigger] forward_problem(d, i)) is None by {
        let p = pick[i];
        let f = d.forwards@[i];
        assert(f == c.forwards@[p]);
        lemma_forwards_outcome_ok(c, n, p);
        assert forall|j: int| 0 <= j < i implies (#[trigger] d.forwards@[j]).id != f.id
            && forward_key(d.forwards@[j]) != forward_key(f) by {
            let q = pick[j];
            assert(d.forwards@[j] == c.forwards@[q]);
            assert(q != p);
            if q < p {
                assert(c.forwards@[q].id != c.forwards@[p].id);
            } else {
                assert(c.forwards@[p].id != c.forwards@[q].id);
            }
        }
        assert(is_reserved(d, forward_key(f)) == is_reserved(c, forward_key(f)));
    }
    lemma_forwards_outcome_all_ok(d, d.forwards@.len() as int);
}

/// The tailnet range is the CGNAT block 100.64.0.0/10: an address is in it
/// exactly when its top ten bits are those of 100.64.0.0, that is, when its
/// first two octets read as one number fall in the 64 numbers from
/// 100.64 (= 401 * 64) on.
pub proof fn law_tailnet_is_cgnat_block(ip: Ipv4Addr)
    ensures
        tailnet_ip(ip) <==> (ip.a as int * 256 + ip.b as int) / 64 == 401,
{
    let a = ip.a as int;
    let b = ip.b as int;
    assert(0 <= a < 256 && 0 <= b < 256);
    assert((a * 256 + b) / 64 == 401 <==> (a == 100 && 64 <= b <= 127)) by (nonlinear_arith)
        requires
            0 <= a < 256,
            0 <= b < 256,
    {
        if (a * 256 + b) / 64 == 401 {
            assert(25664 <= a * 256 + b < 25728);
            if a <= 99 {
                assert(a * 256 <= 99 * 256);
            }
            if a >= 101 {
                assert(a * 256 >= 101 * 256);
            }
        }
    }
}

/// Every forward of a configuration that validates points into the tailnet
/// block 100.64.0.0/10: its first octet is 100 and its second lies in 64..=127.
pub proof fn law_valid_targets_in_tailnet_block(c: Config)
    requires
        config_valid(c),
    ensures
        forall|i: int|
            0 <= i < c.forwards@.len() ==> (#[trigger] c.forwards@[i]).target_ip.a == 100 && 64
                <= c.forwards@[i].target_ip.b <= 127,
{
    law_valid_config_forwards(c);
}

} // verus!
