use tailnat::ipv4::{parse_ipv4, Ipv4Addr};
use tailnat::model::{
    default_tailnet_interface, is_tailnet_ip, valid_interface, Config, ConfigError, Forward,
    Protocol, ReservedPort,
};
use uuid::Uuid;

fn ip(text: &str) -> Ipv4Addr {
    parse_ipv4(text).unwrap()
}

fn web_rule(id: u128) -> Forward {
    Forward {
        id,
        label: "Web".into(),
        protocol: Protocol::Tcp,
        public_port: 80,
        node_id: "node-a".into(),
        node_name: "node-a".into(),
        target_ip: ip("100.100.0.1"),
        target_port: 80,
        enabled: true,
    }
}

fn base_config(forwards: Vec<Forward>) -> Config {
    Config {
        listen_port: 8787,
        public_interface: "eth0".into(),
        tailscale_interface: "tailscale0".into(),
        allowed_users: vec!["admin@example.com".into()],
        reserved_ports: vec![],
        forwards,
    }
}

#[test]
fn tailnet_range_is_exact() {
    assert!(is_tailnet_ip(ip("100.64.0.1")));
    assert!(is_tailnet_ip(ip("100.127.255.254")));
    assert!(!is_tailnet_ip(ip("100.128.0.1")));
    assert!(!is_tailnet_ip(ip("10.0.0.1")));
}

#[test]
fn duplicate_ports_are_rejected() {
    let id = Uuid::new_v4().as_u128();
    let rule = web_rule(id);
    let mut second = rule.clone();
    second.id = Uuid::new_v4().as_u128();
    let config = base_config(vec![rule.clone(), second]);
    assert!(config.validate().is_err());
}

#[test]
fn duplicate_ports_report_their_rule() {
    let config = base_config(vec![web_rule(1), web_rule(2)]);
    assert_eq!(config.validate(), Err(ConfigError::DuplicatePort));
    assert_eq!(ConfigError::DuplicatePort.message(), "duplicate public protocol/port");
}

#[test]
fn same_port_other_protocol_is_accepted() {
    let mut udp = web_rule(2);
    udp.protocol = Protocol::Udp;
    let config = base_config(vec![web_rule(1), udp]);
    assert_eq!(config.validate(), Ok(()));
}

#[test]
fn paused_forward_still_holds_its_port() {
    let mut paused = web_rule(2);
    paused.enabled = false;
    let config = base_config(vec![paused, web_rule(1)]);
    assert_eq!(config.validate(), Err(ConfigError::DuplicatePort));
}

#[test]
fn each_config_error_has_an_input() {
    let mut c = base_config(vec![web_rule(1)]);
    c.listen_port = 0;
    assert_eq!(c.validate(), Err(ConfigError::ListenPort));

    let mut c = base_config(vec![web_rule(1)]);
    c.tailscale_interface = "eth0".into();
    assert_eq!(c.validate(), Err(ConfigError::Interfaces));

    let mut c = base_config(vec![web_rule(1)]);
    c.public_interface = "eth0/1".into();
    assert_eq!(c.validate(), Err(ConfigError::Interfaces));

    let mut c = base_config(vec![web_rule(1)]);
    c.allowed_users = vec![];
    assert_eq!(c.validate(), Err(ConfigError::AllowedUsers));

    let mut c = base_config(vec![web_rule(1)]);
    c.allowed_users = vec!["admin@example.com".into(), " \t".into()];
    assert_eq!(c.validate(), Err(ConfigError::AllowedUsers));

    let mut other = web_rule(1);
    other.public_port = 81;
    let c = base_config(vec![web_rule(1), other]);
    assert_eq!(c.validate(), Err(ConfigError::DuplicateId));

    let mut f = web_rule(1);
    f.label = "   ".into();
    assert_eq!(base_config(vec![f]).validate(), Err(ConfigError::Label));

    let mut f = web_rule(1);
    f.label = "x".repeat(81);
    assert_eq!(base_config(vec![f]).validate(), Err(ConfigError::Label));

    let mut f = web_rule(1);
    f.label = "\u{e9}".repeat(80);
    assert_eq!(base_config(vec![f]).validate(), Ok(()));

    let mut f = web_rule(1);
    f.target_port = 0;
    assert_eq!(base_config(vec![f]).validate(), Err(ConfigError::Ports));

    let mut f = web_rule(1);
    f.target_ip = ip("192.168.1.10");
    assert_eq!(base_config(vec![f]).validate(), Err(ConfigError::Destination));

    let mut f = web_rule(1);
    f.node_id = "\u{3000}".into();
    assert_eq!(base_config(vec![f]).validate(), Err(ConfigError::Destination));

    let mut c = base_config(vec![web_rule(1)]);
    c.reserved_ports = vec![ReservedPort { protocol: Protocol::Tcp, port: 80 }];
    assert_eq!(c.validate(), Err(ConfigError::ReservedPort));
    assert_eq!(ConfigError::ReservedPort.message(), "a forward uses a reserved local port");
    assert_eq!(
        ConfigError::Label.message(),
        "forward labels must contain 1\u{2013}80 characters"
    );
}

#[test]
fn interface_names() {
    assert!(valid_interface("eth0"));
    assert!(valid_interface("br-lan.10_a"));
    assert!(valid_interface("abcdefghijklmno"));
    assert!(!valid_interface("abcdefghijklmnop"));
    assert!(!valid_interface(""));
    assert!(!valid_interface("eth 0"));
    assert!(!valid_interface("\u{e9}th0"));
    assert_eq!(default_tailnet_interface(), "tailscale0");
}

#[test]
fn protocol_names() {
    assert_eq!(Protocol::Tcp.as_str(), "tcp");
    assert_eq!(Protocol::Udp.as_str(), "udp");
}

#[test]
fn fewer_or_reordered_forwards_stay_valid() {
    let mut udp = web_rule(2);
    udp.protocol = Protocol::Udp;
    let mut ssh = web_rule(3);
    ssh.public_port = 22;
    let full = base_config(vec![web_rule(1), udp.clone(), ssh.clone()]);
    assert_eq!(full.validate(), Ok(()));
    assert_eq!(base_config(vec![ssh.clone(), web_rule(1)]).validate(), Ok(()));
    assert_eq!(base_config(vec![udp, ssh, web_rule(1)]).validate(), Ok(()));
    assert_eq!(base_config(vec![]).validate(), Ok(()));
}
