use tailnat::ipv4::{ipv4_to_string, Ipv4Addr};
use tailnat::tailscale::{
    node_from_json, nodes, own_ipv4, peer_nodes, reply_login, whois_command, whois_login, Json,
    TailscaleError,
};

fn s(text: &str) -> Json {
    Json::String(text.into())
}

fn obj(members: Vec<(&str, Json)>) -> Json {
    Json::Object(members.into_iter().map(|(k, v)| (k.to_string(), v)).collect())
}

fn peer(id: &str, host: &str, dns: Option<&str>, ips: &[&str]) -> Json {
    let mut members = vec![
        ("ID", s(id)),
        ("HostName", s(host)),
        ("TailscaleIPs", Json::Array(ips.iter().map(|i| s(i)).collect())),
    ];
    if let Some(d) = dns {
        members.push(("DNSName", s(d)));
    }
    obj(members)
}

#[test]
fn parses_peer() {
    let value = obj(vec![
        ("ID", s("node-id")),
        ("HostName", s("machine")),
        ("OS", s("linux")),
        ("Online", Json::Bool(true)),
        ("TailscaleIPs", Json::Array(vec![s("100.101.102.103"), s("fd7a:115c:a1e0::1")])),
    ]);
    let node = node_from_json(&value).unwrap();
    assert_eq!(node.name, "machine");
    assert_eq!(ipv4_to_string(node.ipv4), "100.101.102.103");
}

#[test]
fn peer_fields_and_defaults() {
    let node = node_from_json(&peer(
        "n1",
        "host",
        Some("gateway.tail1234.ts.net."),
        &["fd7a::1", "192.168.0.1", "100.64.0.7"],
    ))
    .unwrap();
    assert_eq!(node.id, "n1");
    assert_eq!(node.name, "gateway");
    assert_eq!(node.ipv4, Ipv4Addr::new(100, 64, 0, 7));
    assert!(!node.online);
    assert_eq!(node.os, "unknown");

    let node = node_from_json(&peer("n2", "host", Some(".odd"), &["100.64.0.8"])).unwrap();
    assert_eq!(node.name, "host");

    assert!(node_from_json(&peer("n3", "host", None, &["10.0.0.1"])).is_none());
    assert!(node_from_json(&obj(vec![("HostName", s("h")), ("TailscaleIPs", Json::Array(vec![s("100.64.0.1")]))])).is_none());
    assert!(node_from_json(&obj(vec![("ID", Json::Number("7".into())), ("HostName", s("h")), ("TailscaleIPs", Json::Array(vec![s("100.64.0.1")]))])).is_none());
    assert!(node_from_json(&Json::Null).is_none());
}

#[test]
fn nodes_sorted_by_lower_case_name() {
    let status = obj(vec![(
        "Peer",
        obj(vec![
            ("k1", peer("a", "zeta", None, &["100.64.0.1"])),
            ("k2", peer("b", "Alpha", None, &["100.64.0.2"])),
            ("k3", peer("c", "beta", None, &["10.0.0.3"])),
            ("k4", peer("d", "alpha", None, &["100.64.0.4"])),
            ("k5", peer("e", "\u{c9}cole", None, &["100.64.0.5"])),
            ("k6", peer("f", "Zed", None, &["100.64.0.6"])),
            ("k7", peer("g", "apple", None, &["100.64.0.7"])),
        ]),
    )]);
    let list = peer_nodes(&status).unwrap();
    let ids: Vec<&str> = list.iter().map(|n| n.id.as_str()).collect();
    assert_eq!(ids, vec!["b", "d", "g", "f", "a", "e"]);
    assert_eq!(peer_nodes(&obj(vec![])).err(), Some(TailscaleError::NoPeerObject));
    assert_eq!(peer_nodes(&obj(vec![("Peer", Json::Array(vec![]))])).err(), Some(TailscaleError::NoPeerObject));
    assert_eq!(
        TailscaleError::NoPeerObject.message(),
        "tailscale status has no Peer object"
    );
}

#[test]
fn whois_login_and_command() {
    let reply = obj(vec![("UserProfile", obj(vec![("LoginName", s("admin@example.com"))]))]);
    assert_eq!(reply_login(&reply).unwrap(), "admin@example.com");
    assert_eq!(reply_login(&obj(vec![("UserProfile", obj(vec![]))])).err(), Some(TailscaleError::NoLogin));
    assert_eq!(
        whois_command(Ipv4Addr::new(100, 100, 1, 2)).unwrap(),
        vec!["whois".to_string(), "--json".to_string(), "100.100.1.2".to_string()]
    );
    assert_eq!(whois_command(Ipv4Addr::new(8, 8, 8, 8)).err(), Some(TailscaleError::NotFromTailnet));
    assert_eq!(
        TailscaleError::NotFromTailnet.message(),
        "request did not originate from a Tailscale IPv4 address"
    );
}

#[test]
fn own_address() {
    assert_eq!(own_ipv4("100.101.102.103\n"), Ok(Ipv4Addr::new(100, 101, 102, 103)));
    assert_eq!(own_ipv4("192.168.1.1\n"), Err(TailscaleError::NotTailnetAddress));
    assert_eq!(own_ipv4("not an address"), Err(TailscaleError::InvalidAddress));
    assert_eq!(TailscaleError::InvalidAddress.message(), "invalid Tailscale IPv4");
}

#[test]
fn nodes_from_cli_text() {
    let text = r#"{
        "Self": {"ID": "me"},
        "Peer": {
            "nodekey:2": {"ID": "b", "HostName": "zeta", "DNSName": "zeta.tail.ts.net.",
                          "OS": "linux", "Online": true, "TailscaleIPs": ["100.64.0.2"]},
            "nodekey:1": {"ID": "a", "HostName": "Alpha", "TailscaleIPs": ["fd7a::1", "100.64.0.1"]},
            "nodekey:3": {"ID": "c", "HostName": "outside", "TailscaleIPs": ["10.0.0.3"]}
        }
    }"#;
    let list = nodes(text).unwrap();
    assert_eq!(list.len(), 2);
    assert_eq!(list[0].id, "a");
    assert_eq!(list[0].ipv4, Ipv4Addr::new(100, 64, 0, 1));
    assert_eq!(list[1].name, "zeta");
    assert!(list[1].online);
    assert_eq!(list[1].os, "linux");
    assert_eq!(nodes("{}").err(), Some(TailscaleError::NoPeerObject));
    assert_eq!(nodes("not json").err(), Some(TailscaleError::InvalidStatusJson));
    assert_eq!(TailscaleError::InvalidStatusJson.message(), "invalid tailscale status JSON");
}

#[test]
fn whois_login_from_cli_text() {
    let ip = Ipv4Addr::new(100, 100, 1, 2);
    let reply = r#"{"Node": {"ID": "n"}, "UserProfile": {"ID": 7, "LoginName": "admin@example.com"}}"#;
    assert_eq!(whois_login(ip, reply).unwrap(), "admin@example.com");
    assert_eq!(whois_login(ip, r#"{"UserProfile": {}}"#).err(), Some(TailscaleError::NoLogin));
    assert_eq!(whois_login(ip, "{").err(), Some(TailscaleError::InvalidWhoisJson));
    assert_eq!(
        whois_login(Ipv4Addr::new(192, 168, 1, 2), reply).err(),
        Some(TailscaleError::NotFromTailnet)
    );
    assert_eq!(TailscaleError::InvalidWhoisJson.message(), "invalid tailscale whois JSON");
}
