use tailnat::api::{
    after_apply, after_persist, authorize, authorize_peer, bad_request, begin_change,
    create_forward, delete_forward, eq_ignore_case, internal, resolve_forward, status_summary,
    update_forward, with_forward_added, with_forward_removed, ChangeAction, Method,
};
use tailnat::ipv4::{parse_ipv4, Ipv4Addr};
use tailnat::live::parse_live_rules;
use tailnat::model::{Config, Forward, ForwardInput, Protocol};
use tailnat::tailscale::Node;

fn node(id: &str, name: &str, ip: &str) -> Node {
    Node {
        id: id.into(),
        name: name.into(),
        ipv4: parse_ipv4(ip).unwrap(),
        online: true,
        os: "linux".into(),
    }
}

fn input(node_id: &str, port: u16) -> ForwardInput {
    ForwardInput {
        label: "  Example web service ".into(),
        protocol: Protocol::Tcp,
        public_port: port,
        node_id: node_id.into(),
        target_port: 443,
        enabled: true,
    }
}

fn config(forwards: Vec<Forward>) -> Config {
    Config {
        listen_port: 8787,
        public_interface: "eth0".into(),
        tailscale_interface: "tailscale0".into(),
        allowed_users: vec!["Admin@Example.com".into()],
        reserved_ports: vec![],
        forwards,
    }
}

#[test]
fn peers_outside_the_tailnet_are_refused() {
    assert_eq!(authorize_peer(Some(Ipv4Addr::new(100, 64, 0, 1))).unwrap(), Ipv4Addr::new(100, 64, 0, 1));
    let e = authorize_peer(Some(Ipv4Addr::new(203, 0, 113, 1))).unwrap_err();
    assert_eq!((e.status, e.message.as_str()), (403, "Tailscale IPv4 access required"));
    assert_eq!(authorize_peer(None).unwrap_err().status, 403);
    let users = vec!["admin@example.com".to_string()];
    for peer in [None, Some(Ipv4Addr::new(100, 128, 0, 1))] {
        let e = authorize(peer, &users, Some("admin@example.com".into()), Method::Get, None, None)
            .unwrap_err();
        assert_eq!((e.status, e.message.as_str()), (403, "Tailscale IPv4 access required"));
    }
}

#[test]
fn logins_and_origins() {
    let users = vec!["Admin@Example.com".to_string()];
    let peer = Some(Ipv4Addr::new(100, 64, 0, 1));
    assert!(authorize(peer, &users, Some("admin@example.COM".into()), Method::Get, None, None).is_ok());
    let e = authorize(peer, &users, None, Method::Get, None, None).unwrap_err();
    assert_eq!(e.message, "Tailscale identity unavailable");
    let e = authorize(peer, &users, Some("eve@example.com".into()), Method::Get, None, None).unwrap_err();
    assert_eq!(e.message, "Tailscale user is not allowed");
    let ok = authorize(
        peer,
        &users,
        Some("admin@example.com".into()),
        Method::Other,
        Some(Some("http://gw:8787".into())),
        Some("gw:8787".into()),
    );
    assert!(ok.is_ok());
    let e = authorize(
        peer,
        &users,
        Some("admin@example.com".into()),
        Method::Other,
        Some(Some("http://evil".into())),
        Some("gw:8787".into()),
    )
    .unwrap_err();
    assert_eq!((e.status, e.message.as_str()), (403, "cross-origin mutation rejected"));
    assert!(authorize(peer, &users, Some("admin@example.com".into()), Method::Other, None, None).is_ok());
    assert!(authorize(peer, &users, Some("admin@example.com".into()), Method::Head, Some(Some("http://evil".into())), None).is_ok());
    assert!(eq_ignore_case("\u{c9}A", "\u{c9}a"));
    assert!(!eq_ignore_case("\u{c9}", "\u{e9}"));
}

#[test]
fn resolving_and_editing_forwards() {
    let nodes = vec![node("n1", "alpha", "100.101.102.103"), node("n2", "beta", "100.64.0.2")];
    let f = resolve_forward(&input("n1", 8443), 7, &nodes).unwrap();
    assert_eq!(f.label, "Example web service");
    assert_eq!(f.target_ip, Ipv4Addr::new(100, 101, 102, 103));
    assert_eq!(f.node_name, "alpha");
    let e = resolve_forward(&input("ghost", 8443), 7, &nodes).unwrap_err();
    assert_eq!((e.status, e.message.as_str()), (400, "destination node is not present in the tailnet"));

    let empty = config(vec![]);
    let id = uuid::Uuid::new_v4().as_u128();
    let (created, next) = create_forward(&empty, id, &input("n2", 9000), &nodes).unwrap();
    assert_eq!(created.id, id);
    assert_eq!(next.forwards.len(), 1);
    assert_eq!(next.forwards[0].id, id);
    assert_eq!(next.forwards[0].target_ip, Ipv4Addr::new(100, 64, 0, 2));
    let e = create_forward(&empty, id, &input("ghost", 9000), &nodes).unwrap_err();
    assert_eq!(e.status, 400);

    let (updated, after) = update_forward(&next, created.id, &input("n1", 9001), &nodes).unwrap();
    assert_eq!(after.forwards.len(), 1);
    assert_eq!(after.forwards[0].public_port, 9001);
    assert_eq!(updated.id, created.id);
    assert_eq!(update_forward(&next, created.id + 1, &input("n1", 9001), &nodes).unwrap_err().status, 404);
    assert_eq!(update_forward(&next, created.id + 1, &input("ghost", 9001), &nodes).unwrap_err().status, 400);

    let removed = delete_forward(&after, created.id).unwrap();
    assert!(removed.forwards.is_empty());
    let e = delete_forward(&removed, created.id).unwrap_err();
    assert_eq!((e.status, e.message.as_str()), (404, "forward not found"));
}

#[test]
fn delete_after_create_restores_forwards() {
    let nodes = vec![node("n1", "alpha", "100.101.102.103")];
    let base = config(vec![resolve_forward(&input("n1", 80), 1, &nodes).unwrap()]);
    let f = resolve_forward(&input("n1", 81), 2, &nodes).unwrap();
    let grown = with_forward_added(&base, f);
    assert_eq!(grown.forwards.len(), 2);
    let back = with_forward_removed(&grown, 2).unwrap();
    assert_eq!(back.forwards.len(), 1);
    assert_eq!(back.forwards[0].id, 1);
    assert_eq!(back.allowed_users, base.allowed_users);
}

#[test]
fn status_counts_and_sync() {
    let nodes = vec![node("n1", "alpha", "100.100.1.2")];
    let mut paused = resolve_forward(&input("n1", 22), 2, &nodes).unwrap();
    paused.enabled = false;
    let c = config(vec![resolve_forward(&input("n1", 8443), 1, &nodes).unwrap(), paused]);
    let live = parse_live_rules(
        "-A TAILNAT_PRE -p tcp -m tcp --dport 8443 -j DNAT --to-destination 100.100.1.2:443\n\
         -A OTHER -p udp --dport 9987 -j DNAT --to-destination 100.100.1.3:9987\n",
    );
    let s = status_summary(&c, &live);
    assert_eq!(s.configured_forwards, 2);
    assert_eq!(s.enabled_forwards, 1);
    assert_eq!(s.live_managed_rules, 1);
    assert!(s.in_sync);
    let drifted = parse_live_rules(
        "-A TAILNAT_PRE -p tcp --dport 8443 -j DNAT --to-destination 100.100.1.2:444\n",
    );
    assert!(!status_summary(&c, &drifted).in_sync);
    assert!(!status_summary(&c, &vec![]).in_sync);
}

#[test]
fn change_moves() {
    let mut c = config(vec![]);
    assert!(matches!(begin_change(&c), ChangeAction::ApplyNext));
    c.listen_port = 0;
    match begin_change(&c) {
        ChangeAction::Reject(e) => assert_eq!((e.status, e.message.as_str()), (400, "listen_port must be between 1 and 65535")),
        _ => panic!("expected a rejection"),
    }
    assert!(matches!(after_apply(Ok(())), ChangeAction::Persist));
    match after_apply(Err("iptables failed".into())) {
        ChangeAction::RollBack(e) => assert_eq!((e.status, e.message.as_str()), (500, "iptables failed")),
        _ => panic!("expected a rollback"),
    }
    assert!(matches!(after_persist(Ok(())), ChangeAction::Commit));
    assert!(matches!(after_persist(Err("disk full".into())), ChangeAction::RollBack(_)));
    assert_eq!(bad_request("x".into()).status, 400);
    assert_eq!(internal("y".into()).status, 500);
}
