use tailnat::firewall::{
    advance, apply, ensure_chain, guard_spec, ipt, remove_all_jumps, start, Action, Op,
    Outcome, Stage,
};
use tailnat::api::status_summary;
use tailnat::ipv4::parse_ipv4;
use tailnat::live::{live_rules, parse_live_rules};
use tailnat::model::{Config, ConfigError, Forward, Protocol};

fn forward(id: u128, port: u16, target: &str, target_port: u16, enabled: bool) -> Forward {
    Forward {
        id,
        label: format!("rule {id}"),
        protocol: Protocol::Tcp,
        public_port: port,
        node_id: "node".into(),
        node_name: "node".into(),
        target_ip: parse_ipv4(target).unwrap(),
        target_port,
        enabled,
    }
}

fn config(forwards: Vec<Forward>) -> Config {
    Config {
        listen_port: 8787,
        public_interface: "eth0".into(),
        tailscale_interface: "tailscale0".into(),
        allowed_users: vec!["admin@example.com".into()],
        reserved_ports: vec![],
        forwards,
    }
}

fn words(v: &[&str]) -> Vec<String> {
    v.iter().map(|s| s.to_string()).collect()
}

fn runs(op: &Op) -> Vec<String> {
    match op {
        Op::Run(a) => a.clone(),
        Op::RunUnless(_, a) => a.clone(),
        Op::DeleteAll(_, a) => a.clone(),
    }
}

#[test]
fn parses_managed_and_external_dnat() {
    let rules = parse_live_rules(
        "-A TAILNAT_PRE -p tcp -m tcp --dport 443 -j DNAT --to-destination 100.100.1.2:8443\n\
         -A OTHER -p udp --dport 9987 -j DNAT --to-destination 100.100.1.3:9987\n",
    );
    assert_eq!(rules.len(), 2);
    assert!(rules[0].managed);
    assert_eq!(rules[0].public_port, 443);
    assert!(!rules[1].managed);
}

#[test]
fn live_rule_fields_and_skipped_lines() {
    let rules = parse_live_rules(
        "*nat\r\n:PREROUTING ACCEPT [0:0]\r\n\
         -A TAILNAT_PRE -p udp --dport +0053 -j DNAT --to-destination 100.64.0.9:53\r\n\
         -A TAILNAT_PRE -p tcp -j DNAT --to-destination 100.64.0.9:80\n\
         -A TAILNAT_PRE -p tcp --dport 70000 -j DNAT --to-destination 100.64.0.9:80\n\
         -A TAILNAT_PRE -p tcp --dport 22 -j ACCEPT\n\
         -I TAILNAT_PRE -p tcp --dport 22 -j DNAT --to-destination x\n\
         COMMIT\n\
         -A POSTROUTING -p tcp --dport 8080 -j DNAT --to-destination 100.64.0.7:80",
    );
    assert_eq!(rules.len(), 2);
    assert_eq!(rules[0].chain, "TAILNAT_PRE");
    assert_eq!(rules[0].protocol, "udp");
    assert_eq!(rules[0].public_port, 53);
    assert_eq!(rules[0].destination, "100.64.0.9:53");
    assert!(rules[0].managed);
    assert_eq!(rules[1].chain, "POSTROUTING");
    assert_eq!(rules[1].public_port, 8080);
    assert!(!rules[1].managed);
    assert!(parse_live_rules("").is_empty());
}

#[test]
fn live_rules_passes_failure_through() {
    let failed: Result<String, &str> = Err("iptables-save failed");
    assert_eq!(live_rules(failed).err(), Some("iptables-save failed"));
    let ok: Result<String, &str> =
        Ok("-A TAILNAT_PRE -p tcp --dport 1 -j DNAT --to-destination 100.64.0.1:2\n".into());
    assert_eq!(live_rules(ok).unwrap().len(), 1);
}

#[test]
fn argument_lists() {
    assert_eq!(
        ipt("nat", &words(&["-F", "TAILNAT_PRE"])),
        words(&["-w", "10", "-t", "nat", "-F", "TAILNAT_PRE"])
    );
    match ensure_chain("filter", "TAILNAT_FWD") {
        Op::RunUnless(check, create) => {
            assert_eq!(check, words(&["-w", "10", "-t", "filter", "-S", "TAILNAT_FWD"]));
            assert_eq!(create, words(&["-w", "10", "-t", "filter", "-N", "TAILNAT_FWD"]));
        }
        _ => panic!("ensure_chain must check first"),
    }
    match remove_all_jumps("nat", "POSTROUTING", &words(&["-j", "TAILNAT_POST"])) {
        Op::DeleteAll(check, delete) => {
            assert_eq!(check, words(&["-w", "10", "-t", "nat", "-C", "POSTROUTING", "-j", "TAILNAT_POST"]));
            assert_eq!(delete, words(&["-w", "10", "-t", "nat", "-D", "POSTROUTING", "-j", "TAILNAT_POST"]));
        }
        _ => panic!("remove_all_jumps must delete in a loop"),
    }
    let c = config(vec![]);
    assert_eq!(guard_spec(&c), words(&["-i", "eth0", "-o", "tailscale0", "-j", "DROP"]));
}

#[test]
fn plan_for_two_forwards_to_one_target() {
    let c = config(vec![
        forward(1, 443, "100.100.1.2", 8443, true),
        forward(2, 8443, "100.100.1.2", 8443, true),
        forward(3, 22, "100.100.1.3", 22, false),
    ]);
    let plan = apply(&c).unwrap();
    assert_eq!(plan.len(), 8 + 5 + 7);
    assert_eq!(
        runs(&plan[3]),
        words(&["-w", "10", "-t", "filter", "-I", "FORWARD", "1", "-i", "eth0", "-o", "tailscale0", "-j", "DROP"])
    );
    assert_eq!(
        runs(&plan[8]),
        words(&[
            "-w", "10", "-t", "nat", "-A", "TAILNAT_PRE", "-p", "tcp", "--dport", "443", "-j", "DNAT",
            "--to-destination", "100.100.1.2:8443",
        ])
    );
    assert_eq!(
        runs(&plan[9]),
        words(&[
            "-w", "10", "-t", "filter", "-I", "TAILNAT_FWD", "1", "-m", "conntrack", "--ctstate", "DNAT",
            "-d", "100.100.1.2", "-p", "tcp", "--dport", "8443", "-j", "ACCEPT",
        ])
    );
    assert_eq!(
        runs(&plan[10]),
        words(&[
            "-w", "10", "-t", "nat", "-A", "TAILNAT_POST", "-m", "conntrack", "--ctstate", "DNAT", "-d",
            "100.100.1.2", "-o", "tailscale0", "-p", "tcp", "--dport", "8443", "-j", "MASQUERADE",
        ])
    );
    let dnat_count = plan
        .iter()
        .filter(|op| {
            let a = runs(op);
            a.len() == 14 && a[3] == "nat" && a[4] == "-A" && a[5] == "TAILNAT_PRE"
        })
        .count();
    assert_eq!(dnat_count, 2);
    assert_eq!(
        runs(plan.last().unwrap()),
        words(&["-w", "10", "-t", "filter", "-D", "FORWARD", "-i", "eth0", "-o", "tailscale0", "-j", "DROP"])
    );
    let guard_deletes = plan
        .iter()
        .filter(|op| runs(op) == runs(plan.last().unwrap()))
        .count();
    assert_eq!(guard_deletes, 1);
}

#[test]
fn invalid_config_plans_nothing() {
    let mut c = config(vec![forward(1, 443, "100.100.1.2", 8443, true)]);
    c.listen_port = 0;
    assert_eq!(apply(&c).err(), Some(ConfigError::ListenPort));
}

#[test]
fn walk_skips_existing_and_deletes_until_gone() {
    let plan = apply(&config(vec![])).unwrap();
    let (cursor, action) = start(&plan);
    assert_eq!(cursor.index, 0);
    assert!(matches!(action, Action::Check(_)));
    // The chain exists: the step is skipped.
    let (cursor, action) = advance(&plan, cursor, Outcome::Checked(true));
    assert_eq!(cursor.index, 1);
    assert!(matches!(action, Action::Check(_)));
    // The chain is missing: it is created.
    let (cursor, action) = advance(&plan, cursor, Outcome::Checked(false));
    assert_eq!((cursor.index, cursor.stage), (1, Stage::AwaitRun));
    match action {
        Action::Run(a) => assert_eq!(a, words(&["-w", "10", "-t", "nat", "-N", "TAILNAT_PRE"])),
        _ => panic!("expected a run"),
    }
    let (mut cursor, _) = advance(&plan, cursor, Outcome::Ran);
    assert_eq!(cursor.index, 2);
    // Walk the rest, answering every check with "present" twice for the
    // loop steps, and count the deletions that the walk asks for.
    let mut deletes = 0;
    let mut present: std::collections::HashMap<usize, usize> = std::collections::HashMap::new();
    loop {
        let outcome = match cursor.stage {
            Stage::AwaitCheck => {
                let seen = present.entry(cursor.index).or_insert(0);
                *seen += 1;
                Outcome::Checked(*seen <= 2)
            }
            Stage::AwaitRun => Outcome::Ran,
            Stage::Done => break,
        };
        let (next, action) = advance(&plan, cursor, outcome);
        if let Action::Run(a) = &action {
            if a[4] == "-D" {
                deletes += 1;
            }
        }
        if let Action::Finish = action {
            assert_eq!(next.stage, Stage::Done);
        }
        cursor = next;
    }
    // Four delete-while-present steps, each deleting twice.
    assert_eq!(deletes, 8);
}

#[test]
fn masquerade_once_per_target() {
    let c = config(vec![
        forward(1, 443, "100.100.1.2", 8443, true),
        forward(2, 8443, "100.100.1.2", 8443, true),
        forward(3, 2222, "100.100.1.2", 22, true),
        forward(4, 2223, "100.100.1.3", 22, false),
    ]);
    let plan = apply(&c).unwrap();
    let masquerades: Vec<Vec<String>> = plan
        .iter()
        .map(runs)
        .filter(|a| a.len() == 20 && a[3] == "nat" && a[5] == "TAILNAT_POST")
        .collect();
    assert_eq!(masquerades.len(), 2);
    assert_ne!(masquerades[0], masquerades[1]);
    assert_eq!(masquerades[1][17], "22");
}

#[test]
fn applied_rules_read_back_in_sync() {
    let c = config(vec![
        forward(1, 443, "100.100.1.2", 8443, true),
        forward(2, 53, "100.100.1.3", 5353, true),
        forward(3, 22, "100.100.1.3", 22, false),
    ]);
    let plan = apply(&c).unwrap();
    let mut saved = String::new();
    for op in &plan {
        let a = runs(op);
        if a.len() == 14 && a[3] == "nat" && a[4] == "-A" && a[5] == "TAILNAT_PRE" {
            saved.push_str(&a[4..].join(" "));
            saved.push('\n');
        }
    }
    let live = parse_live_rules(&saved);
    assert_eq!(live.len(), 2);
    assert_eq!(live[1].destination, "100.100.1.3:5353");
    let status = status_summary(&c, &live);
    assert!(status.in_sync);
    assert_eq!(status.live_managed_rules, 2);
}

#[test]
fn filter_chain_ends_in_drop() {
    let c = config(vec![
        forward(1, 443, "100.100.1.2", 8443, true),
        forward(2, 53, "100.100.1.3", 5353, false),
        forward(3, 80, "100.100.1.4", 8080, true),
    ]);
    let plan = apply(&c).unwrap();
    let mut chain: Vec<Vec<String>> = vec![words(&["-j", "ACCEPT"])];
    for op in &plan {
        if let Op::Run(a) = op {
            if a.len() > 5 && a[3] == "filter" && a[5] == "TAILNAT_FWD" {
                match a[4].as_str() {
                    "-F" => chain.clear(),
                    "-A" => chain.push(a[6..].to_vec()),
                    "-I" if a[6] == "1" => chain.insert(0, a[7..].to_vec()),
                    _ => {}
                }
            }
        }
    }
    assert_eq!(chain.len(), 3);
    assert_eq!(chain[2], words(&["-j", "DROP"]));
    assert_eq!(chain[0][5], "100.100.1.4");
    assert_eq!(chain[1][5], "100.100.1.2");
}

/// A toy iptables: chains by (table, name), each a list of rules.
struct Tables {
    chains: std::collections::HashMap<(String, String), Vec<Vec<String>>>,
}

impl Tables {
    fn run(&mut self, a: &[String]) -> bool {
        let table = a[3].clone();
        let chain = a[5].clone();
        let key = (table, chain);
        match a[4].as_str() {
            "-S" => self.chains.contains_key(&key),
            "-N" => {
                self.chains.insert(key, vec![]);
                true
            }
            "-F" => {
                self.chains.insert(key, vec![]);
                true
            }
            "-A" => {
                self.chains.entry(key).or_default().push(a[6..].to_vec());
                true
            }
            "-I" => {
                self.chains.entry(key).or_default().insert(0, a[7..].to_vec());
                true
            }
            "-C" => self.chains.get(&key).map_or(false, |c| c.iter().any(|r| r == &a[6..])),
            "-D" => {
                let c = self.chains.entry(key).or_default();
                let at = c.iter().position(|r| r == &a[6..]).unwrap();
                c.remove(at);
                true
            }
            other => panic!("unexpected {other}"),
        }
    }

    fn count(&self, table: &str, chain: &str, rule: &[&str]) -> usize {
        let rule = words(rule);
        self.chains
            .get(&(table.to_string(), chain.to_string()))
            .map_or(0, |c| c.iter().filter(|r| **r == rule).count())
    }

    fn walk(&mut self, plan: &Vec<Op>) {
        let (mut cursor, mut action) = start(plan);
        loop {
            let outcome = match &action {
                Action::Finish => return,
                Action::Check(a) => Outcome::Checked(self.run(a)),
                Action::Run(a) => {
                    assert!(self.run(a));
                    Outcome::Ran
                }
            };
            let (c, next) = advance(plan, cursor, outcome);
            cursor = c;
            action = next;
        }
    }
}

#[test]
fn reapplying_leaves_each_jump_once() {
    let c = config(vec![forward(1, 443, "100.100.1.2", 8443, true)]);
    let plan = apply(&c).unwrap();
    let mut t = Tables { chains: std::collections::HashMap::new() };
    let pre_jump = ["-i", "eth0", "-j", "TAILNAT_PRE"];
    // A stale duplicate jump from an earlier run.
    t.chains.insert(
        ("nat".into(), "PREROUTING".into()),
        vec![words(&pre_jump), words(&["-j", "OTHER"]), words(&pre_jump)],
    );
    for _ in 0..2 {
        t.walk(&plan);
        assert_eq!(t.count("nat", "PREROUTING", &pre_jump), 1);
        assert_eq!(t.count("nat", "PREROUTING", &["-j", "OTHER"]), 1);
        assert_eq!(t.count("nat", "POSTROUTING", &["-j", "TAILNAT_POST"]), 1);
        assert_eq!(
            t.count("filter", "FORWARD", &["-i", "eth0", "-o", "tailscale0", "-j", "TAILNAT_FWD"]),
            1
        );
        assert_eq!(t.count("filter", "FORWARD", &["-i", "eth0", "-o", "tailscale0", "-j", "DROP"]), 0);
        assert_eq!(t.count("nat", "TAILNAT_PRE", &[
            "-p", "tcp", "--dport", "443", "-j", "DNAT", "--to-destination", "100.100.1.2:8443",
        ]), 1);
        let fwd = &t.chains[&("filter".to_string(), "TAILNAT_FWD".to_string())];
        assert_eq!(fwd.last().unwrap(), &words(&["-j", "DROP"]));
        assert_eq!(fwd.len(), 2);
    }
}

#[test]
fn reapplying_rebuilds_nat_chains() {
    let c = config(vec![
        forward(1, 443, "100.100.1.2", 8443, true),
        forward(2, 53, "100.100.1.3", 5353, false),
        forward(3, 8443, "100.100.1.2", 8443, true),
    ]);
    let plan = apply(&c).unwrap();
    let mut t = Tables { chains: std::collections::HashMap::new() };
    // Stale rules from an earlier configuration.
    t.chains.insert(("nat".into(), "TAILNAT_PRE".into()), vec![words(&["-j", "STALE"])]);
    t.chains.insert(("nat".into(), "TAILNAT_POST".into()), vec![words(&["-j", "STALE"])]);
    let dnat = |port: &str| {
        words(&["-p", "tcp", "--dport", port, "-j", "DNAT", "--to-destination", "100.100.1.2:8443"])
    };
    let masquerade = words(&[
        "-m", "conntrack", "--ctstate", "DNAT", "-d", "100.100.1.2", "-o", "tailscale0", "-p", "tcp",
        "--dport", "8443", "-j", "MASQUERADE",
    ]);
    for _ in 0..2 {
        t.walk(&plan);
        let pre = &t.chains[&("nat".to_string(), "TAILNAT_PRE".to_string())];
        assert_eq!(pre, &vec![dnat("443"), dnat("8443")]);
        let post = &t.chains[&("nat".to_string(), "TAILNAT_POST".to_string())];
        assert_eq!(post, &vec![masquerade.clone()]);
    }
}

#[test]
fn live_rules_read_line_by_line() {
    let a = "-A TAILNAT_PRE -p tcp -m tcp --dport 443 -j DNAT --to-destination 100.100.1.2:8443\n\
             -A PREROUTING -i eth0 -j TAILNAT_PRE\n";
    let b = "-A OTHER -p udp --dport 53 -j DNAT --to-destination 100.100.1.3:5353";
    let whole = parse_live_rules(&format!("{a}{b}"));
    let first = parse_live_rules(a);
    let second = parse_live_rules(b);
    assert_eq!(whole.len(), first.len() + second.len());
    assert_eq!(whole.len(), 2);
    assert_eq!(whole[0].public_port, first[0].public_port);
    assert!(whole[0].managed);
    assert_eq!(whole[1].chain, second[0].chain);
    assert_eq!(whole[1].destination, "100.100.1.3:5353");
}
