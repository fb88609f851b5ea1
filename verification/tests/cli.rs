use tailnat::cli::{argument, ArgOutcome};

fn args(v: &[&str]) -> Vec<String> {
    v.iter().map(|s| s.to_string()).collect()
}

fn value(o: ArgOutcome) -> String {
    match o {
        ArgOutcome::Value(v) => v,
        other => panic!("expected a value, got {other:?}"),
    }
}

#[test]
fn flags_and_defaults() {
    let a = args(&["tailnat", "--config", "/tmp/c.json"]);
    assert_eq!(value(argument(&a, "--config", "/etc/tailnat/config.json")), "/tmp/c.json");
    assert_eq!(value(argument(&a, "--web-dir", "/opt/tailnat/web")), "/opt/tailnat/web");
    let a = args(&["tailnat"]);
    assert_eq!(value(argument(&a, "--config", "/etc/x")), "/etc/x");
}

#[test]
fn help_and_usage() {
    assert!(matches!(argument(&args(&["tailnat", "-h"]), "--config", "d"), ArgOutcome::Help));
    assert!(matches!(argument(&args(&["tailnat", "--config", "--help"]), "--config", "d"), ArgOutcome::Help));
    assert!(matches!(argument(&args(&["tailnat", "--config"]), "--config", "d"), ArgOutcome::Usage));
    assert!(matches!(argument(&args(&["tailnat", "--port", "1"]), "--config", "d"), ArgOutcome::Usage));
}
