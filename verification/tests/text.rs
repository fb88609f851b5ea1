use tailnat::ipv4::{ipv4_to_string, parse_ipv4, Ipv4Addr};
use tailnat::order::text_le_exec;
use tailnat::text::{is_blank_str, trim, u16_text};

#[test]
fn trims_unicode_white_space() {
    assert_eq!(trim("  Example web \t\n"), "Example web");
    assert_eq!(trim("\u{3000}x\u{a0}"), "x");
    assert_eq!(trim("\u{200b}x"), "\u{200b}x");
    assert_eq!(trim(" \r\n "), "");
    assert!(is_blank_str(" \u{2028}\t"));
    assert!(!is_blank_str(" a "));
    assert!(is_blank_str(""));
}

#[test]
fn ipv4_text_round_trips() {
    for text in ["0.0.0.0", "100.64.0.1", "255.255.255.255", "10.20.3.4"] {
        let ip = parse_ipv4(text).unwrap();
        assert_eq!(ipv4_to_string(ip), text);
    }
    let ip = Ipv4Addr::new(100, 101, 102, 103);
    assert_eq!(parse_ipv4(&ipv4_to_string(ip)), Some(ip));
}

#[test]
fn ipv4_parse_refuses_what_std_refuses() {
    for text in [
        "256.1.1.1",
        "1.2.3",
        "1.2.3.4.5",
        "01.2.3.4",
        "1.2.3.04",
        "1..2.3",
        "",
        " 1.2.3.4",
        "1.2.3.4 ",
        "1.2.3.+4",
        "1000.1.1.1",
        "fd7a:115c:a1e0::1",
    ] {
        assert_eq!(parse_ipv4(text), None, "{text}");
    }
    assert_eq!(parse_ipv4("0.10.100.200"), Some(Ipv4Addr::new(0, 10, 100, 200)));
}

#[test]
fn decimal_text() {
    assert_eq!(u16_text(0), "0");
    assert_eq!(u16_text(443), "443");
    assert_eq!(u16_text(65535), "65535");
}

#[test]
fn text_order_is_lexicographic() {
    let a: Vec<char> = "alpha".chars().collect();
    let b: Vec<char> = "alphabet".chars().collect();
    let c: Vec<char> = "beta".chars().collect();
    assert!(text_le_exec(&a, &b));
    assert!(!text_le_exec(&b, &a));
    assert!(text_le_exec(&a, &c));
    assert!(text_le_exec(&a, &a));
    assert!(!text_le_exec(&c, &a));
}

#[test]
fn port_text_reads_back() {
    for n in [0u16, 7, 80, 443, 8443, 65535] {
        let text: Vec<char> = u16_text(n).chars().collect();
        assert_eq!(tailnat::text::parse_u16_range(&text, 0, text.len()), Some(n));
    }
    let plus: Vec<char> = "+0443".chars().collect();
    assert_eq!(tailnat::text::parse_u16_range(&plus, 0, plus.len()), Some(443));
    let big: Vec<char> = "65536".chars().collect();
    assert_eq!(tailnat::text::parse_u16_range(&big, 0, big.len()), None);
    let sign: Vec<char> = "+".chars().collect();
    assert_eq!(tailnat::text::parse_u16_range(&sign, 0, sign.len()), None);
}

#[test]
fn blank_means_trims_to_nothing() {
    for s in ["", " ", "\t\u{3000}\n", " a ", "\u{200b}"] {
        assert_eq!(trim(s).is_empty(), is_blank_str(s));
    }
}
