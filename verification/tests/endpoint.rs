use port_manager::endpoint::{parse_endpoint, parse_port};

#[test]
fn parses_ipv4_endpoint() {
    let (address, port) = parse_endpoint("127.0.0.1:8080");
    assert_eq!(address, "127.0.0.1");
    assert_eq!(port, Some(8080));
}

#[test]
fn parses_ipv6_endpoint() {
    let (address, port) = parse_endpoint("[::1]:443");
    assert_eq!(address, "::1");
    assert_eq!(port, Some(443));
}

#[test]
fn parses_wildcard_endpoint() {
    let (address, port) = parse_endpoint("*:*");
    assert_eq!(address, "*");
    assert_eq!(port, None);
}

#[test]
fn single_star_is_wildcard() {
    assert_eq!(parse_endpoint("*"), ("*".to_string(), None));
}

#[test]
fn star_port_has_no_number() {
    assert_eq!(parse_endpoint("0.0.0.0:*"), ("0.0.0.0".to_string(), None));
    assert_eq!(parse_endpoint("[::]:*"), ("::".to_string(), None));
}

#[test]
fn unbracketed_ipv6_splits_at_last_colon() {
    assert_eq!(parse_endpoint("fe80::1:22"), ("fe80::1".to_string(), Some(22)));
}

#[test]
fn bracket_without_port_separator_falls_back_to_last_colon() {
    assert_eq!(parse_endpoint("[::1]"), ("[:".to_string(), None));
}

#[test]
fn text_without_colon_is_address_only() {
    assert_eq!(parse_endpoint("localhost"), ("localhost".to_string(), None));
}

#[test]
fn port_out_of_range_or_malformed_is_none() {
    assert_eq!(parse_endpoint("1.2.3.4:65536"), ("1.2.3.4".to_string(), None));
    assert_eq!(parse_endpoint("1.2.3.4:http"), ("1.2.3.4".to_string(), None));
    assert_eq!(parse_endpoint("1.2.3.4:"), ("1.2.3.4".to_string(), None));
}

#[test]
fn parse_port_cases() {
    assert_eq!(parse_port("*"), None);
    assert_eq!(parse_port("0"), Some(0));
    assert_eq!(parse_port("65535"), Some(65535));
    assert_eq!(parse_port("+80"), Some(80));
    assert_eq!(parse_port("0080"), Some(80));
    assert_eq!(parse_port("-1"), None);
    assert_eq!(parse_port("+"), None);
    assert_eq!(parse_port(""), None);
    assert_eq!(parse_port("8 0"), None);
    assert_eq!(parse_port("70000"), None);
}
