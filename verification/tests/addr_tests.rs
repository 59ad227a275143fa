use proxy_scan::addr::{
    endpoint_string, ip_string, ipv4_string, ipv6_string, parse_ipv4, parse_record,
    parse_records, proxy_url, record_endpoint, Endpoint, InputRecord, IpAddress,
};

fn ip(a: u32, b: u32, c: u32, d: u32) -> u32 {
    (a << 24) | (b << 16) | (c << 8) | d
}

fn plain_record(text: &str) -> InputRecord {
    InputRecord { text: text.to_string(), v6_with_port: None, v6_bare: None }
}

#[test]
fn bare_address_takes_default_port() {
    let e = parse_record("203.0.113.5", 7890);
    assert_eq!(e, Some(Endpoint { ip: IpAddress::V4(ip(203, 0, 113, 5)), port: 7890 }));
}

#[test]
fn address_with_port_keeps_its_port() {
    let e = parse_record("203.0.113.9:8080", 7890);
    assert_eq!(e, Some(Endpoint { ip: IpAddress::V4(ip(203, 0, 113, 9)), port: 8080 }));
}

#[test]
fn port_may_carry_leading_zeros() {
    let e = parse_record("203.0.113.9:000080", 7890);
    assert_eq!(e, Some(Endpoint { ip: IpAddress::V4(ip(203, 0, 113, 9)), port: 80 }));
    assert_eq!(parse_record("203.0.113.9:00000000000000443", 7890).unwrap().port, 443);
}

#[test]
fn two_records_with_default_port() {
    let records = vec![plain_record("203.0.113.5"), plain_record("203.0.113.9:8080")];
    let out = parse_records(&records, 7890);
    assert_eq!(
        out,
        vec![
            Endpoint { ip: IpAddress::V4(ip(203, 0, 113, 5)), port: 7890 },
            Endpoint { ip: IpAddress::V4(ip(203, 0, 113, 9)), port: 8080 },
        ]
    );
}

#[test]
fn malformed_record_is_skipped() {
    assert_eq!(parse_record("not-an-address", 7890), None);
    assert_eq!(parse_record("", 7890), None);
    assert_eq!(parse_record("1.2.3", 7890), None);
    assert_eq!(parse_record("256.0.0.1", 7890), None);
    assert_eq!(parse_record("1.2.3.4.5", 7890), None);
    assert_eq!(parse_record("1.2.3.4:", 7890), None);
    assert_eq!(parse_record("1.2.3.4:99999", 7890), None);
    assert_eq!(parse_record("1.2.3.4:80:80", 7890), None);
    assert_eq!(parse_record("01.2.3.4", 7890), None);
    assert_eq!(parse_record("1.2.3.4 ", 7890), None);
}

#[test]
fn malformed_records_contribute_nothing() {
    let records = vec![
        plain_record("garbage"),
        plain_record("198.51.100.7"),
        plain_record("300.300.300.300"),
    ];
    let out = parse_records(&records, 1080);
    assert_eq!(out, vec![Endpoint { ip: IpAddress::V4(ip(198, 51, 100, 7)), port: 1080 }]);
}

#[test]
fn empty_record_list_yields_no_candidates() {
    let records: Vec<InputRecord> = Vec::new();
    assert!(parse_records(&records, 7890).is_empty());
}

#[test]
fn v6_record_with_port_keeps_its_port() {
    // The lexer outside the library read "[2001:db8::1]:443".
    let r = InputRecord {
        text: "[2001:db8::1]:443".to_string(),
        v6_with_port: Some(((0x2001_0db8u128 << 96) | 1, 443)),
        v6_bare: None,
    };
    assert_eq!(
        record_endpoint(&r, 7890),
        Some(Endpoint { ip: IpAddress::V6((0x2001_0db8u128 << 96) | 1), port: 443 })
    );
}

#[test]
fn bare_v6_record_takes_default_port() {
    let r = InputRecord { text: "::1".to_string(), v6_with_port: None, v6_bare: Some(1) };
    assert_eq!(
        record_endpoint(&r, 7890),
        Some(Endpoint { ip: IpAddress::V6(1), port: 7890 })
    );
}

#[test]
fn dotted_quad_wins_over_lexer_values() {
    // A record whose text is a dotted quad is decided by the library's
    // own grammar, whatever the lexer handed along.
    let r = InputRecord {
        text: "198.51.100.7:80".to_string(),
        v6_with_port: Some((9, 9)),
        v6_bare: Some(9),
    };
    assert_eq!(
        record_endpoint(&r, 7890),
        Some(Endpoint { ip: IpAddress::V4(ip(198, 51, 100, 7)), port: 80 })
    );
}

#[test]
fn record_with_nothing_denotes_nothing() {
    assert_eq!(record_endpoint(&plain_record("garbage"), 7890), None);
}

#[test]
fn ipv4_parses_exact_value() {
    assert_eq!(parse_ipv4("0.0.0.0"), Some(0));
    assert_eq!(parse_ipv4("255.255.255.255"), Some(u32::MAX));
    assert_eq!(parse_ipv4("127.0.0.1"), Some(ip(127, 0, 0, 1)));
    assert_eq!(parse_ipv4("1.2.3.04"), None);
    assert_eq!(parse_ipv4("1.2.3."), None);
}

#[test]
fn renders_addresses_back() {
    assert_eq!(ipv4_string(ip(203, 0, 113, 5)), "203.0.113.5");
    assert_eq!(ipv4_string(0), "0.0.0.0");
    assert_eq!(ipv4_string(u32::MAX), "255.255.255.255");
    let e = Endpoint { ip: IpAddress::V4(ip(203, 0, 113, 9)), port: 8080 };
    assert_eq!(endpoint_string(e), "203.0.113.9:8080");
    assert_eq!(proxy_url(e), "http://203.0.113.9:8080");
}

#[test]
fn renders_v6_addresses_in_full_form() {
    assert_eq!(ipv6_string(1), "0:0:0:0:0:0:0:1");
    assert_eq!(
        ipv6_string((0x2001_0db8u128 << 96) | 0xabcd),
        "2001:db8:0:0:0:0:0:abcd"
    );
    assert_eq!(ip_string(IpAddress::V6(u128::MAX)), "ffff:ffff:ffff:ffff:ffff:ffff:ffff:ffff");
    let e = Endpoint { ip: IpAddress::V6(1), port: 443 };
    assert_eq!(endpoint_string(e), "[0:0:0:0:0:0:0:1]:443");
    assert_eq!(proxy_url(e), "http://[0:0:0:0:0:0:0:1]:443");
}

#[test]
fn parse_and_render_are_inverse_on_valid_input() {
    let text = "198.51.100.23";
    let parsed = parse_ipv4(text).unwrap();
    assert_eq!(ipv4_string(parsed), text);
}
