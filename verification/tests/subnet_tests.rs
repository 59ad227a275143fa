use proxy_scan::pipeline::Aggregator;
use proxy_scan::subnet::{subnet_hosts, subnet_hosts_v6};

fn ip(a: u32, b: u32, c: u32, d: u32) -> u32 {
    (a << 24) | (b << 16) | (c << 8) | d
}

#[test]
fn slash_30_has_two_usable_hosts() {
    let hosts = subnet_hosts("198.51.100.0/30").unwrap();
    assert_eq!(hosts, vec![ip(198, 51, 100, 1), ip(198, 51, 100, 2)]);
}

#[test]
fn unreachable_range_reports_no_working_proxies() {
    // All probes of the /30's hosts fail, so no candidate ever reaches
    // the aggregator and the run ends with an empty result set.
    let hosts = subnet_hosts("198.51.100.0/30").unwrap();
    assert_eq!(hosts.len(), 2);
    let mut agg = Aggregator::new();
    agg.close_source();
    let report = agg.finish();
    assert!(report.is_empty());
}

#[test]
fn host_bits_are_cleared() {
    assert_eq!(
        subnet_hosts("198.51.100.3/30").unwrap(),
        vec![ip(198, 51, 100, 1), ip(198, 51, 100, 2)]
    );
}

#[test]
fn slash_31_and_32_use_every_address() {
    assert_eq!(
        subnet_hosts("10.0.0.0/31").unwrap(),
        vec![ip(10, 0, 0, 0), ip(10, 0, 0, 1)]
    );
    assert_eq!(subnet_hosts("10.0.0.7/32").unwrap(), vec![ip(10, 0, 0, 7)]);
}

#[test]
fn slash_24_spans_the_usable_range() {
    let hosts = subnet_hosts("192.0.2.0/24").unwrap();
    assert_eq!(hosts.len(), 254);
    assert_eq!(hosts[0], ip(192, 0, 2, 1));
    assert_eq!(hosts[253], ip(192, 0, 2, 254));
}

#[test]
fn subnet_octets_may_carry_leading_zeros() {
    assert_eq!(
        subnet_hosts("198.051.100.0/30").unwrap(),
        vec![ip(198, 51, 100, 1), ip(198, 51, 100, 2)]
    );
    assert_eq!(
        subnet_hosts("010.000.000.000/30").unwrap(),
        vec![ip(10, 0, 0, 1), ip(10, 0, 0, 2)]
    );
}

#[test]
fn v6_block_lists_every_address() {
    let base = 0x2001_0db8u128 << 96;
    let hosts = subnet_hosts_v6(base | 0x3, 126).unwrap();
    assert_eq!(hosts, vec![base, base | 1, base | 2, base | 3]);
    assert_eq!(subnet_hosts_v6(base | 7, 128).unwrap(), vec![base | 7]);
}

#[test]
fn too_wide_v6_block_is_refused() {
    assert_eq!(subnet_hosts_v6(0x2001_0db8u128 << 96, 64), None);
}

#[test]
fn malformed_range_yields_no_candidates() {
    assert_eq!(subnet_hosts("garbage"), None);
    assert_eq!(subnet_hosts("10.0.0.0"), None);
    assert_eq!(subnet_hosts("10.0.0.0/33"), None);
    assert_eq!(subnet_hosts("10.0.0/24"), None);
    assert_eq!(subnet_hosts("10.0.0.0/24/8"), None);
}
