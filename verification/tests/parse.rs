use netsim::host_literal_str;
use netsim::parse_ip_str;
use netsim::parse_ipv4_str;
use netsim::parse_ipv6_str;
use netsim::parse_port_str;
use netsim::split_host_port_str;
use netsim::IpAddr;

#[test]
fn ipv4_text_accepts_dotted_quads() {
    assert_eq!(parse_ipv4_str("0.0.0.0"), Some(IpAddr::V4(0, 0, 0, 0)));
    assert_eq!(parse_ipv4_str("127.0.0.1"), Some(IpAddr::V4(127, 0, 0, 1)));
    assert_eq!(
        parse_ipv4_str("255.255.255.255"),
        Some(IpAddr::V4(255, 255, 255, 255))
    );
}

#[test]
fn ipv4_text_rejects_bad_forms() {
    assert_eq!(parse_ipv4_str("256.0.0.1"), None);
    assert_eq!(parse_ipv4_str("01.2.3.4"), None);
    assert_eq!(parse_ipv4_str("1.2.3"), None);
    assert_eq!(parse_ipv4_str("1.2.3.4.5"), None);
    assert_eq!(parse_ipv4_str("1.2.3.x"), None);
    assert_eq!(parse_ipv4_str(""), None);
}

#[test]
fn ipv6_text_accepts_full_and_compressed_forms() {
    assert_eq!(
        parse_ipv6_str("1:2:3:4:5:6:7:8"),
        Some(IpAddr::V6(1, 2, 3, 4, 5, 6, 7, 8))
    );
    assert_eq!(parse_ipv6_str("::"), Some(IpAddr::V6(0, 0, 0, 0, 0, 0, 0, 0)));
    assert_eq!(parse_ipv6_str("::1"), Some(IpAddr::V6(0, 0, 0, 0, 0, 0, 0, 1)));
    assert_eq!(parse_ipv6_str("1::8"), Some(IpAddr::V6(1, 0, 0, 0, 0, 0, 0, 8)));
    assert_eq!(
        parse_ipv6_str("1:2:3:4:5:6:7::"),
        Some(IpAddr::V6(1, 2, 3, 4, 5, 6, 7, 0))
    );
    assert_eq!(
        parse_ipv6_str("2001:db8::ff00:42:8329"),
        Some(IpAddr::V6(0x2001, 0xdb8, 0, 0, 0, 0xff00, 0x42, 0x8329))
    );
    assert_eq!(
        parse_ipv6_str("ABCD::ef01"),
        Some(IpAddr::V6(0xabcd, 0, 0, 0, 0, 0, 0, 0xef01))
    );
}

#[test]
fn ipv6_text_rejects_bad_forms() {
    assert_eq!(parse_ipv6_str(":::"), None);
    assert_eq!(parse_ipv6_str("1:2:3:4:5:6:7"), None);
    assert_eq!(parse_ipv6_str("1:2:3:4:5:6:7:8:9"), None);
    assert_eq!(parse_ipv6_str("12345::"), None);
    assert_eq!(parse_ipv6_str("g::"), None);
    assert_eq!(parse_ipv6_str("1::2::3"), None);
    assert_eq!(parse_ipv6_str(":1::2"), None);
    assert_eq!(parse_ipv6_str(""), None);
}

#[test]
fn ip_text_tries_both_families() {
    assert_eq!(parse_ip_str("9.8.7.6"), Some(IpAddr::V4(9, 8, 7, 6)));
    assert_eq!(parse_ip_str("::1"), Some(IpAddr::V6(0, 0, 0, 0, 0, 0, 0, 1)));
    assert_eq!(parse_ip_str("host"), None);
}

#[test]
fn host_literal_accepts_bracketed_ipv6() {
    assert_eq!(
        host_literal_str("[::1]"),
        Some(IpAddr::V6(0, 0, 0, 0, 0, 0, 0, 1))
    );
    assert_eq!(host_literal_str("[1.2.3.4]"), None);
    assert_eq!(host_literal_str("1.2.3.4"), Some(IpAddr::V4(1, 2, 3, 4)));
    assert_eq!(host_literal_str("[::1"), None);
}

#[test]
fn port_text_bounds_and_leading_zeros() {
    assert_eq!(parse_port_str("0"), Some(0));
    assert_eq!(parse_port_str("007"), Some(7));
    assert_eq!(parse_port_str("65535"), Some(65535));
    assert_eq!(parse_port_str("65536"), None);
    assert_eq!(parse_port_str("0000070000"), None);
    assert_eq!(parse_port_str(""), None);
    assert_eq!(parse_port_str("12a"), None);
}

#[test]
fn host_port_splits_at_last_colon() {
    assert_eq!(
        split_host_port_str("foo:5000"),
        Some(("foo".to_owned(), 5000))
    );
    assert_eq!(split_host_port_str("a:b:80"), Some(("a:b".to_owned(), 80)));
    assert_eq!(split_host_port_str("foo"), None);
    assert_eq!(split_host_port_str("foo:99999"), None);
    assert_eq!(split_host_port_str("foo:bar"), None);
    assert_eq!(split_host_port_str(":123"), Some(("".to_owned(), 123)));
}
