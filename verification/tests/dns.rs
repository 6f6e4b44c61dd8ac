use netsim::Dns;
use netsim::HostPattern;
use netsim::IpAddr;
use netsim::SocketAddr;
use netsim::ToSocketAddrs;

#[test]
fn parse_str() {
    let mut dns = Dns::new();
    let generated_addr = dns.lookup("foo");

    let hostname_port = "foo:5000".to_socket_addr(&dns);
    let ipv4_port = "127.0.0.1:5000";
    let ipv6_port = "[::1]:5000";

    assert_eq!(hostname_port, SocketAddr::new(generated_addr, 5000));
    assert_eq!(
        ipv4_port.to_socket_addr(&dns),
        SocketAddr::new(IpAddr::V4(127, 0, 0, 1), 5000)
    );
    assert_eq!(
        ipv6_port.to_socket_addr(&dns),
        SocketAddr::new(IpAddr::V6(0, 0, 0, 0, 0, 0, 0, 1), 5000)
    );
}

#[test]
fn distinct_hosts_get_distinct_subnet_addrs() {
    let mut dns = Dns::new();
    let a1 = dns.lookup("alpha");
    let a2 = dns.lookup("beta");
    assert_ne!(a1, a2);
    assert_eq!(a1, IpAddr::V4(192, 168, 0, 1));
    assert_eq!(a2, IpAddr::V4(192, 168, 0, 2));
}

#[test]
fn lookup_is_idempotent() {
    let mut dns = Dns::new();
    let first = dns.lookup("alpha");
    let _ = dns.lookup("beta");
    let again = dns.lookup("alpha");
    assert_eq!(first, again);
}

#[test]
fn reverse_returns_original_hostname() {
    let mut dns = Dns::new();
    let a = dns.lookup("alpha");
    let b = dns.lookup("beta");
    assert_eq!(dns.reverse(a), "alpha".to_owned());
    assert_eq!(dns.reverse(b), "beta".to_owned());
}

#[test]
fn literal_lookup_does_not_register() {
    let mut dns = Dns::new();
    let lit = dns.lookup(IpAddr::V4(10, 0, 0, 1));
    assert_eq!(lit, IpAddr::V4(10, 0, 0, 1));
    let sa = "10.0.0.9:80".to_socket_addr(&dns);
    assert_eq!(sa, SocketAddr::new(IpAddr::V4(10, 0, 0, 9), 80));
    // The counter never moved: the first hostname still gets .0.1.
    let first = dns.lookup("alpha");
    assert_eq!(first, IpAddr::V4(192, 168, 0, 1));
}

#[test]
fn host_port_pair_matches_text_form() {
    let mut dns = Dns::new();
    let a = dns.lookup("alpha");
    let from_text = "alpha:4000".to_socket_addr(&dns);
    let from_pair = ("alpha", 4000u16).to_socket_addr(&dns);
    assert_eq!(from_text, SocketAddr::new(a, 4000));
    assert_eq!(from_pair, SocketAddr::new(a, 4000));
    let owned = ("alpha".to_owned(), 4000u16).to_socket_addr(&dns);
    assert_eq!(owned, from_text);
}

#[test]
fn bare_ipv6_host_with_port() {
    let dns = Dns::new();
    let sa = "::1:9000".to_socket_addr(&dns);
    assert_eq!(sa, SocketAddr::new(IpAddr::V6(0, 0, 0, 0, 0, 0, 0, 1), 9000));
}

#[test]
fn socket_addr_literal_resolves_to_itself() {
    let dns = Dns::new();
    let lit = SocketAddr::new(IpAddr::V6(0x2001, 0xdb8, 0, 0, 0, 0, 0, 7), 443);
    assert_eq!(lit.to_socket_addr(&dns), lit);
    let pair = (IpAddr::V4(127, 0, 0, 1), 53u16).to_socket_addr(&dns);
    assert_eq!(pair, SocketAddr::new(IpAddr::V4(127, 0, 0, 1), 53));
}

#[test]
fn pattern_lookup_filters_registered_hosts() {
    let mut dns = Dns::new();
    let a1 = dns.lookup("alpha");
    let _b = dns.lookup("beta");
    let a2 = dns.lookup("alphabet");
    let pat = HostPattern::compile("^alpha").unwrap();
    let hits = dns.lookup_many(pat);
    assert_eq!(hits, vec![a1, a2]);
    let none = HostPattern::compile("^zz").unwrap();
    assert_eq!(dns.lookup_many(none), Vec::<IpAddr>::new());
}

#[test]
fn invalid_pattern_is_rejected() {
    assert!(HostPattern::compile("(").is_none());
}

#[test]
fn single_input_resolves_to_one_element() {
    let mut dns = Dns::new();
    let many = dns.lookup_many("alpha");
    assert_eq!(many.len(), 1);
    assert_eq!(many[0], IpAddr::V4(192, 168, 0, 1));
}

#[test]
fn counter_high_byte_forms_third_octet() {
    let mut dns = Dns::new();
    let mut last = IpAddr::V4(0, 0, 0, 0);
    for i in 0..300 {
        last = dns.lookup(format!("host{}", i));
    }
    // The 300th allocation has counter value 300 = 1 * 256 + 44.
    assert_eq!(last, IpAddr::V4(192, 168, 1, 44));
    assert_eq!(dns.lookup("host255"), IpAddr::V4(192, 168, 1, 0));
    assert_eq!(dns.reverse(IpAddr::V4(192, 168, 1, 44)), "host299".to_owned());
}
