use srp::allow::{AllowError, AllowList};
use srp::TargetAddr;

fn dom(host: &str, port: u16) -> TargetAddr {
    TargetAddr::Domain(host.to_string(), port)
}

#[test]
fn empty_list_permits_everything() {
    let list = AllowList::default();
    assert!(list.is_empty());
    assert!(list.permits(&dom("anything.example", 1)));
    assert!(list.permits(&TargetAddr::V4([8, 8, 8, 8], 53)));
}

#[test]
fn host_port_rule_is_exact() {
    let list = AllowList::parse(&["example.com:443"]).unwrap();
    assert!(!list.is_empty());
    assert!(list.permits(&dom("example.com", 443)));
    assert!(
        list.permits(&dom("EXAMPLE.com.", 443)),
        "case and a trailing dot do not matter"
    );
    assert!(!list.permits(&dom("example.com", 80)), "the port must be equal");
    assert!(!list.permits(&dom("evil.com", 443)));
}

#[test]
fn bare_host_rule_allows_any_port() {
    let list = AllowList::parse(&["example.com"]).unwrap();
    assert!(list.permits(&dom("example.com", 1)));
    assert!(list.permits(&dom("example.com", 65535)));
    assert!(!list.permits(&dom("a.example.com", 1)));
}

#[test]
fn star_port_rule_allows_any_host() {
    let list = AllowList::parse(&["*:22"]).unwrap();
    assert!(list.permits(&dom("whatever.internal", 22)));
    assert!(list.permits(&TargetAddr::V4([127, 0, 0, 1], 22)));
    assert!(!list.permits(&TargetAddr::V4([127, 0, 0, 1], 23)));
}

#[test]
fn wildcard_matches_subdomains_only() {
    let list = AllowList::parse(&["*.example.com:443"]).unwrap();
    assert!(list.permits(&dom("a.example.com", 443)));
    assert!(list.permits(&dom("deep.nested.example.com", 443)));
    assert!(!list.permits(&dom("example.com", 443)), "the apex is no subdomain");
    assert!(
        !list.permits(&dom("notexample.com", 443)),
        "names match at a dot only"
    );
    assert!(!list.permits(&dom("a.example.com", 80)));
}

#[test]
fn ip_rules_compare_numerically() {
    let list = AllowList::parse(&["127.0.0.1:8080", "[::1]:9090", "10.0.0.7"]).unwrap();
    assert!(list.permits(&TargetAddr::V4([127, 0, 0, 1], 8080)));
    assert!(!list.permits(&TargetAddr::V4([127, 0, 0, 1], 8081)));
    assert!(
        list.permits(&dom("127.0.0.1", 8080)),
        "an address given as a name counts too"
    );

    let mut v6 = [0u8; 16];
    v6[15] = 1;
    assert!(list.permits(&TargetAddr::V6(v6, 9090)));
    assert!(!list.permits(&TargetAddr::V6(v6, 9091)));

    assert!(
        list.permits(&TargetAddr::V4([10, 0, 0, 7], 12345)),
        "a rule without a port permits any"
    );
}

#[test]
fn bare_ipv6_without_brackets_is_a_host() {
    let list = AllowList::parse(&["::1"]).unwrap();
    let mut v6 = [0u8; 16];
    v6[15] = 1;
    assert!(list.permits(&TargetAddr::V6(v6, 443)));
}

#[test]
fn any_matching_rule_permits() {
    let list = AllowList::parse(&["a.internal:80", "b.internal:80"]).unwrap();
    assert!(list.permits(&dom("b.internal", 80)));
    assert!(!list.permits(&dom("c.internal", 80)));
}

#[test]
fn rejects_malformed_patterns() {
    for bad in [
        "",
        "   ",
        "host:port",
        "host:99999",
        "[::1",
        "[::1]junk",
        ":443",
        "a*b.com",
    ] {
        assert!(
            AllowList::parse(&[bad]).is_err(),
            "pattern {bad:?} should be rejected"
        );
    }
}

#[test]
fn each_malformed_pattern_has_its_reason() {
    let cases = [
        ("", AllowError::Empty),
        ("   ", AllowError::Empty),
        ("host:port", AllowError::InvalidPort),
        ("host:99999", AllowError::InvalidPort),
        ("[::1]:x", AllowError::InvalidPort),
        ("[::1", AllowError::UnclosedBracket),
        ("[::1]junk", AllowError::TrailingJunk),
        (":443", AllowError::EmptyHost),
        ("[]:443", AllowError::EmptyHost),
        ("a*b.com", AllowError::MisplacedStar),
        ("*.", AllowError::InvalidWildcard),
        ("*.a*", AllowError::InvalidWildcard),
    ];
    for (pattern, error) in cases {
        assert_eq!(AllowList::parse(&[pattern]).err(), Some(error), "{pattern:?}");
    }
    assert_eq!(
        AllowList::parse(&["ok", "", "a*b"]).err(),
        Some(AllowError::Empty),
        "the first fault counts"
    );
}

#[test]
fn more_rules_permit_more() {
    let one = AllowList::parse(&["a.internal:80"]).unwrap();
    let two = AllowList::parse(&["a.internal:80", "*.b.internal"]).unwrap();
    for (host, port) in [("a.internal", 80u16), ("a.internal", 81), ("x.b.internal", 9)] {
        if one.permits(&dom(host, port)) {
            assert!(two.permits(&dom(host, port)));
        }
    }
    assert!(two.permits(&dom("x.b.internal", 9)));
    assert!(!two.permits(&dom("b.internal", 9)));
}

#[test]
fn addresses_are_compared_however_they_are_written() {
    let list = AllowList::parse(&["2001:DB8:0:0::1", "[::ffff:10.0.0.1]:80"]).unwrap();
    assert!(list.permits(&dom("2001:db8::1", 5)));
    assert!(list.permits(&dom("::ffff:a00:1", 80)));
    assert!(!list.permits(&dom("10.0.0.1", 80)));
    assert!(!list.permits(&dom("2001:db8::2", 5)));
}

#[test]
fn case_and_end_dots_make_no_difference() {
    let list = AllowList::parse(&["Example.COM.:443", "*.Internal."]).unwrap();
    for host in ["example.com", "EXAMPLE.com.", "a.internal", "A.INTERNAL."] {
        assert!(list.permits(&dom(host, 443)), "{host}");
    }
    assert!(!list.permits(&dom("internal.", 443)));
}

#[test]
fn networks_go_by_their_leading_bits() {
    let list = AllowList::parse(&["10.0.0.0/8:443", "192.168.7.99/30", "[fd00::/8]:80", "2001:db8::/33"])
        .unwrap();
    assert!(list.permits(&TargetAddr::V4([10, 200, 3, 4], 443)));
    assert!(list.permits(&dom("10.1.2.3", 443)), "however it is written");
    assert!(!list.permits(&TargetAddr::V4([10, 200, 3, 4], 80)));
    assert!(!list.permits(&TargetAddr::V4([11, 0, 0, 0], 443)));
    assert!(list.permits(&TargetAddr::V4([192, 168, 7, 96], 1)));
    assert!(list.permits(&TargetAddr::V4([192, 168, 7, 99], 1)));
    assert!(!list.permits(&TargetAddr::V4([192, 168, 7, 100], 1)));
    assert!(list.permits(&dom("fdab::1", 80)));
    assert!(!list.permits(&dom("fe00::1", 80)));
    assert!(list.permits(&dom("2001:db8:7fff::1", 9)));
    assert!(!list.permits(&dom("2001:db8:8000::1", 9)));

    let every = AllowList::parse(&["0.0.0.0/0"]).unwrap();
    assert!(every.permits(&TargetAddr::V4([8, 8, 8, 8], 53)));
    assert!(!every.permits(&dom("::1", 53)));
    assert!(!every.permits(&dom("example.com", 53)));
    let one = AllowList::parse(&["1.2.3.4/32"]).unwrap();
    assert!(one.permits(&TargetAddr::V4([1, 2, 3, 4], 5)));
    assert!(!one.permits(&TargetAddr::V4([1, 2, 3, 5], 5)));

    // More bits than there are make a name, which no address has.
    let odd = AllowList::parse(&["10.0.0.0/33"]).unwrap();
    assert!(!odd.permits(&TargetAddr::V4([10, 0, 0, 0], 5)));
}
