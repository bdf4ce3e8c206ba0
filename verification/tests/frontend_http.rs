use base64::Engine;
use srp::frontend::http::{
    parse_authority, parse_head, HeadReader, HeadScan, HttpConnectServer, HttpStep, Rejection,
    ESTABLISHED, MAX_HEAD_BYTES,
};
use srp::frontend::{
    ct_eq, relay_outcome, validate_domain, AcceptFailures, DialError, IoFailure,
};
use srp::TargetAddr;

fn basic(user: &str, pass: &str) -> String {
    base64::engine::general_purpose::STANDARD.encode(format!("{user}:{pass}"))
}

fn open_server() -> HttpConnectServer {
    HttpConnectServer::new(None)
}

/// What a request in one piece comes to.
fn request(server: &HttpConnectServer, bytes: &[u8]) -> HttpStep {
    let mut reader = HeadReader::new();
    server.receive(&mut reader, bytes)
}

fn refused(step: HttpStep) -> Rejection {
    match step {
        HttpStep::Reject(r) => r,
        other => panic!("expected a refusal, got {other:?}"),
    }
}

#[test]
fn connect_names_its_target() {
    let step = request(
        &open_server(),
        b"CONNECT example.com:443 HTTP/1.1\r\nHost: example.com:443\r\n\r\n",
    );
    match step {
        HttpStep::Dial(head) => {
            assert_eq!(head.target, TargetAddr::Domain("example.com".into(), 443));
            assert!(head.leftover.is_empty());
        }
        other => panic!("{other:?}"),
    }
    assert_eq!(ESTABLISHED, "HTTP/1.1 200 Connection established\r\n\r\n");
}

#[test]
fn early_payload_after_headers_is_kept() {
    match request(&open_server(), b"CONNECT h.test:443 HTTP/1.1\r\n\r\nCLIENTHELLO") {
        HttpStep::Dial(head) => assert_eq!(head.leftover, b"CLIENTHELLO"),
        other => panic!("{other:?}"),
    }
}

#[test]
fn basic_auth_success_and_407_on_failure() {
    let server = HttpConnectServer::new(Some(("neko".into(), "s3cret".into())));
    let ok = format!(
        "CONNECT a.test:443 HTTP/1.1\r\nProxy-Authorization: Basic {}\r\n\r\n",
        basic("neko", "s3cret")
    );
    assert!(matches!(request(&server, ok.as_bytes()), HttpStep::Dial(_)));

    for auth_header in [
        format!("Proxy-Authorization: Basic {}\r\n", basic("neko", "wrong")),
        format!("Proxy-Authorization: Basic {}\r\n", basic("nek", "s3cret")),
        format!("Proxy-Authorization: Bearer {}\r\n", basic("neko", "s3cret")),
        "Proxy-Authorization: Basic %%%\r\n".to_string(),
        "Proxy-Authorization: Basic\r\n".to_string(),
        String::new(),
    ] {
        let req = format!("CONNECT a.test:443 HTTP/1.1\r\n{auth_header}\r\n");
        let rejection = refused(request(&server, req.as_bytes()));
        let response = rejection.response();
        assert!(response.starts_with("HTTP/1.1 407"), "{response}");
        assert!(
            response.contains("Proxy-Authenticate: Basic realm=\"srp\""),
            "missing challenge header: {response}"
        );
        assert_eq!(rejection.misuse(), None);
    }
}

#[test]
fn decoded_credentials_are_compared_exactly() {
    let server = HttpConnectServer::new(Some(("neko".into(), "a:b".into())));
    assert!(server.check_basic(b"neko:a:b"));
    assert!(!server.check_basic(b"neko:a"));
    assert!(!server.check_basic(b"neko"));
    assert!(!server.check_basic(b"Neko:a:b"));
    assert!(!server.check_basic(b""));
    assert!(open_server().check_basic(b""));

    let token = basic("neko", "a:b");
    assert_eq!(server.authorize(Some(&format!("basic {token}"))), Ok(()));
    assert_eq!(server.authorize(Some(&format!("BASIC   {token}  "))), Ok(()));
    assert_eq!(server.authorize(Some(&token)), Err(Rejection::AuthRequired));
    assert_eq!(server.authorize(None), Err(Rejection::AuthRequired));
    assert_eq!(open_server().authorize(None), Ok(()));
}

#[test]
fn parses_ipv6_literal_target() {
    let mut octets = [0u8; 16];
    octets[15] = 1;
    match request(&open_server(), b"CONNECT [::1]:443 HTTP/1.1\r\n\r\n") {
        HttpStep::Dial(head) => assert_eq!(head.target, TargetAddr::V6(octets, 443)),
        other => panic!("{other:?}"),
    }
}

#[test]
fn parses_ipv4_literal_target() {
    match request(&open_server(), b"CONNECT 10.0.0.7:8443 HTTP/1.0\r\n\r\n") {
        HttpStep::Dial(head) => assert_eq!(head.target, TargetAddr::V4([10, 0, 0, 7], 8443)),
        other => panic!("{other:?}"),
    }
}

#[test]
fn oversized_headers_return_431() {
    let mut req = b"CONNECT a.test:443 HTTP/1.1\r\n".to_vec();
    for i in 0..600 {
        req.extend_from_slice(format!("X-Pad-{i}: {}\r\n", "a".repeat(40)).as_bytes());
    }
    assert!(req.len() > MAX_HEAD_BYTES);
    let rejection = refused(request(&open_server(), &req));
    assert!(rejection.response().starts_with("HTTP/1.1 431"));
    assert!(rejection.response().ends_with("request headers exceed 16384 bytes\n"));
    let misuse = rejection.misuse().expect("oversized head is misuse");
    assert!(misuse.contains("byte limit"), "{misuse}");
}

#[test]
fn non_connect_method_returns_405() {
    let rejection = refused(request(
        &open_server(),
        b"GET http://example.com/ HTTP/1.1\r\nHost: example.com\r\n\r\n",
    ));
    let response = rejection.response();
    assert!(response.starts_with("HTTP/1.1 405"), "{response}");
    assert!(response.contains("Allow: CONNECT"), "{response}");
    let misuse = rejection.misuse().expect("non-CONNECT is misuse");
    assert!(misuse.contains("only supports CONNECT tunnels"), "{misuse}");
}

#[test]
fn missing_port_returns_400() {
    let rejection = refused(request(&open_server(), b"CONNECT example.com HTTP/1.1\r\n\r\n"));
    let response = rejection.response();
    assert!(response.starts_with("HTTP/1.1 400"), "{response}");
    let misuse = rejection.misuse().expect("missing port is misuse");
    assert!(misuse.contains("must include a port"), "{misuse}");
}

#[test]
fn dial_failures_map_to_status_codes() {
    let cases = [
        (DialError::Forbidden, "HTTP/1.1 403"),
        (DialError::TimedOut, "HTTP/1.1 504"),
        (DialError::ConnectionRefused, "HTTP/1.1 502"),
        (DialError::HostUnreachable, "HTTP/1.1 502"),
        (DialError::NetworkUnreachable, "HTTP/1.1 502"),
        (DialError::Internal, "HTTP/1.1 502"),
    ];
    for (err, want) in cases {
        let rejection = Rejection::from_dial(err);
        assert!(rejection.response().starts_with(want), "{err:?}");
        assert_eq!(rejection.misuse(), None, "{err:?}");
    }
}

#[test]
fn responses_are_exact() {
    assert_eq!(
        Rejection::from_dial(DialError::ConnectionRefused).response(),
        "HTTP/1.1 502 Bad Gateway\r\n\
         Content-Type: text/plain; charset=utf-8\r\n\
         Content-Length: 47\r\n\
         Connection: close\r\n\r\n\
         upstream connection failed: connection refused\n"
    );
    assert_eq!(
        Rejection::AuthRequired.response(),
        "HTTP/1.1 407 Proxy Authentication Required\r\n\
         Proxy-Authenticate: Basic realm=\"srp\"\r\n\
         Content-Type: text/plain; charset=utf-8\r\n\
         Content-Length: 30\r\n\
         Connection: close\r\n\r\n\
         proxy authentication required\n"
    );
}

#[test]
fn header_terminator_split_across_reads_is_detected() {
    let server = open_server();
    let mut reader = HeadReader::new();
    assert!(matches!(
        server.receive(&mut reader, b"CONNECT s.test:443 HTTP/1.1\r\n\r"),
        HttpStep::NeedMore
    ));
    assert!(matches!(server.receive(&mut reader, b"\n"), HttpStep::Dial(_)));
}

#[test]
fn heads_may_come_byte_by_byte() {
    let req = b"CONNECT s.test:443 HTTP/1.1\r\nA: b\r\n\r\n";
    let mut reader = HeadReader::new();
    for (i, byte) in req.iter().enumerate() {
        let scan = reader.feed(&[*byte]);
        if i + 1 < req.len() {
            assert_eq!(scan, HeadScan::NeedMore);
        } else {
            assert_eq!(scan, HeadScan::Complete(req.len()));
        }
    }
}

#[test]
fn malformed_heads_are_bad_requests() {
    let bad: [&[u8]; 5] = [
        b"CONNECT a:1 HTTP/1.1\r\nno colon\r\n\r\n",
        b"CONNECT a:1 HTTP/2\r\n\r\n",
        b"CONNECT a:1\r\n\r\n",
        b"\r\n\r\n",
        b"CONNECT \xff:1 HTTP/1.1\r\n\r\n",
    ];
    for head in bad {
        match parse_head(head, Vec::new()) {
            Err(Rejection::BadRequest(_)) => {}
            other => panic!("{head:?}: {other:?}"),
        }
    }
    assert!(parse_head(b"CONNECT  a:1 HTTP/1.1 x\r\n\r\n", Vec::new()).is_ok());
    match parse_head(b"CONNECT a:1 HTTP/1.1\r\nproxy-AUTHORIZATION :  x y \r\n\r\n", vec![9]) {
        Ok(h) => {
            assert_eq!(h.proxy_auth.as_deref(), Some("x y"));
            assert_eq!(h.leftover, vec![9]);
        }
        other => panic!("{other:?}"),
    }
}

#[test]
fn authority_parser_rejects_broken_ipv6_forms() {
    assert!(parse_authority("[::1:443").is_err());
    assert!(parse_authority("[::1]").is_err());
    assert!(parse_authority("[not-an-ip]:443").is_err());
    assert!(parse_authority("host:0").is_err());
    assert!(parse_authority("host:abc").is_err());
}

#[test]
fn authorities_have_their_kinds() {
    assert_eq!(parse_authority("h:1"), Ok(TargetAddr::Domain("h".into(), 1)));
    assert_eq!(parse_authority("1.2.3.4:65535"), Ok(TargetAddr::V4([1, 2, 3, 4], 65535)));
    assert_eq!(
        parse_authority("::1:443"),
        Ok(TargetAddr::V6([0, 0, 0, 0, 0, 0, 0, 0, 0, 0, 0, 0, 0, 0, 0, 1], 443))
    );
    assert_eq!(parse_authority("1.2.3:4"), Ok(TargetAddr::Domain("1.2.3".into(), 4)));
    assert!(parse_authority(":443").is_err());
    assert!(parse_authority("a b:443").is_err());
    assert!(parse_authority("host:65536").is_err());
}

#[test]
fn host_names_are_checked() {
    assert_eq!(validate_domain("example.com"), Ok(()));
    assert_eq!(validate_domain(""), Err("empty host name"));
    assert_eq!(validate_domain(&"a".repeat(255)), Ok(()));
    assert_eq!(validate_domain(&"a".repeat(256)), Err("host name longer than 255 bytes"));
    assert_eq!(validate_domain(&"é".repeat(128)), Err("host name longer than 255 bytes"));
    assert_eq!(validate_domain("a b"), Err("host name contains control characters"));
    assert_eq!(validate_domain("a\u{7f}"), Err("host name contains control characters"));
    assert_eq!(validate_domain("é"), Ok(()));
}

#[test]
fn local_failures_have_their_reasons() {
    let cases = [
        (IoFailure::ConnectionRefused, DialError::ConnectionRefused, "connection refused"),
        (IoFailure::TimedOut, DialError::TimedOut, "timed out"),
        (IoFailure::HostUnreachable, DialError::HostUnreachable, "host unreachable"),
        (IoFailure::NetworkUnreachable, DialError::NetworkUnreachable, "network unreachable"),
        (IoFailure::NetworkDown, DialError::NetworkUnreachable, "network unreachable"),
        (IoFailure::PermissionDenied, DialError::Forbidden, "forbidden by policy"),
        (IoFailure::Other, DialError::Internal, "internal error"),
    ];
    for (io, dial, text) in cases {
        assert_eq!(DialError::from_io(&io), dial);
        assert_eq!(dial.as_str(), text);
    }
}

#[test]
fn peers_that_go_away_are_no_failure() {
    assert_eq!(relay_outcome(Ok((3, 4))), Ok((3, 4)));
    for gone in [IoFailure::ConnectionReset, IoFailure::BrokenPipe, IoFailure::NotConnected] {
        assert_eq!(relay_outcome(Err(gone)), Ok((0, 0)));
    }
    assert_eq!(relay_outcome(Err(IoFailure::TimedOut)), Err(IoFailure::TimedOut));
}

#[test]
fn byte_strings_are_compared_whole() {
    assert!(ct_eq(b"", b""));
    assert!(ct_eq(b"abc", b"abc"));
    assert!(!ct_eq(b"abc", b"abd"));
    assert!(!ct_eq(b"abc", b"ab"));
    assert!(!ct_eq(b"\x00", b"\x80"));
}

#[test]
fn accept_failures_slow_down() {
    let mut f = AcceptFailures::new();
    for want in [100u64, 200, 400, 800, 1600, 2000, 2000] {
        assert_eq!(f.on_failure(), want);
    }
    f.on_accept();
    assert_eq!(f.on_failure(), 100);
}

#[test]
fn targets_are_read_back_from_their_text() {
    let mut mapped = [0u8; 16];
    mapped[10..].copy_from_slice(&[0xff, 0xff, 10, 0, 0, 7]);
    for addr in [
        TargetAddr::V4([0, 10, 200, 255], 1),
        TargetAddr::V6([0; 16], 65535),
        TargetAddr::V6(mapped, 443),
        TargetAddr::V6([0xfe, 0x80, 0, 0, 0, 0, 0, 0, 0, 1, 0, 0, 0, 0, 0, 0], 22),
        TargetAddr::Domain("example.com".into(), 80),
        TargetAddr::Domain("a:b".into(), 80),
        TargetAddr::Domain("\u{00fc}ber.de".into(), 80),
    ] {
        match parse_authority(&addr.display()) {
            Ok(read) => assert_eq!(read, addr),
            Err(e) => panic!("{}: {e:?}", addr.display()),
        }
    }
    // The text of an address is that address, and port zero is nobody's.
    match parse_authority(&TargetAddr::Domain("::1".into(), 80).display()) {
        Ok(read) => {
            let mut one = [0u8; 16];
            one[15] = 1;
            assert_eq!(read, TargetAddr::V6(one, 80));
        }
        Err(e) => panic!("{e:?}"),
    }
    assert!(parse_authority(&TargetAddr::V4([1, 2, 3, 4], 0).display()).is_err());
}

#[test]
fn names_that_are_accepted_survive_the_wire() {
    for host in ["a", &"x".repeat(255), "\u{1f980}.example"] {
        assert!(validate_domain(host).is_ok());
        let addr = TargetAddr::Domain(host.to_string(), 7);
        let mut wire = bytes::BytesMut::new();
        addr.encode(&mut wire);
        assert_eq!(TargetAddr::decode(&mut wire), Ok(addr));
        assert!(wire.is_empty());
    }
    assert!(validate_domain(&"x".repeat(256)).is_err());
}

#[test]
fn credentials_are_cut_at_the_first_colon() {
    let server = HttpConnectServer::new(Some(("user".into(), "pa:ss".into())));
    assert!(server.check_basic(b"user:pa:ss"));
    assert!(!server.check_basic(b"user:pa"));
    assert!(!server.check_basic(b"user"));
    let odd = HttpConnectServer::new(Some(("us:er".into(), "pw".into())));
    assert!(!odd.check_basic(b"us:er:pw"), "such a name can never be presented");
}
