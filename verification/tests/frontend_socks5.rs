use srp::frontend::socks5::{
    rep_for, reply, Socks5Server, SocksError, SocksPhase, SocksStep, CMD_CONNECT, METHOD_NONE,
    METHOD_UNACCEPTABLE, METHOD_USERPASS, REP_ATYP_NOT_SUPPORTED, REP_CMD_NOT_SUPPORTED,
    REP_CONN_REFUSED, REP_GENERAL_FAILURE, REP_HOST_UNREACHABLE, REP_NET_UNREACHABLE,
    REP_NOT_ALLOWED, REP_SUCCESS, REP_TTL_EXPIRED, VER_SOCKS5, VER_USERPASS,
};
use srp::frontend::DialError;
use srp::{ProtoError, TargetAddr};

const OK_REPLY: [u8; 10] = [0x05, 0x00, 0x00, 0x01, 0, 0, 0, 0, 0, 0];

fn connect_req(atyp: u8, body: &[u8], port: u16) -> Vec<u8> {
    let mut v = vec![VER_SOCKS5, CMD_CONNECT, 0x00, atyp];
    v.extend_from_slice(body);
    v.extend_from_slice(&port.to_be_bytes());
    v
}

fn domain_req(host: &str, port: u16) -> Vec<u8> {
    let mut body = vec![host.len() as u8];
    body.extend_from_slice(host.as_bytes());
    connect_req(TargetAddr::KIND_DOMAIN, &body, port)
}

fn open_server() -> Socks5Server {
    Socks5Server::new(None)
}

fn guarded() -> Socks5Server {
    Socks5Server::new(Some(("neko".into(), "s3cret".into())))
}

fn next(step: SocksStep) -> (usize, Vec<u8>) {
    match step {
        SocksStep::Next { consumed, reply } => (consumed, reply),
        other => panic!("{other:?}"),
    }
}

fn closed(step: SocksStep) -> Vec<u8> {
    match step {
        SocksStep::Close(reply) => reply,
        other => panic!("{other:?}"),
    }
}

fn failed(step: SocksStep) -> SocksError {
    match step {
        SocksStep::Fail(e) => e,
        other => panic!("{other:?}"),
    }
}

#[test]
fn no_auth_connect_succeeds_for_all_address_kinds() {
    let server = open_server();
    assert_eq!(
        next(server.negotiate_method(&[VER_SOCKS5, 1, METHOD_NONE])),
        (3, vec![VER_SOCKS5, METHOD_NONE])
    );
    assert_eq!(next(server.authenticate(&[])), (0, vec![]));

    let cases: Vec<(Vec<u8>, TargetAddr)> = vec![
        (
            domain_req("example.com", 443),
            TargetAddr::Domain("example.com".into(), 443),
        ),
        (
            connect_req(TargetAddr::KIND_V4, &[1, 2, 3, 4], 80),
            TargetAddr::V4([1, 2, 3, 4], 80),
        ),
        (
            connect_req(TargetAddr::KIND_V6, &[0u8; 16], 8443),
            TargetAddr::V6([0u8; 16], 8443),
        ),
    ];
    for (req, expected) in cases {
        match server.read_request(&req) {
            SocksStep::Dial { consumed, addr } => {
                assert_eq!(consumed, req.len());
                assert_eq!(addr, expected);
            }
            other => panic!("{other:?}"),
        }
        for cut in 0..req.len() {
            match server.read_request(&req[..cut]) {
                SocksStep::Need(n) => assert!(n >= 1 && cut + n <= req.len()),
                other => panic!("{other:?}"),
            }
        }
    }
    assert_eq!(reply(REP_SUCCESS), OK_REPLY);
}

#[test]
fn userpass_auth_accepts_correct_credentials() {
    let server = guarded();
    assert_eq!(
        next(server.negotiate_method(&[VER_SOCKS5, 2, METHOD_NONE, METHOD_USERPASS])),
        (4, vec![VER_SOCKS5, METHOD_USERPASS])
    );
    let mut exchange = vec![VER_USERPASS, 4];
    exchange.extend_from_slice(b"neko");
    exchange.push(6);
    exchange.extend_from_slice(b"s3cret");
    assert_eq!(next(server.authenticate(&exchange)), (13, vec![VER_USERPASS, 0x00]));
    for cut in 0..exchange.len() {
        assert!(matches!(server.authenticate(&exchange[..cut]), SocksStep::Need(_)));
    }
}

#[test]
fn userpass_auth_rejects_wrong_password() {
    let server = guarded();
    let reply = closed(server.authenticate(&[
        VER_USERPASS, 4, b'n', b'e', b'k', b'o', 3, b'b', b'a', b'd',
    ]));
    assert_eq!(reply[0], VER_USERPASS);
    assert_ne!(reply[1], 0x00, "a failed authentication must not look like a success");
    assert!(matches!(server.authenticate(&[VER_USERPASS, 0, 0]), SocksStep::Close(_)));
}

#[test]
fn method_negotiation_failure_returns_ff() {
    assert_eq!(
        closed(guarded().negotiate_method(&[VER_SOCKS5, 1, METHOD_NONE])),
        vec![VER_SOCKS5, METHOD_UNACCEPTABLE]
    );
    assert_eq!(
        closed(open_server().negotiate_method(&[VER_SOCKS5, 1, METHOD_USERPASS])),
        vec![VER_SOCKS5, METHOD_UNACCEPTABLE]
    );
}

#[test]
fn unsupported_commands_return_0x07() {
    for cmd in [0x02u8, 0x03, 0x09] {
        let mut req = vec![VER_SOCKS5, cmd, 0x00, TargetAddr::KIND_V4, 1, 2, 3, 4];
        req.extend_from_slice(&80u16.to_be_bytes());
        let reply = closed(open_server().read_request(&req));
        assert_eq!(reply[1], REP_CMD_NOT_SUPPORTED, "cmd 0x{cmd:02x}");
        assert_eq!(reply.len(), 10);
    }
}

#[test]
fn dial_errors_map_to_reply_codes() {
    let cases = [
        (DialError::HostUnreachable, REP_HOST_UNREACHABLE),
        (DialError::ConnectionRefused, REP_CONN_REFUSED),
        (DialError::NetworkUnreachable, REP_NET_UNREACHABLE),
        (DialError::TimedOut, REP_TTL_EXPIRED),
        (DialError::Forbidden, REP_NOT_ALLOWED),
        (DialError::Internal, REP_GENERAL_FAILURE),
    ];
    for (err, want) in cases {
        let frame = reply(rep_for(err));
        assert_eq!(frame[1], want, "{err:?}");
        assert_ne!(frame[1], REP_SUCCESS);
        assert_eq!(frame[3], TargetAddr::KIND_V4);
    }
}

#[test]
fn rejects_unknown_address_type() {
    let reply = closed(open_server().read_request(&[VER_SOCKS5, CMD_CONNECT, 0x00, 0x07, 0, 0]));
    assert_eq!(reply[1], REP_ATYP_NOT_SUPPORTED);
}

#[test]
fn rejects_wrong_socks_version() {
    let err = failed(open_server().negotiate_method(&[0x04, 0x01, 0x00, 0x50]));
    assert!(
        err.message().contains("unsupported socks version"),
        "{}",
        err.message()
    );
}

#[test]
fn broken_messages_are_named() {
    let s = guarded();
    let cases = [
        (
            failed(s.negotiate_method(&[0x04, 1])),
            SocksError::GreetingVersion(4),
            "unsupported socks version 0x04",
        ),
        (
            failed(s.negotiate_method(&[0x05, 0])),
            SocksError::NoMethods,
            "socks5 greeting advertises zero methods",
        ),
        (
            failed(s.authenticate(&[0xAB, 0])),
            SocksError::AuthVersion(0xAB),
            "unsupported userpass subnegotiation version 0xab",
        ),
        (
            failed(s.read_request(&[0x04, 1, 0])),
            SocksError::RequestVersion(4),
            "unsupported socks version 0x04 in request",
        ),
        (
            failed(s.read_request(&[5, 1, 0, 3, 0])),
            SocksError::EmptyDomain,
            "socks5 request carries empty domain name",
        ),
        (
            failed(s.read_request(&connect_req(3, &[2, 0xff, 0xfe], 80))),
            SocksError::BadAddress(ProtoError::BadDomain),
            "decode socks5 domain address: invalid domain name",
        ),
        (
            failed(s.read_request(&domain_req("a b", 80))),
            SocksError::BadDomain,
            "bad domain: host name contains control characters",
        ),
    ];
    for (got, want, text) in cases {
        assert_eq!(got, want);
        assert_eq!(got.message(), text);
    }
}

#[test]
fn requests_leave_what_follows_them() {
    let mut req = domain_req("echo.test", 7);
    let len = req.len();
    req.extend_from_slice(b"ping");
    match open_server().read_request(&req) {
        SocksStep::Dial { consumed, addr } => {
            assert_eq!(consumed, len);
            assert_eq!(addr, TargetAddr::Domain("echo.test".into(), 7));
        }
        other => panic!("{other:?}"),
    }
}

#[test]
fn nothing_behind_a_message_is_asked_for() {
    let server = guarded();
    let greeting = vec![VER_SOCKS5, 2, METHOD_NONE, METHOD_USERPASS];
    let mut login = vec![VER_USERPASS, 4];
    login.extend_from_slice(b"neko");
    login.push(6);
    login.extend_from_slice(b"s3cret");
    let request = domain_req("example.com", 443);
    for cut in 0..greeting.len() {
        match server.negotiate_method(&greeting[..cut]) {
            SocksStep::Need(n) => assert!(0 < n && cut + n <= greeting.len()),
            other => panic!("{other:?}"),
        }
    }
    for cut in 0..login.len() {
        match server.authenticate(&login[..cut]) {
            SocksStep::Need(n) => assert!(0 < n && cut + n <= login.len()),
            other => panic!("{other:?}"),
        }
    }
    for cut in 0..request.len() {
        match server.read_request(&request[..cut]) {
            SocksStep::Need(n) => assert!(0 < n && cut + n <= request.len()),
            other => panic!("{other:?}"),
        }
    }
}

#[test]
fn a_target_is_dialed_only_after_greeting_and_login() {
    let server = guarded();
    let hello = [VER_SOCKS5, 1, METHOD_USERPASS];
    let login = [&[VER_USERPASS, 4][..], b"neko", &[6], b"s3cret"].concat();
    let wrong = [&[VER_USERPASS, 4][..], b"neko", &[3], b"bad"].concat();
    let request = domain_req("example.com", 443);

    // A request out of its turn is no request.
    let (step, phase) = server.on_message(SocksPhase::Greeting, &request);
    assert!(!matches!(step, SocksStep::Dial { .. }));
    assert_eq!(phase, SocksPhase::Greeting);
    let (step, phase) = server.on_message(SocksPhase::Login, &request);
    assert_eq!(failed(step), SocksError::AuthVersion(VER_SOCKS5));
    assert_eq!(phase, SocksPhase::Login);

    let (step, phase) = server.on_message(SocksPhase::Greeting, &hello[..2]);
    assert!(matches!(step, SocksStep::Need(1)));
    assert_eq!(phase, SocksPhase::Greeting);
    let (step, phase) = server.on_message(phase, &hello);
    assert_eq!(next(step), (3, vec![VER_SOCKS5, METHOD_USERPASS]));
    assert_eq!(phase, SocksPhase::Login);
    let (step, stays) = server.on_message(phase, &wrong);
    assert_eq!(closed(step), vec![VER_USERPASS, 1]);
    assert_eq!(stays, SocksPhase::Login);
    let (step, phase) = server.on_message(phase, &login);
    assert_eq!(next(step), (13, vec![VER_USERPASS, 0]));
    assert_eq!(phase, SocksPhase::Request);
    let (step, phase) = server.on_message(phase, &request);
    match step {
        SocksStep::Dial { addr, .. } => {
            assert_eq!(addr, TargetAddr::Domain("example.com".into(), 443));
        }
        other => panic!("{other:?}"),
    }
    assert_eq!(phase, SocksPhase::Request);

    // Without credentials the login takes no byte.
    let (step, phase) = open_server().on_message(SocksPhase::Login, &[]);
    assert_eq!(next(step), (0, vec![]));
    assert_eq!(phase, SocksPhase::Request);
}
