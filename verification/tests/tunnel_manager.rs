use srp::frontend::{DialError, IoFailure};
use srp::tunnel::config::{
    AuthMethod, Config, HelperConfig, HostKeyPolicy, ListenConfig, ReconnectConfig, Span,
    SshConfig, TunnelMode,
};
use srp::tunnel::direct::{
    classify_open_error, is_transport_failure, ChannelRefusal, DirectDial, DirectTcpipDialer,
    OpenEvent, OpenStep, SshFailure,
};
use srp::tunnel::handler::{ClientHandler, DisconnectSignal, HostKeyVerdict, KnownHost};
use srp::tunnel::manager::{
    accepts_unknown_host, fingerprint_matches, is_dead, password_verdict, rsa_hash, AgentAttempt,
    AgentAuth, AuthError, FailureAction, RsaHash, SuperviseAction, TunnelManager, TunnelState,
    WaitError, WaitEvent, WaitStep,
};
use srp::TargetAddr;

fn test_cfg(reconnect: bool) -> Config {
    Config {
        ssh: SshConfig {
            host: "127.0.0.1".into(),
            port: 1,
            user: "nobody".into(),
            auth: AuthMethod::Password { password: "x".into() },
            host_key: HostKeyPolicy::AcceptNew,
            known_hosts: Some("/nonexistent/known_hosts".into()),
            keepalive_interval: Span::from_secs(1),
            keepalive_max: 3,
            connect_timeout: Span::from_millis(300),
        },
        mode: TunnelMode::DirectTcpip,
        listen: ListenConfig::default(),
        reconnect: ReconnectConfig { enabled: reconnect, ..ReconnectConfig::default() },
        helper: HelperConfig::default(),
    }
}

#[test]
fn pinned_fingerprint_comparison_is_lenient_about_prefix_and_padding() {
    let actual = "abc123XYZ+/def";
    assert!(fingerprint_matches("SHA256:abc123XYZ+/def", actual));
    assert!(fingerprint_matches("abc123XYZ+/def", actual));
    assert!(fingerprint_matches("  SHA256:abc123XYZ+/def==  ", actual));
    assert!(!fingerprint_matches("SHA256:wrongwrongwrong", actual));
    assert!(
        !fingerprint_matches("", actual),
        "empty pin must never match"
    );
}

#[test]
fn empty_digests_never_match() {
    for empty in ["", "  ", "SHA256:", "SHA256:SHA256:", "===", "SHA256:=="] {
        assert!(!fingerprint_matches(empty, empty), "{empty:?}");
    }
    assert!(fingerprint_matches("SHA256:SHA256:a", "a="));
    assert!(!fingerprint_matches("sha256:a", "a"));
    assert!(!fingerprint_matches("a=b", "a"));
}

#[test]
fn only_accept_new_tolerates_unknown_hosts() {
    assert!(!accepts_unknown_host(&HostKeyPolicy::Strict));
    assert!(accepts_unknown_host(&HostKeyPolicy::AcceptNew));
    assert!(!accepts_unknown_host(&HostKeyPolicy::Pinned("x".into())));
}

#[test]
fn disconnect_signal_latches() {
    let mut s = DisconnectSignal::default();
    assert!(!s.is_triggered());
    s.trigger();
    assert!(s.is_triggered());
    s.trigger();
    assert!(s.is_triggered(), "must stay latched");
}

fn handler(policy: HostKeyPolicy, known_hosts: Option<&str>) -> ClientHandler {
    ClientHandler::new("example.com".into(), 22, policy, known_hosts.map(|p| p.into()))
}

fn a_key() -> russh::keys::PublicKey {
    let sk = russh::keys::PrivateKey::random(
        &mut russh::keys::key::safe_rng(),
        russh::keys::Algorithm::Ed25519,
    )
    .expect("generate key");
    sk.public_key().clone()
}

fn fingerprint(key: &russh::keys::PublicKey) -> String {
    key.fingerprint(Default::default()).to_string()
}

#[test]
fn pinned_policy_matches_only_the_pinned_fingerprint() {
    let key = a_key();
    let fp = fingerprint(&key);

    let h = handler(HostKeyPolicy::Pinned(fp.clone()), None);
    assert_eq!(
        h.verify(&fp, KnownHost::Unknown),
        HostKeyVerdict::Accept,
        "matching pin must be accepted"
    );

    let h = handler(HostKeyPolicy::Pinned("SHA256:bogus".into()), None);
    assert_eq!(
        h.verify(&fp, KnownHost::Unknown),
        HostKeyVerdict::Refuse,
        "wrong pin must be refused"
    );

    let h = handler(HostKeyPolicy::Pinned(fp.clone()), Some("/nonexistent/known_hosts"));
    assert!(!h.asks_known_hosts());
    assert_eq!(
        h.verify(&fp, KnownHost::Failed),
        HostKeyVerdict::Accept,
        "pinned mode must not depend on known_hosts being readable"
    );

    let h = handler(HostKeyPolicy::Pinned(fp), Some("/nonexistent/known_hosts"));
    assert_eq!(
        h.verify(&fingerprint(&a_key()), KnownHost::Failed),
        HostKeyVerdict::Refuse,
        "a different key must still be refused in pinned mode"
    );
}

#[test]
fn unreadable_known_hosts_never_means_trusted_under_strict() {
    for path in ["/", "/nonexistent/does-not-exist"] {
        let h = handler(HostKeyPolicy::Strict, Some(path));
        let key = a_key();
        let known = match russh::keys::check_known_hosts_path(&h.host, h.port, &key, path) {
            Ok(true) => KnownHost::Known,
            Ok(false) => KnownHost::Unknown,
            Err(russh::keys::Error::KeyChanged { .. }) => KnownHost::Changed,
            Err(_) => KnownHost::Failed,
        };
        assert_eq!(
            h.verify(&fingerprint(&key), known),
            HostKeyVerdict::Refuse,
            "an unreadable known_hosts ({path:?}) must never mean 'trusted'"
        );
    }
}

#[test]
fn the_record_decides_without_a_pin() {
    let strict = handler(HostKeyPolicy::Strict, None);
    let accept_new = handler(HostKeyPolicy::AcceptNew, None);
    assert!(strict.asks_known_hosts() && accept_new.asks_known_hosts());
    assert_eq!(strict.verify("x", KnownHost::Known), HostKeyVerdict::Accept);
    assert_eq!(strict.verify("x", KnownHost::Unknown), HostKeyVerdict::Refuse);
    assert_eq!(accept_new.verify("x", KnownHost::Known), HostKeyVerdict::Accept);
    assert_eq!(accept_new.verify("x", KnownHost::Unknown), HostKeyVerdict::Learn);
    for h in [&strict, &accept_new] {
        assert_eq!(h.verify("x", KnownHost::Changed), HostKeyVerdict::Refuse);
        assert_eq!(h.verify("x", KnownHost::Failed), HostKeyVerdict::Refuse);
    }
}

#[test]
fn starts_connecting_without_a_session() {
    let m = TunnelManager::new(&test_cfg(true));
    assert_eq!(m.state(), TunnelState::Connecting);
    assert!(m.current(false).is_none());
    assert_eq!(m.connect_count(), 0);
    assert_eq!(m.poll_interval(), Span { secs: 0, nanos: 500_000_000 });

    let mut cfg = test_cfg(true);
    cfg.ssh.keepalive_interval = Span::from_secs(15);
    assert_eq!(TunnelManager::new(&cfg).poll_interval(), Span { secs: 7, nanos: 500_000_000 });
}

#[test]
fn failed_attempts_are_counted_and_repeated() {
    let mut m = TunnelManager::new(&test_cfg(true));
    for n in 0..3u32 {
        assert_eq!(m.supervise(false), SuperviseAction::Connect(n as u64 + 1));
        assert_eq!(m.on_failed(), FailureAction::BackOff { failures: n });
        assert_eq!(m.state(), TunnelState::Reconnecting { attempts: n + 1 });
    }
    assert_eq!(m.connect_count(), 0, "nothing should have connected");

    assert_eq!(m.supervise(false), SuperviseAction::Connect(4));
    m.on_connected(4);
    assert!(m.state().is_up());
    assert_eq!(m.connect_count(), 1);
    assert_eq!(m.supervise(false), SuperviseAction::Watch);

    m.on_watched(false);
    assert_eq!(m.state(), TunnelState::Up(4));
    m.on_watched(true);
    assert_eq!(m.state(), TunnelState::Reconnecting { attempts: 0 });
    assert_eq!(m.supervise(false), SuperviseAction::Connect(5));
    assert_eq!(m.on_failed(), FailureAction::BackOff { failures: 0 });
}

#[test]
fn a_dead_session_is_not_handed_out() {
    let mut m = TunnelManager::new(&test_cfg(true));
    assert_eq!(m.supervise(false), SuperviseAction::Connect(1));
    m.on_connected(1);
    assert_eq!(m.current(false), Some(1));
    assert_eq!(m.current(true), None);
    assert_eq!(m.supervise(true), SuperviseAction::Connect(2));
    assert!(is_dead(true, false) && is_dead(false, true) && !is_dead(false, false));
}

#[test]
fn waiting_for_a_session_ends_in_time() {
    let mut m = TunnelManager::new(&test_cfg(true));
    let look = WaitEvent::Look { time_left: true };
    assert_eq!(m.wait_for_session(false, look), WaitStep::Wait);
    assert_eq!(
        m.wait_for_session(false, WaitEvent::Look { time_left: false }),
        WaitStep::Fail(WaitError::TimedOut)
    );
    assert_eq!(
        m.wait_for_session(false, WaitEvent::Elapsed),
        WaitStep::Fail(WaitError::TimedOut)
    );
    assert_eq!(
        m.wait_for_session(false, WaitEvent::Ended),
        WaitStep::Fail(WaitError::Stopped)
    );
    assert_eq!(m.supervise(false), SuperviseAction::Connect(1));
    m.on_connected(1);
    assert_eq!(m.wait_for_session(false, look), WaitStep::Ready(1));
    assert_eq!(m.wait_for_session(true, look), WaitStep::Wait);
}

#[test]
fn shutdown_ends_everything() {
    let mut m = TunnelManager::new(&test_cfg(true));
    assert_eq!(m.supervise(false), SuperviseAction::Connect(1));
    m.on_connected(1);
    assert_eq!(m.shutdown(), Some(1));
    assert_eq!(m.state(), TunnelState::Closed);
    assert_eq!(m.supervise(false), SuperviseAction::Stop);
    assert_eq!(
        m.wait_for_session(false, WaitEvent::Look { time_left: true }),
        WaitStep::Fail(WaitError::ShuttingDown)
    );
    assert_eq!(m.shutdown(), None);
    m.on_failed();
    for time_left in [true, false] {
        assert_eq!(
            m.wait_for_session(false, WaitEvent::Look { time_left }),
            WaitStep::Fail(WaitError::ShuttingDown)
        );
    }
}

#[test]
fn disabled_reconnect_gives_up_after_one_failure() {
    let mut m = TunnelManager::new(&test_cfg(false));
    assert_eq!(m.supervise(false), SuperviseAction::Connect(1));
    assert_eq!(m.on_failed(), FailureAction::GiveUp);
    assert_eq!(m.state(), TunnelState::Closed);
}

#[test]
fn agent_keys_are_tried_until_one_is_taken() {
    assert_eq!(AgentAuth::start(0).err(), Some(AuthError::NoIdentities));

    let mut a = AgentAuth::start(4).unwrap();
    assert!(a.on_attempt(AgentAttempt::Skipped));
    assert!(a.on_attempt(AgentAttempt::Refused));
    assert!(a.on_attempt(AgentAttempt::Failed));
    assert!(!a.on_attempt(AgentAttempt::Accepted), "no key after the one that was taken");
    assert_eq!(a.verdict("alice"), Ok(()));

    let mut a = AgentAuth::start(2).unwrap();
    a.on_attempt(AgentAttempt::Refused);
    a.on_attempt(AgentAttempt::Failed);
    let e = a.verdict("alice").unwrap_err();
    assert_eq!(e, AuthError::Rejected("alice".into()));
    assert_eq!(e.message(), "ssh authentication rejected for user alice");

    let mut a = AgentAuth::start(1).unwrap();
    a.on_attempt(AgentAttempt::Skipped);
    let e = a.verdict("alice").unwrap_err();
    assert_eq!(e.message(), "no ssh-agent identity was accepted");
    assert_eq!(AuthError::NoIdentities.message(), "ssh-agent has no identities loaded");

    assert_eq!(password_verdict(true, "bob"), Ok(()));
    assert_eq!(password_verdict(false, "bob"), Err(AuthError::Rejected("bob".into())));
}

#[test]
fn rsa_keys_get_a_hash() {
    assert_eq!(rsa_hash(false, Some(Some(RsaHash::Sha512))), None);
    assert_eq!(rsa_hash(true, Some(Some(RsaHash::Sha512))), Some(RsaHash::Sha512));
    assert_eq!(rsa_hash(true, Some(None)), Some(RsaHash::Sha256));
    assert_eq!(rsa_hash(true, None), Some(RsaHash::Sha256));
}

#[test]
fn maps_channel_open_failures_to_meaningful_dial_errors() {
    assert_eq!(
        classify_open_error(&SshFailure::ChannelOpenFailure(ChannelRefusal::AdministrativelyProhibited)),
        DialError::Forbidden
    );
    assert_eq!(
        classify_open_error(&SshFailure::ChannelOpenFailure(ChannelRefusal::ConnectFailed)),
        DialError::ConnectionRefused
    );
    assert_eq!(
        classify_open_error(&SshFailure::Disconnect),
        DialError::NetworkUnreachable
    );
    assert_eq!(
        classify_open_error(&SshFailure::Io(IoFailure::TimedOut)),
        DialError::TimedOut
    );
}

#[test]
fn only_transport_failures_are_replayable() {
    for reason in [
        ChannelRefusal::ConnectFailed,
        ChannelRefusal::AdministrativelyProhibited,
        ChannelRefusal::ResourceShortage,
        ChannelRefusal::UnknownChannelType,
    ] {
        let e = SshFailure::ChannelOpenFailure(reason);
        assert!(
            !is_transport_failure(&e),
            "server-side refusal {reason:?} must not be replayed"
        );
    }

    assert!(is_transport_failure(&SshFailure::Disconnect));
    assert!(is_transport_failure(&SshFailure::SendError));
    assert!(is_transport_failure(&SshFailure::Hup));
    assert!(is_transport_failure(&SshFailure::KeepaliveTimeout));
    assert!(is_transport_failure(&SshFailure::ConnectionTimeout));
    assert!(is_transport_failure(&SshFailure::Io(IoFailure::BrokenPipe)));

    assert!(!is_transport_failure(&SshFailure::Other));
}

#[test]
fn keepalive_timeout_maps_to_timed_out() {
    assert_eq!(
        classify_open_error(&SshFailure::KeepaliveTimeout),
        DialError::TimedOut
    );
    assert_eq!(
        classify_open_error(&SshFailure::RecvError),
        DialError::NetworkUnreachable
    );
}

#[test]
fn every_open_failure_is_told() {
    let cases = [
        (SshFailure::ChannelOpenFailure(ChannelRefusal::UnknownChannelType), DialError::Internal),
        (SshFailure::ChannelOpenFailure(ChannelRefusal::ResourceShortage), DialError::Internal),
        (SshFailure::ChannelOpenFailure(ChannelRefusal::Other), DialError::Internal),
        (SshFailure::SendError, DialError::NetworkUnreachable),
        (SshFailure::Hup, DialError::NetworkUnreachable),
        (SshFailure::ConnectionTimeout, DialError::TimedOut),
        (SshFailure::InactivityTimeout, DialError::TimedOut),
        (SshFailure::Io(IoFailure::ConnectionRefused), DialError::ConnectionRefused),
        (SshFailure::Io(IoFailure::Other), DialError::NetworkUnreachable),
        (SshFailure::Other, DialError::Internal),
    ];
    for (failure, told) in cases {
        assert_eq!(classify_open_error(&failure), told, "{failure:?}");
    }
}

#[test]
fn requests_are_made_again_twice_at_most() {
    let broken = OpenEvent::Failed { failure: SshFailure::Disconnect, dead: false };
    let mut d = DirectDial::new();
    assert_eq!(d.on_event(broken), OpenStep::Replay { pause_millis: 50 });
    assert_eq!(
        d.on_event(OpenEvent::TimedOut { dead: true }),
        OpenStep::Replay { pause_millis: 0 }
    );
    assert_eq!(d.on_event(broken), OpenStep::Fail(DialError::NetworkUnreachable));
    assert_eq!(
        d.on_event(OpenEvent::TimedOut { dead: true }),
        OpenStep::Fail(DialError::TimedOut)
    );
    assert_eq!(d.on_event(OpenEvent::Opened), OpenStep::Done);

    let mut d = DirectDial::new();
    assert_eq!(
        d.on_event(OpenEvent::NoSession),
        OpenStep::Fail(DialError::NetworkUnreachable)
    );
    assert_eq!(
        d.on_event(OpenEvent::TimedOut { dead: false }),
        OpenStep::Fail(DialError::TimedOut)
    );
    let refused = SshFailure::ChannelOpenFailure(ChannelRefusal::ConnectFailed);
    assert_eq!(
        d.on_event(OpenEvent::Failed { failure: refused, dead: false }),
        OpenStep::Fail(DialError::ConnectionRefused)
    );
    assert_eq!(
        d.on_event(OpenEvent::Failed { failure: refused, dead: true }),
        OpenStep::Replay { pause_millis: 50 }
    );
}

#[test]
fn the_server_is_asked_for_the_host_as_it_is() {
    assert_eq!(
        DirectTcpipDialer::request(&TargetAddr::Domain("example.com".into(), 80)),
        ("example.com".into(), 80)
    );
    assert_eq!(
        DirectTcpipDialer::request(&TargetAddr::V4([10, 0, 0, 1], 65535)),
        ("10.0.0.1".into(), 65535)
    );
    let mut o = [0u8; 16];
    o[15] = 1;
    assert_eq!(DirectTcpipDialer::request(&TargetAddr::V6(o, 1)), ("::1".into(), 1));

    let d = DirectTcpipDialer::new(Span::from_secs(7));
    assert_eq!(d.dial_wait, Span::from_secs(7));
    assert_eq!(d.open_timeout, Span::from_secs(30));
    assert_eq!(d.with_open_timeout(Span::from_secs(1)).open_timeout, Span::from_secs(1));
}
