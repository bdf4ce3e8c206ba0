use srp::cli::{
    build_config, choose_auth, default_identity, discover_ssh_hosts, manual_steps, no_target_hint,
    parse_host_key, parse_target, setup_choice, setup_content, setup_mode, tilde_suffix, typed,
    BuildError, ConnectArgs, SetupChoice, SetupError, SetupMode, TargetError,
};
use srp::tunnel::config::{AuthMethod, Config, HostKeyPolicy, Span, TunnelMode};

#[test]
fn parses_plain_and_ported_targets() {
    assert_eq!(
        parse_target("alice@example.com").unwrap(),
        ("alice".into(), "example.com".into(), 22)
    );
    assert_eq!(
        parse_target("bob@10.0.0.1:2222").unwrap(),
        ("bob".into(), "10.0.0.1".into(), 2222)
    );
}

#[test]
fn parses_ipv6_literals() {
    assert_eq!(
        parse_target("alice@[::1]").unwrap(),
        ("alice".into(), "::1".into(), 22)
    );
    assert_eq!(
        parse_target("alice@[2001:db8::1]:2222").unwrap(),
        ("alice".into(), "2001:db8::1".into(), 2222)
    );
}

#[test]
fn rejects_malformed_targets() {
    for bad in [
        "no-at-sign",
        "@host",
        "user@",
        "user@host:notaport",
        "user@[::1",
        "user@[::1]junk",
    ] {
        assert!(parse_target(bad).is_err(), "should reject {bad:?}");
    }
}

#[test]
fn each_malformed_target_has_its_reason() {
    let cases = [
        ("no-at-sign", TargetError::NoAt, "SSH target must look like user@host[:port]"),
        ("@host", TargetError::NoUser, "SSH target is missing the user part"),
        ("user@", TargetError::NoHost, "SSH target is missing the host part"),
        ("user@:22", TargetError::NoHost, "SSH target is missing the host part"),
        ("user@host:notaport", TargetError::BadPort, "invalid port in SSH target"),
        ("user@host:65536", TargetError::BadPort, "invalid port in SSH target"),
        ("user@[::1]:x", TargetError::BadPort, "invalid port in SSH target"),
        (
            "user@[::1",
            TargetError::UnterminatedLiteral,
            "unterminated IPv6 literal in SSH target",
        ),
        (
            "user@[::1]junk",
            TargetError::TrailingText,
            "unexpected text after IPv6 literal in SSH target",
        ),
    ];
    for (text, error, message) in cases {
        assert_eq!(parse_target(text), Err(error), "{text}");
        assert_eq!(error.message(), message);
    }
}

#[test]
fn targets_are_read_back_from_their_parts() {
    for port in [0u16, 7, 22, 2222, 65535] {
        let plain = format!("alice@gateway:{port}");
        assert_eq!(
            parse_target(&plain),
            Ok(("alice".into(), "gateway".into(), port))
        );
        let bracketed = format!("alice@[fe80::1]:{port}");
        assert_eq!(
            parse_target(&bracketed),
            Ok(("alice".into(), "fe80::1".into(), port))
        );
    }
    // Everything behind the first `@` belongs to the host.
    assert_eq!(
        parse_target("a@b@c"),
        Ok(("a".into(), "b@c".into(), 22))
    );
}

fn args(target: Option<&str>) -> ConnectArgs {
    ConnectArgs {
        target: target.map(|t| t.to_string()),
        socks5: "127.0.0.1:1080".into(),
        http: None,
        no_socks5: false,
        proxy_user: None,
        proxy_password: None,
        host_key: "strict".into(),
        known_hosts: None,
        helper: false,
        helper_path: "srp-helper".into(),
        allow: Vec::new(),
        keepalive: 15,
        dial_wait: 30,
    }
}

fn built(a: ConnectArgs) -> Config {
    match build_config(a, AuthMethod::Agent) {
        Ok(cfg) => cfg,
        Err(e) => panic!("must build: {e:?}"),
    }
}

#[test]
fn cli_defaults_to_discovered_key_or_agent_and_strict_host_key() {
    let found = choose_auth(false, None, None, Some("/home/a/.ssh/id_ed25519".into()), None);
    let cfg = build_config(args(Some("alice@example.com")), found).expect("build");
    match cfg.ssh.auth {
        AuthMethod::PublicKey { path, .. } => {
            assert_eq!(path.to_str(), Some("/home/a/.ssh/id_ed25519"))
        }
        _ => panic!("a discovered key must be used"),
    }
    assert_eq!(cfg.ssh.host_key, HostKeyPolicy::Strict);
    assert_eq!(cfg.listen.socks5.as_deref(), Some("127.0.0.1:1080"));
    assert_eq!(cfg.mode, TunnelMode::DirectTcpip);

    assert!(matches!(choose_auth(false, None, None, None, None), AuthMethod::Agent));
}

#[test]
fn authentication_is_chosen_in_order() {
    let key = || Some("k".into());
    let pw = || Some("pw".to_string());
    assert!(matches!(choose_auth(true, pw(), key(), key(), None), AuthMethod::Agent));
    match choose_auth(false, pw(), key(), key(), None) {
        AuthMethod::Password { password } => assert_eq!(password, "pw"),
        other => panic!("{other:?}"),
    }
    match choose_auth(false, None, Some("named".into()), Some("found".into()), pw()) {
        AuthMethod::PublicKey { path, passphrase } => {
            assert_eq!(path.to_str(), Some("named"));
            assert_eq!(passphrase.as_deref(), Some("pw"));
        }
        other => panic!("{other:?}"),
    }
}

#[test]
fn pinned_fingerprint_is_recognised_from_cli() {
    let mut a = args(Some("alice@example.com"));
    a.host_key = "SHA256:abc123".into();
    assert_eq!(
        built(a).ssh.host_key,
        HostKeyPolicy::Pinned("SHA256:abc123".into())
    );
}

#[test]
fn host_key_policies_have_their_names() {
    assert_eq!(parse_host_key("strict".into()), HostKeyPolicy::Strict);
    assert_eq!(parse_host_key("accept-new".into()), HostKeyPolicy::AcceptNew);
    assert_eq!(parse_host_key("accept_new".into()), HostKeyPolicy::AcceptNew);
    assert_eq!(parse_host_key("Strict".into()), HostKeyPolicy::Pinned("Strict".into()));
}

#[test]
fn helper_flag_switches_mode_and_passes_allow_list() {
    let mut a = args(Some("alice@example.com"));
    a.helper = true;
    a.allow = vec!["*.internal".into(), "10.0.0.1:443".into()];
    let cfg = built(a);
    assert_eq!(cfg.mode, TunnelMode::Helper);
    assert_eq!(cfg.helper.allow, vec!["*.internal", "10.0.0.1:443"]);
}

#[test]
fn disabling_both_listeners_is_rejected() {
    let mut a = args(Some("alice@example.com"));
    a.no_socks5 = true;
    match build_config(a, AuthMethod::Agent) {
        Err(BuildError::Config(e)) => assert_eq!(
            e.message(),
            "invalid configuration: at least one of listen.socks5 / listen.http must be set"
        ),
        _ => panic!("a proxy with no entry point makes no sense"),
    }
}

#[test]
fn missing_target_is_reported_clearly() {
    match build_config(args(None), AuthMethod::Agent) {
        Err(BuildError::NoTarget) => {}
        _ => panic!("must fail"),
    }
    assert!(no_target_hint().contains("未指定 SSH 目标"), "{}", no_target_hint());
    assert!(no_target_hint().ends_with("srp example > srp.toml && srp --config srp.toml"));
}

#[test]
fn options_reach_the_configuration() {
    let mut a = args(Some("alice@[::1]:2200"));
    a.keepalive = 0;
    a.dial_wait = 0;
    a.http = Some("127.0.0.1:8080".into());
    a.proxy_user = Some("u".into());
    a.proxy_password = Some("p".into());
    let cfg = built(a);
    assert_eq!((cfg.ssh.user.as_str(), cfg.ssh.host.as_str(), cfg.ssh.port), ("alice", "::1", 2200));
    assert_eq!(cfg.ssh.keepalive_interval, Span { secs: 1, nanos: 0 });
    assert_eq!(cfg.reconnect.dial_wait, Span { secs: 1, nanos: 0 });
    assert_eq!(cfg.ssh.keepalive_max, 3);
    assert_eq!(cfg.ssh.connect_timeout, Span { secs: 20, nanos: 0 });
    assert_eq!(cfg.listen.http.as_deref(), Some("127.0.0.1:8080"));
    assert_eq!(cfg.credentials(), Some(("u".into(), "p".into())));

    assert!(matches!(
        build_config(args(Some("nobody")), AuthMethod::Agent),
        Err(BuildError::Target(TargetError::NoAt))
    ));
}

#[test]
fn client_configuration_offers_its_hosts() {
    let content = "# comment\n\
                   Host gw\n\
                   \tHostName gw.example.com\n\
                   \tUser alice\n\
                   \n\
                   Host *\n\
                     HostName ignored.example.com\n\
                   HOST alt\r\n\
                     hostname   alt.example.com  \r\n\
                     Port 2222\r\n\
                   Host nameless\n\
                     User bob\n\
                   Host last\n\
                     HostName last.example.com\n\
                     IdentityFile ~/.ssh/x\n\
                     Port 22";
    assert_eq!(
        discover_ssh_hosts(content),
        vec![
            "alice@gw.example.com",
            "root@alt.example.com:2222",
            "root@last.example.com",
        ]
    );
    assert!(discover_ssh_hosts("").is_empty());
    // Comments and empty lines leave an entry as it is.
    assert_eq!(
        discover_ssh_hosts("Host a\n# x\nHostName a.example.com\n"),
        vec!["root@a.example.com"]
    );
    assert_eq!(
        discover_ssh_hosts("Host gw\n    # jump box\n    HostName h.example\n    User alice\n"),
        vec!["alice@h.example"]
    );
    assert_eq!(
        discover_ssh_hosts("Host gw\n  HostName h.example\n\n  User alice\n"),
        vec!["alice@h.example"]
    );
    // What was said before them stays.
    assert_eq!(
        discover_ssh_hosts("Host gw\n  HostName h.example\n\n  HostName x\n  Port 2222\n"),
        vec!["root@h.example:2222"]
    );
    // Elsewhere the last word counts, `Match` or not.
    assert_eq!(
        discover_ssh_hosts("Host a\nHostName h\nHostName x\nMatch all\nHostName y\n"),
        vec!["root@y"]
    );
    // What follows a `Match` that stands apart belongs to no entry.
    assert_eq!(
        discover_ssh_hosts("Host gw\n  HostName h.example\n\nMatch user bob\n  HostName x\n"),
        vec!["root@h.example"]
    );
}

#[test]
fn setup_takes_a_number_or_a_target() {
    let offers = vec!["root@a".to_string(), "root@b:2222".to_string()];
    assert_eq!(setup_choice(" 2 \n", &offers), SetupChoice::Target("root@b:2222".into()));
    assert_eq!(setup_choice("+1", &offers), SetupChoice::Target("root@a".into()));
    assert_eq!(setup_choice("0\n", &offers), SetupChoice::Ask);
    assert_eq!(setup_choice("\n", &offers), SetupChoice::Ask);
    assert_eq!(setup_choice("3", &offers), SetupChoice::BadNumber);
    assert_eq!(setup_choice("00", &offers), SetupChoice::BadNumber);
    assert_eq!(setup_choice("me@c\n", &offers), SetupChoice::Target("me@c".into()));
    assert_eq!(
        setup_choice("99999999999999999999999", &offers),
        SetupChoice::Target("99999999999999999999999".into())
    );
    assert_eq!(typed("  me@c \r\n"), "me@c");
}

#[test]
fn setup_writes_the_defaults_file() {
    assert_eq!(
        setup_content("me@c", true).unwrap(),
        "# /etc/default/srp — 由 srp setup 自动生成\nSRP_ARGS=me@c\n"
    );
    assert_eq!(
        setup_content("me@c:1", false).unwrap(),
        "# /etc/default/srp\nSRP_ARGS=me@c:1\n"
    );
    assert_eq!(setup_content("", true), Err(SetupError::Empty));
    assert_eq!(
        setup_content("c", false),
        Err(SetupError::Malformed(TargetError::NoAt))
    );
}

#[test]
fn tildes_are_found_at_the_front_only() {
    assert_eq!(tilde_suffix("~/.ssh/id_ed25519").as_deref(), Some(".ssh/id_ed25519"));
    assert_eq!(tilde_suffix("~").as_deref(), Some(""));
    assert_eq!(tilde_suffix("~user/x"), None);
    assert_eq!(tilde_suffix("/a/~/b"), None);
    assert_eq!(tilde_suffix(""), None);
}

#[test]
fn identities_are_looked_for_in_order() {
    assert_eq!(default_identity([true, true, true, true]), Some("id_ed25519"));
    assert_eq!(default_identity([false, true, true, true]), Some("id_ecdsa"));
    assert_eq!(default_identity([false, false, true, true]), Some("id_rsa"));
    assert_eq!(default_identity([false, false, false, true]), Some("id_dsa"));
    assert_eq!(default_identity([false; 4]), None);
}

#[test]
fn setup_needs_a_terminal_to_ask() {
    assert_eq!(setup_mode(false, 0), SetupMode::ByHand);
    assert_eq!(setup_mode(false, 3), SetupMode::ByHand);
    assert_eq!(setup_mode(true, 0), SetupMode::Ask);
    assert_eq!(setup_mode(true, 1), SetupMode::Choose);
}

#[test]
fn steps_by_hand_name_the_target() {
    assert_eq!(
        manual_steps("a@b:22"),
        "  echo 'SRP_ARGS=a@b:22' | sudo tee /etc/default/srp\n\
         \x20 sudo systemctl daemon-reload\n\
         \x20 sudo systemctl restart srp\n"
    );
}
