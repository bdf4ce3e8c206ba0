use srp::tunnel::config::{
    default_connect_timeout, default_keepalive, default_keepalive_max, default_port,
    is_loopback_listen, shell_quote, AuthMethod, Config, ConfigError, HelperConfig, HostKeyPolicy,
    ListenConfig, ReconnectConfig, Span, SshConfig, TunnelMode,
};

/// A configuration with nothing but a host, a user and a key.
fn minimal() -> Config {
    Config {
        ssh: SshConfig {
            host: "example.com".into(),
            port: default_port(),
            user: "alice".into(),
            auth: AuthMethod::PublicKey {
                path: "/home/alice/.ssh/id_ed25519".into(),
                passphrase: None,
            },
            host_key: HostKeyPolicy::default(),
            known_hosts: None,
            keepalive_interval: default_keepalive(),
            keepalive_max: default_keepalive_max(),
            connect_timeout: default_connect_timeout(),
        },
        mode: TunnelMode::default(),
        listen: ListenConfig::default(),
        reconnect: ReconnectConfig::default(),
        helper: HelperConfig::default(),
    }
}

fn fault(cfg: &Config) -> String {
    match cfg.validate() {
        Err(e) => e.message(),
        Ok(()) => panic!("must be refused"),
    }
}

#[test]
fn defaults_are_sane() {
    let cfg = minimal();
    assert!(cfg.validate().is_ok());
    assert_eq!(cfg.ssh.host, "example.com");
    assert_eq!(cfg.ssh.port, 22);
    assert_eq!(cfg.mode, TunnelMode::DirectTcpip);
    assert_eq!(cfg.ssh.host_key, HostKeyPolicy::Strict, "must default strict");
    assert_eq!(cfg.listen.socks5.as_deref(), Some("127.0.0.1:1080"));
    assert!(cfg.reconnect.enabled);
    assert_eq!(cfg.ssh.keepalive_interval, Span { secs: 15, nanos: 0 });
    assert_eq!(cfg.ssh.connect_timeout, Span { secs: 20, nanos: 0 });
    assert_eq!(cfg.reconnect.initial_delay, Span { secs: 0, nanos: 250_000_000 });
    assert_eq!(cfg.reconnect.max_delay, Span { secs: 30, nanos: 0 });
    assert_eq!(cfg.reconnect.dial_wait, Span { secs: 30, nanos: 0 });
    assert_eq!(cfg.helper.stream_window, 4 * 1024 * 1024);
    assert_eq!(cfg.helper.remote_path, "srp-helper");
}

#[test]
fn rejects_invalid_configs() {
    let mut cfg = minimal();
    cfg.listen.socks5 = None;
    cfg.listen.http = None;
    assert!(cfg.validate().is_err(), "no listener must be rejected");

    let mut cfg = minimal();
    cfg.ssh.host = "  ".into();
    assert!(cfg.validate().is_err());

    let mut cfg = minimal();
    cfg.ssh.keepalive_max = 0;
    assert!(cfg.validate().is_err());

    let mut cfg = minimal();
    cfg.reconnect.jitter_out_of_range = true;
    assert!(cfg.validate().is_err());
}

#[test]
fn each_fault_is_named() {
    let mut cfg = minimal();
    cfg.ssh.host = "\t \u{3000}".into();
    assert_eq!(fault(&cfg), "invalid configuration: ssh.host must not be empty");

    let mut cfg = minimal();
    cfg.ssh.user = String::new();
    assert_eq!(fault(&cfg), "invalid configuration: ssh.user must not be empty");

    let mut cfg = minimal();
    cfg.listen.socks5 = None;
    assert_eq!(
        fault(&cfg),
        "invalid configuration: at least one of listen.socks5 / listen.http must be set"
    );
    cfg.listen.http = Some(String::new());
    assert!(cfg.validate().is_ok(), "one listener is enough");

    let mut cfg = minimal();
    cfg.ssh.keepalive_max = 0;
    assert_eq!(fault(&cfg), "invalid configuration: ssh.keepalive_max must be >= 1");

    let mut cfg = minimal();
    cfg.reconnect.multiplier_below_one = true;
    assert_eq!(fault(&cfg), "invalid configuration: reconnect.multiplier must be >= 1.0");

    let mut cfg = minimal();
    cfg.reconnect.jitter_out_of_range = true;
    assert_eq!(fault(&cfg), "invalid configuration: reconnect.jitter must be within 0.0..=1.0");

    let mut cfg = minimal();
    cfg.helper.stream_window = 0;
    assert!(cfg.validate().is_ok(), "the window only matters to the helper");
    cfg.mode = TunnelMode::Helper;
    assert_eq!(
        cfg.validate(),
        Err(ConfigError::Invalid("helper.stream_window must be > 0".into()))
    );
}

#[test]
fn warns_when_exposed_without_credentials() {
    let mut cfg = minimal();
    assert!(
        cfg.security_warnings().is_empty(),
        "loopback default must be quiet"
    );

    cfg.listen.socks5 = Some("0.0.0.0:1080".into());
    let w = cfg.security_warnings();
    assert_eq!(w.len(), 1, "must warn about open proxy: {w:?}");
    assert!(w[0].contains("0.0.0.0:1080"));

    cfg.listen.username = Some("u".into());
    cfg.listen.password = Some("p".into());
    assert!(cfg.security_warnings().is_empty(), "credentials silence it");
}

#[test]
fn warnings_come_in_order() {
    let mut cfg = minimal();
    cfg.listen.socks5 = Some("0.0.0.0:1080".into());
    cfg.listen.http = Some("[::]:8080".into());
    cfg.listen.username = Some("u".into());
    cfg.ssh.host_key = HostKeyPolicy::AcceptNew;
    cfg.mode = TunnelMode::Helper;
    assert_eq!(
        cfg.security_warnings(),
        vec![
            "listen.socks5 = 0.0.0.0:1080 监听在非回环地址且未配置 listen.username/password：任何能访问该地址的主机都可以使用这个代理转发流量。",
            "listen.http = [::]:8080 监听在非回环地址且未配置 listen.username/password：任何能访问该地址的主机都可以使用这个代理转发流量。",
            "ssh.host_key = accept_new：首次连接会无条件信任服务端密钥，存在中间人风险。确认指纹后建议改回 strict 或改用 pinned。",
            "helper.allow 为空：远端 helper 将允许连接任意目标地址。",
        ]
    );
    assert_eq!(cfg.credentials(), None, "a name alone is no credential");
}

#[test]
fn loopback_detection_handles_ipv6_and_localhost() {
    assert!(is_loopback_listen("127.0.0.1:1080"));
    assert!(is_loopback_listen("[::1]:1080"));
    assert!(is_loopback_listen("localhost:1080"));
    assert!(!is_loopback_listen("0.0.0.0:1080"));
    assert!(!is_loopback_listen("[::]:1080"));
    assert!(!is_loopback_listen("192.168.1.5:1080"));
}

#[test]
fn loopback_detection_is_conservative() {
    assert!(is_loopback_listen("127.255.0.9:1"));
    assert!(is_loopback_listen("127.0.0.1"));
    assert!(is_loopback_listen("[0:0:0:0:0:0:0:1]:1"));
    assert!(!is_loopback_listen("[::ffff:127.0.0.1]:1"));
    assert!(!is_loopback_listen("[::2]:1"));
    assert!(!is_loopback_listen(":1080"));
    assert!(!is_loopback_listen(""));
    assert!(!is_loopback_listen("LOCALHOST:1080"));
    assert!(!is_loopback_listen("localhost.:1080"));
    assert!(!is_loopback_listen("127.0.0.01:1080"));
}

/// Reads a command as a shell does, as far as single quotes, backslashes and
/// blanks go.
fn shell_words(cmd: &str) -> Vec<String> {
    let mut words = Vec::new();
    let mut word: Option<String> = None;
    let mut chars = cmd.chars();
    while let Some(c) = chars.next() {
        match c {
            ' ' => {
                if let Some(w) = word.take() {
                    words.push(w);
                }
            }
            '\'' => {
                let mut w = word.take().unwrap_or_default();
                for q in chars.by_ref() {
                    if q == '\'' {
                        break;
                    }
                    w.push(q);
                }
                word = Some(w);
            }
            '\\' => {
                let mut w = word.take().unwrap_or_default();
                w.push(chars.next().expect("something to escape"));
                word = Some(w);
            }
            _ => {
                let mut w = word.take().unwrap_or_default();
                w.push(c);
                word = Some(w);
            }
        }
    }
    if let Some(w) = word {
        words.push(w);
    }
    words
}

#[test]
fn quoted_values_are_single_words() {
    assert_eq!(shell_quote("plain"), "'plain'");
    assert_eq!(shell_quote("it's"), r#"'it'\''s'"#);
    assert_eq!(shell_quote(""), "''");
    assert_eq!(shell_quote("''"), r#"''\'''\'''"#);

    let payloads = [
        "plain",
        "it's",
        "a'; rm -rf /; echo '",
        "$(touch /tmp/pwned)",
        "`id`",
        "a b\tc",
        "* ? [a-z]",
        "back\\slash",
        "new\nline",
        "\"double\"",
        "; | & > <",
        "",
    ];
    for p in payloads {
        assert_eq!(shell_words(&shell_quote(p)), vec![p], "{p:?}");
    }
}

#[test]
fn helper_command_quotes_all_user_values() {
    let h = HelperConfig {
        command: None,
        remote_path: "/opt/my helper".into(),
        stream_window: 1024,
        allow: ["a b; touch /tmp/x".to_string()].into(),
    };
    let cmd = h.build_command();
    assert!(cmd.starts_with("'/opt/my helper'"));
    assert!(cmd.contains("--stream-window 1024"));
    assert!(cmd.contains(r"'a b; touch /tmp/x'"));
    assert!(!cmd.contains("; touch /tmp/x'\n"));

    let explicit = HelperConfig {
        command: Some("custom --flag".into()),
        ..Default::default()
    };
    assert_eq!(explicit.build_command(), "custom --flag");
}

#[test]
fn helper_gets_exactly_its_words() {
    let h = HelperConfig {
        command: None,
        remote_path: "/opt/it's here".into(),
        stream_window: 4194304,
        allow: vec!["*.internal".into(), "a b; touch 'x".into()],
    };
    assert_eq!(
        h.build_command(),
        r"'/opt/it'\''s here' --stream-window 4194304 --allow '*.internal' --allow 'a b; touch '\''x'"
    );
    assert_eq!(
        shell_words(&h.build_command()),
        vec![
            "/opt/it's here",
            "--stream-window",
            "4194304",
            "--allow",
            "*.internal",
            "--allow",
            "a b; touch 'x",
        ]
    );
}

#[test]
fn spans_are_exact() {
    assert_eq!(Span::from_millis(1500), Span { secs: 1, nanos: 500_000_000 });
    assert_eq!(Span::from_secs(3).half(), Span { secs: 1, nanos: 500_000_000 });
    assert_eq!(Span { secs: 0, nanos: 1 }.half(), Span { secs: 0, nanos: 0 });
    let a = Span { secs: 2, nanos: 5 };
    let b = Span { secs: 2, nanos: 6 };
    assert_eq!(a.at_least(b), b);
    assert_eq!(b.at_least(a), b);
}

#[test]
fn a_helper_path_in_the_home_directory_is_left_to_the_shell() {
    let mut h = HelperConfig { remote_path: "~/bin/srp-helper".into(), ..HelperConfig::default() };
    assert_eq!(
        h.build_command(),
        "~/'bin/srp-helper' --stream-window 4194304"
    );
    h.remote_path = "a~/b".into();
    assert_eq!(h.build_command(), "'a~/b' --stream-window 4194304");
    h.remote_path = "~".into();
    assert_eq!(h.build_command(), "'~' --stream-window 4194304");
}
