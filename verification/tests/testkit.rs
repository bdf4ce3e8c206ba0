use srp::testkit::{
    Direction, FlakyProxy, TcpEchoServer, TestClientHandler, TestServerConfig, TestSshServer,
};
use srp::tunnel::direct::ChannelRefusal;

#[test]
fn the_server_lets_in_whom_it_is_told_to() {
    let mut cfg = TestServerConfig::default();
    assert_eq!(cfg.username, "tester");
    assert!(!TestSshServer::auth_password(&cfg, "tester", ""), "no password, no login");
    cfg.password = Some("pw".into());
    assert!(TestSshServer::auth_password(&cfg, "tester", "pw"));
    assert!(!TestSshServer::auth_password(&cfg, "tester", "pW"));
    assert!(!TestSshServer::auth_password(&cfg, "other", "pw"));
    assert!(TestSshServer::auth_publickey(&cfg, "tester", true));
    assert!(!TestSshServer::auth_publickey(&cfg, "tester", false));
    assert!(!TestSshServer::auth_publickey(&cfg, "other", true));
}

#[test]
fn the_server_opens_what_it_is_told_to() {
    let mut cfg = TestServerConfig::default();
    assert_eq!(TestSshServer::open_direct_tcpip(&cfg, 65535), Ok(65535));
    assert_eq!(
        TestSshServer::open_direct_tcpip(&cfg, 65536),
        Err(ChannelRefusal::ConnectFailed)
    );
    assert_eq!(TestSshServer::open_session(&cfg), Ok(()));
    assert_eq!(
        TestSshServer::exec_command(&cfg, true, "ls".into()).as_deref(),
        Some("ls")
    );
    assert_eq!(TestSshServer::exec_command(&cfg, false, "ls".into()), None);

    cfg.exec_override = Some("cat".into());
    assert_eq!(
        TestSshServer::exec_command(&cfg, true, "ls".into()).as_deref(),
        Some("cat")
    );
    cfg.allow_exec = false;
    cfg.allow_direct_tcpip = false;
    assert_eq!(TestSshServer::exec_command(&cfg, true, "ls".into()), None);
    assert_eq!(
        TestSshServer::open_session(&cfg),
        Err(ChannelRefusal::AdministrativelyProhibited)
    );
    assert_eq!(
        TestSshServer::open_direct_tcpip(&cfg, 80),
        Err(ChannelRefusal::AdministrativelyProhibited)
    );
}

#[test]
fn the_proxy_counts_and_cuts() {
    let mut p = FlakyProxy::start();
    assert!(p.on_accept());
    let a = p.on_connected();
    let b = p.on_connected();
    let c = p.on_connected();
    assert_eq!((p.accepted_count(), p.live_connection_count()), (3, 3));
    p.on_closed(b);
    p.on_closed(b);
    assert_eq!(p.live_connection_count(), 2);
    assert_eq!(p.cut_now(), vec![a, c]);
    assert_eq!(p.live_connection_count(), 0);
    assert!(p.on_accept(), "new connections still work");
}

#[test]
fn a_black_hole_cuts_and_refuses_until_it_ends() {
    let mut p = FlakyProxy::start();
    let a = p.on_connected();
    assert_eq!(p.blackhole(true), vec![a]);
    assert!(p.is_blackhole());
    assert!(!p.on_accept());
    assert!(!p.on_accept());
    assert_eq!(p.rejected_count(), 2);
    assert!(p.blackhole(false).is_empty());
    assert!(p.on_accept());
    assert_eq!(p.rejected_count(), 2);
}

#[test]
fn throttling_and_swallowing() {
    let mut p = FlakyProxy::start();
    assert_eq!(p.read_limit(32768), 32768);
    p.set_throttle(1024, 5_000);
    assert_eq!(p.read_limit(32768), 1024);
    assert_eq!(p.read_limit(10), 10);
    assert_eq!(p.pause_micros(), 5_000);
    p.set_throttle(0, u128::MAX);
    assert_eq!(p.read_limit(7), 7);
    assert_eq!(p.pause_micros(), u64::MAX);

    assert!(p.forwards());
    p.on_forwarded(Direction::Up, 3);
    p.on_forwarded(Direction::Down, 4);
    p.on_forwarded(Direction::Up, 5);
    p.swallow_data(true);
    assert!(!p.forwards());
    assert_eq!((p.bytes_client_to_upstream(), p.bytes_upstream_to_client()), (8, 4));
}

#[test]
fn the_server_counts_cuts_and_pauses() {
    let mut s = TestSshServer::start();
    assert!(s.on_accept());
    let a = s.on_established();
    assert!(s.on_accept());
    let b = s.on_established();
    assert_eq!((s.accepted_count(), s.live_connection_count()), (2, 2));
    s.on_closed(a);
    assert_eq!(s.kill_all_connections(), vec![b]);
    assert_eq!(s.live_connection_count(), 0);

    s.pause_accept();
    assert!(s.is_paused());
    assert!(!s.on_accept());
    assert_eq!((s.accepted_count(), s.rejected_count()), (2, 1));
    s.resume_accept();
    assert!(!s.is_paused());
    assert!(s.on_accept());
    assert_eq!((s.accepted_count(), s.rejected_count()), (3, 1));
}

#[test]
fn a_test_client_takes_any_key_or_one_alone() {
    let any = TestClientHandler::accept_any_host_key();
    assert!(any.check_server_key(b"key"));
    let one = TestClientHandler::expect_host_key(b"key".to_vec());
    assert!(one.check_server_key(b"key"));
    assert!(!one.check_server_key(b"kez"));
    assert!(!one.check_server_key(b"key "));
}

#[test]
fn the_echo_server_counts_its_connections() {
    let mut echo = TcpEchoServer::start();
    assert_eq!(echo.accepted_count(), 0);
    echo.on_accept();
    echo.on_accept();
    assert_eq!(echo.accepted_count(), 2);
}
