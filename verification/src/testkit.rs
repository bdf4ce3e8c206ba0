//! What the test harness decides: whom its SSH server lets in and what it
//! opens for them, and what its proxy does to the connections through it.

use vstd::prelude::*;

use crate::frontend::ct_eq;
use crate::text::{chars_of, same_chars};
use crate::tunnel::config::opt_text;
use crate::tunnel::direct::ChannelRefusal;

verus! {

/// How the test server behaves.
#[derive(Debug)]
pub struct TestServerConfig {
    /// The only user who may log in.
    pub username: String,
    /// Their password. Without one no password is taken.
    pub password: Option<String>,
    pub allow_direct_tcpip: bool,
    pub allow_exec: bool,
    /// The command to run, whatever the client asks for.
    pub exec_override: Option<String>,
}

impl Default for TestServerConfig {
    fn default() -> (r: TestServerConfig)
        ensures
            r.username@ == "tester"@,
            r.password is None,
            r.allow_direct_tcpip,
            r.allow_exec,
            r.exec_override is None,
    {
        TestServerConfig {
            username: "tester".to_owned(),
            password: None,
            allow_direct_tcpip: true,
            allow_exec: true,
            exec_override: None,
        }
    }
}

fn same_text(a: &str, b: &str) -> (r: bool)
    ensures
        r == (a@ == b@),
{
    let x = chars_of(a);
    let y = chars_of(b);
    same_chars(x.as_slice(), y.as_slice())
}

/// The test server's rules.
pub struct TestSshServer;

impl TestSshServer {
    /// A server that takes connections.
    pub fn start() -> (r: TestSshServerHandle)
        ensures
            r@ == (ServerView {
                paused: false,
                accepted: 0,
                rejected: 0,
                live: seq![],
                next_id: 1,
            }),
    {
        TestSshServerHandle {
            paused: false,
            accepted: 0,
            rejected: 0,
            live: Vec::new(),
            next_id: 1,
        }
    }

    /// Whether a password lets a user in.
    pub fn auth_password(cfg: &TestServerConfig, user: &str, password: &str) -> (r: bool)
        ensures
            r == (user@ == cfg.username@ && opt_text(cfg.password) == Some(password@)),
    {
        match &cfg.password {
            Some(expected) => same_text(user, cfg.username.as_str()) && same_text(
                expected.as_str(),
                password,
            ),
            None => false,
        }
    }

    /// Whether a key lets a user in, given whether it is the authorized one.
    pub fn auth_publickey(cfg: &TestServerConfig, user: &str, authorized: bool) -> (r: bool)
        ensures
            r == (user@ == cfg.username@ && authorized),
    {
        same_text(user, cfg.username.as_str()) && authorized
    }

    /// Whether a channel for a command is opened.
    pub fn open_session(cfg: &TestServerConfig) -> (r: Result<(), ChannelRefusal>)
        ensures
            r == (if cfg.allow_exec {
                Ok::<(), ChannelRefusal>(())
            } else {
                Err(ChannelRefusal::AdministrativelyProhibited)
            }),
    {
        if cfg.allow_exec {
            Ok(())
        } else {
            Err(ChannelRefusal::AdministrativelyProhibited)
        }
    }

    /// The port to connect to for a channel, where it is opened at all.
    pub fn open_direct_tcpip(cfg: &TestServerConfig, port: u32) -> (r: Result<u16, ChannelRefusal>)
        ensures
            r == (if !cfg.allow_direct_tcpip {
                Err::<u16, _>(ChannelRefusal::AdministrativelyProhibited)
            } else if port > 0xffff {
                Err(ChannelRefusal::ConnectFailed)
            } else {
                Ok(port as u16)
            }),
    {
        if !cfg.allow_direct_tcpip {
            return Err(ChannelRefusal::AdministrativelyProhibited);
        }
        if port > 0xffff {
            return Err(ChannelRefusal::ConnectFailed);
        }
        Ok(port as u16)
    }

    /// The command to run for a request on a channel that is open for one or is
    /// not, where any is run.
    pub fn exec_command(cfg: &TestServerConfig, open: bool, requested: String) -> (r: Option<String>)
        ensures
            opt_text(r) == (if !open || !cfg.allow_exec {
                None
            } else {
                match opt_text(cfg.exec_override) {
                    Some(command) => Some(command),
                    None => Some(requested@),
                }
            }),
    {
        if !open || !cfg.allow_exec {
            return None;
        }
        match &cfg.exec_override {
            Some(command) => Some(command.clone()),
            None => Some(requested),
        }
    }
}

/// What the test server's connections stand for.
#[verifier::ext_equal]
pub struct ServerView {
    pub paused: bool,
    pub accepted: u64,
    pub rejected: u64,
    /// The connections that are served, oldest first.
    pub live: Seq<u64>,
    pub next_id: u64,
}

/// The control over the test server's connections.
#[derive(Debug)]
pub struct TestSshServerHandle {
    paused: bool,
    accepted: u64,
    rejected: u64,
    live: Vec<u64>,
    next_id: u64,
}

impl View for TestSshServerHandle {
    type V = ServerView;

    closed spec fn view(&self) -> ServerView {
        ServerView {
            paused: self.paused,
            accepted: self.accepted,
            rejected: self.rejected,
            live: self.live@,
            next_id: self.next_id,
        }
    }
}

impl TestSshServerHandle {
    /// Takes in a new connection. Returns whether it is served: during a pause
    /// it is cut at once.
    pub fn on_accept(&mut self) -> (r: bool)
        ensures
            r == !old(self)@.paused,
            final(self)@ == (if r {
                ServerView { accepted: old(self)@.accepted.wrapping_add(1), ..old(self)@ }
            } else {
                ServerView { rejected: old(self)@.rejected.wrapping_add(1), ..old(self)@ }
            }),
    {
        if self.paused {
            self.rejected = self.rejected.wrapping_add(1);
            false
        } else {
            self.accepted = self.accepted.wrapping_add(1);
            true
        }
    }

    /// Takes in that the SSH protocol runs on a connection. Returns its id.
    pub fn on_established(&mut self) -> (id: u64)
        ensures
            id == old(self)@.next_id,
            final(self)@ == (ServerView {
                next_id: id.wrapping_add(1),
                live: old(self)@.live.push(id),
                ..old(self)@
            }),
    {
        let id: u64 = self.next_id;
        self.next_id = id.wrapping_add(1);
        self.live.push(id);
        id
    }

    /// Takes in that a connection has ended.
    pub fn on_closed(&mut self, id: u64)
        ensures
            final(self)@ == (ServerView { live: without(old(self)@.live, id), ..old(self)@ }),
    {
        self.live = drop_id(&self.live, id);
    }

    /// Cuts every connection; new ones are still served. Returns their ids.
    pub fn kill_all_connections(&mut self) -> (r: Vec<u64>)
        ensures
            r@ == old(self)@.live,
            final(self)@ == (ServerView { live: seq![], ..old(self)@ }),
    {
        let cut = take_ids(&mut self.live);
        assert(self.live@ =~= Seq::<u64>::empty());
        cut
    }

    /// Cuts new connections from now on.
    pub fn pause_accept(&mut self)
        ensures
            final(self)@ == (ServerView { paused: true, ..old(self)@ }),
    {
        self.paused = true;
    }

    /// Serves new connections from now on.
    pub fn resume_accept(&mut self)
        ensures
            final(self)@ == (ServerView { paused: false, ..old(self)@ }),
    {
        self.paused = false;
    }

    pub fn is_paused(&self) -> (r: bool)
        ensures
            r == self@.paused,
    {
        self.paused
    }

    /// How many connections were served.
    pub fn accepted_count(&self) -> (r: u64)
        ensures
            r == self@.accepted,
    {
        self.accepted
    }

    /// How many connections were cut during a pause.
    pub fn rejected_count(&self) -> (r: u64)
        ensures
            r == self@.rejected,
    {
        self.rejected
    }

    /// How many connections are served.
    pub fn live_connection_count(&self) -> (r: usize)
        ensures
            r == self@.live.len(),
    {
        self.live.len()
    }
}

/// A server that sends back what it is sent.
pub struct TcpEchoServer;

/// The connections of such a server.
#[derive(Debug)]
pub struct TcpEchoServerHandle {
    accepted: u64,
}

impl TcpEchoServer {
    pub fn start() -> (r: TcpEchoServerHandle)
        ensures
            r.count() == 0,
    {
        TcpEchoServerHandle { accepted: 0 }
    }
}

impl TcpEchoServerHandle {
    /// How many connections there were.
    pub closed spec fn count(self) -> u64 {
        self.accepted
    }

    /// Takes in a new connection.
    pub fn on_accept(&mut self)
        ensures
            final(self).count() == old(self).count().wrapping_add(1),
    {
        self.accepted = self.accepted.wrapping_add(1);
    }

    /// How many connections there were.
    pub fn accepted_count(&self) -> (r: u64)
        ensures
            r == self.count(),
    {
        self.accepted
    }
}

/// A client that takes any host key or one alone. Keys are in their encoded
/// form.
#[derive(Debug, Clone)]
pub struct TestClientHandler {
    expected_host_key: Option<Vec<u8>>,
}

impl TestClientHandler {
    /// The one key that is taken, where not every one is.
    pub closed spec fn expected(self) -> Option<Seq<u8>> {
        match self.expected_host_key {
            Some(key) => Some(key@),
            None => None,
        }
    }

    pub fn accept_any_host_key() -> (r: TestClientHandler)
        ensures
            r.expected() is None,
    {
        TestClientHandler { expected_host_key: None }
    }

    pub fn expect_host_key(host_key: Vec<u8>) -> (r: TestClientHandler)
        ensures
            r.expected() == Some(host_key@),
    {
        TestClientHandler { expected_host_key: Some(host_key) }
    }

    /// Whether a server with this key is taken.
    pub fn check_server_key(&self, server_public_key: &[u8]) -> (r: bool)
        ensures
            r == (self.expected() is None || self.expected() == Some(server_public_key@)),
    {
        match &self.expected_host_key {
            Some(key) => ct_eq(key.as_slice(), server_public_key),
            None => true,
        }
    }
}

/// Which way data goes through the proxy.
#[derive(Debug, Clone, Copy, PartialEq, Eq, Structural)]
pub enum Direction {
    Up,
    Down,
}

/// What the proxy stands for.
#[verifier::ext_equal]
pub struct ProxyView {
    pub blackhole: bool,
    pub swallow: bool,
    pub chunk_size: usize,
    pub delay_us: u64,
    pub accepted: u64,
    pub rejected: u64,
    pub bytes_up: u64,
    pub bytes_down: u64,
    /// The connections that are being passed on, oldest first.
    pub live: Seq<u64>,
    pub next_id: u64,
}

/// A proxy that can be told to fail.
pub struct FlakyProxy;

/// The control over such a proxy.
#[derive(Debug)]
pub struct FlakyProxyHandle {
    blackhole: bool,
    swallow: bool,
    chunk_size: usize,
    delay_us: u64,
    accepted: u64,
    rejected: u64,
    bytes_up: u64,
    bytes_down: u64,
    live: Vec<u64>,
    next_id: u64,
}

impl View for FlakyProxyHandle {
    type V = ProxyView;

    closed spec fn view(&self) -> ProxyView {
        ProxyView {
            blackhole: self.blackhole,
            swallow: self.swallow,
            chunk_size: self.chunk_size,
            delay_us: self.delay_us,
            accepted: self.accepted,
            rejected: self.rejected,
            bytes_up: self.bytes_up,
            bytes_down: self.bytes_down,
            live: self.live@,
            next_id: self.next_id,
        }
    }
}

/// The ids without one of them.
pub open spec fn without(ids: Seq<u64>, id: u64) -> Seq<u64>
    decreases ids.len(),
{
    if ids.len() == 0 {
        seq![]
    } else if ids.last() == id {
        without(ids.drop_last(), id)
    } else {
        without(ids.drop_last(), id).push(ids.last())
    }
}

fn drop_id(ids: &Vec<u64>, id: u64) -> (r: Vec<u64>)
    ensures
        r@ == without(ids@, id),
{
    let mut kept: Vec<u64> = Vec::new();
    let mut i: usize = 0;
    assert(ids@.take(0) =~= Seq::<u64>::empty());
    while i < ids.len()
        invariant
            i <= ids@.len(),
            kept@ == without(ids@.take(i as int), id),
        decreases ids@.len() - i,
    {
        let x: u64 = ids[i];
        assert(ids@.take(i + 1).drop_last() =~= ids@.take(i as int));
        if x != id {
            kept.push(x);
        }
        i = i + 1;
    }
    assert(ids@.take(i as int) =~= ids@);
    kept
}

fn take_ids(ids: &mut Vec<u64>) -> (r: Vec<u64>)
    ensures
        r@ == old(ids)@,
        final(ids)@.len() == 0,
{
    let mut taken: Vec<u64> = Vec::new();
    taken.append(ids);
    taken
}

impl FlakyProxy {
    /// A proxy that passes everything on.
    pub fn start() -> (r: FlakyProxyHandle)
        ensures
            r@ == (ProxyView {
                blackhole: false,
                swallow: false,
                chunk_size: 0,
                delay_us: 0,
                accepted: 0,
                rejected: 0,
                bytes_up: 0,
                bytes_down: 0,
                live: seq![],
                next_id: 1,
            }),
    {
        FlakyProxyHandle {
            blackhole: false,
            swallow: false,
            chunk_size: 0,
            delay_us: 0,
            accepted: 0,
            rejected: 0,
            bytes_up: 0,
            bytes_down: 0,
            live: Vec::new(),
            next_id: 1,
        }
    }
}

impl FlakyProxyHandle {
    /// Takes in a new connection. Returns whether it is passed on: in a black
    /// hole it is cut at once.
    pub fn on_accept(&mut self) -> (r: bool)
        ensures
            r == !old(self)@.blackhole,
            final(self)@ == (ProxyView {
                rejected: if r {
                    old(self)@.rejected
                } else {
                    old(self)@.rejected.wrapping_add(1)
                },
                ..old(self)@
            }),
    {
        if self.blackhole {
            self.rejected = self.rejected.wrapping_add(1);
            false
        } else {
            true
        }
    }

    /// Takes in that a connection is passed on from now on. Returns its id.
    pub fn on_connected(&mut self) -> (id: u64)
        ensures
            id == old(self)@.next_id,
            final(self)@ == (ProxyView {
                accepted: old(self)@.accepted.wrapping_add(1),
                next_id: id.wrapping_add(1),
                live: old(self)@.live.push(id),
                ..old(self)@
            }),
    {
        let id: u64 = self.next_id;
        self.next_id = id.wrapping_add(1);
        self.accepted = self.accepted.wrapping_add(1);
        self.live.push(id);
        id
    }

    /// Takes in that a connection has ended.
    pub fn on_closed(&mut self, id: u64)
        ensures
            final(self)@ == (ProxyView { live: without(old(self)@.live, id), ..old(self)@ }),
    {
        self.live = drop_id(&self.live, id);
    }

    /// Cuts every connection. Returns their ids.
    pub fn cut_now(&mut self) -> (r: Vec<u64>)
        ensures
            r@ == old(self)@.live,
            final(self)@ == (ProxyView { live: seq![], ..old(self)@ }),
    {
        let cut = take_ids(&mut self.live);
        assert(self.live@ =~= Seq::<u64>::empty());
        cut
    }

    /// Makes the proxy a black hole or ends that. Returns the ids of the
    /// connections that are to be cut.
    pub fn blackhole(&mut self, on: bool) -> (r: Vec<u64>)
        ensures
            r@ == (if on {
                old(self)@.live
            } else {
                seq![]
            }),
            final(self)@ == (ProxyView {
                blackhole: on,
                live: if on {
                    seq![]
                } else {
                    old(self)@.live
                },
                ..old(self)@
            }),
    {
        self.blackhole = on;
        if on {
            self.cut_now()
        } else {
            Vec::new()
        }
    }

    pub fn is_blackhole(&self) -> (r: bool)
        ensures
            r == self@.blackhole,
    {
        self.blackhole
    }

    /// Makes the proxy drop the data that it reads or ends that.
    pub fn swallow_data(&mut self, on: bool)
        ensures
            final(self)@ == (ProxyView { swallow: on, ..old(self)@ }),
    {
        self.swallow = on;
    }

    /// Limits how much is passed on at a time, and sets the pause after it in
    /// microseconds. Zero means no limit and no pause.
    pub fn set_throttle(&mut self, chunk_size: usize, delay_micros: u128)
        ensures
            final(self)@ == (ProxyView {
                chunk_size,
                delay_us: if delay_micros > u64::MAX {
                    u64::MAX
                } else {
                    delay_micros as u64
                },
                ..old(self)@
            }),
    {
        self.chunk_size = chunk_size;
        self.delay_us = if delay_micros > u64::MAX as u128 {
            u64::MAX
        } else {
            delay_micros as u64
        };
    }

    /// How much to read at a time into a buffer of some length.
    pub fn read_limit(&self, buffer: usize) -> (r: usize)
        ensures
            r == (if self@.chunk_size == 0 || self@.chunk_size > buffer {
                buffer
            } else {
                self@.chunk_size
            }),
    {
        if self.chunk_size == 0 || self.chunk_size > buffer {
            buffer
        } else {
            self.chunk_size
        }
    }

    /// Whether data that was read is passed on.
    pub fn forwards(&self) -> (r: bool)
        ensures
            r == !self@.swallow,
    {
        !self.swallow
    }

    /// Takes in that data was passed on.
    pub fn on_forwarded(&mut self, dir: Direction, n: usize)
        ensures
            final(self)@ == (match dir {
                Direction::Up => ProxyView {
                    bytes_up: old(self)@.bytes_up.wrapping_add(n as u64),
                    ..old(self)@
                },
                Direction::Down => ProxyView {
                    bytes_down: old(self)@.bytes_down.wrapping_add(n as u64),
                    ..old(self)@
                },
            }),
    {
        match dir {
            Direction::Up => {
                self.bytes_up = self.bytes_up.wrapping_add(n as u64);
            },
            Direction::Down => {
                self.bytes_down = self.bytes_down.wrapping_add(n as u64);
            },
        }
    }

    /// The pause after each piece, in microseconds.
    pub fn pause_micros(&self) -> (r: u64)
        ensures
            r == self@.delay_us,
    {
        self.delay_us
    }

    /// How many connections were passed on.
    pub fn accepted_count(&self) -> (r: u64)
        ensures
            r == self@.accepted,
    {
        self.accepted
    }

    /// How many connections were cut at once.
    pub fn rejected_count(&self) -> (r: u64)
        ensures
            r == self@.rejected,
    {
        self.rejected
    }

    /// How many connections are being passed on.
    pub fn live_connection_count(&self) -> (r: usize)
        ensures
            r == self@.live.len(),
    {
        self.live.len()
    }

    pub fn bytes_client_to_upstream(&self) -> (r: u64)
        ensures
            r == self@.bytes_up,
    {
        self.bytes_up
    }

    pub fn bytes_upstream_to_client(&self) -> (r: u64)
        ensures
            r == self@.bytes_down,
    {
        self.bytes_down
    }
}

/// Taking a number out of a list takes it out wherever it stands and leaves
/// all others in their order.
pub proof fn law_taking_out_leaves_the_others(ids: Seq<u64>, id: u64, other: u64)
    ensures
        !without(ids, id).contains(id),
        other != id ==> (without(ids, id).contains(other) <==> ids.contains(other)),
        !ids.contains(id) ==> without(ids, id) == ids,
    decreases ids.len(),
{
    if ids.len() > 0 {
        let before = ids.drop_last();
        law_taking_out_leaves_the_others(before, id, other);
        let kept = without(before, id);
        let all = without(ids, id);
        assert(ids =~= before.push(ids.last()));
        if ids.contains(other) {
            let i = choose|i: int| 0 <= i < ids.len() && ids[i] == other;
            if i < before.len() {
                assert(before[i] == other);
                assert(before.contains(other));
            }
        }
        if before.contains(other) {
            let i = choose|i: int| 0 <= i < before.len() && before[i] == other;
            assert(ids[i] == other);
        }
        if before.contains(id) {
            let i = choose|i: int| 0 <= i < before.len() && before[i] == id;
            assert(ids[i] == id);
        }
        if ids.last() != id {
            assert(all =~= kept.push(ids.last()));
            assert(all.last() == ids.last());
            if kept.contains(other) {
                let i = choose|i: int| 0 <= i < kept.len() && kept[i] == other;
                assert(all[i] == other);
            }
            if all.contains(other) {
                let i = choose|i: int| 0 <= i < all.len() && all[i] == other;
                if i < kept.len() {
                    assert(kept[i] == other);
                    assert(kept.contains(other));
                } else {
                    assert(ids[ids.len() - 1] == other);
                }
            }
            if all.contains(id) {
                let i = choose|i: int| 0 <= i < all.len() && all[i] == id;
                assert(kept[i] == id);
            }
            if ids.last() == other {
                assert(all[all.len() - 1] == other);
            }
        } else {
            assert(ids[ids.len() - 1] == id);
        }
    }
}

} // verus!
