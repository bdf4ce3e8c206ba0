//! The configuration, its checks and its warnings.

use vstd::prelude::*;
use vstd::slice::slice_subrange;

use super::shell::{
    is_bare, lemma_bare, lemma_blank, lemma_path_word, lemma_quoted, path_word, push_path, push_quoted,
    quoted, words,
};
use crate::ip::{ip_of, parse_ip, Ip, IpView};
use crate::text::{
    chars_of, decimal, digit_char, push_decimal, push_text, rfind, rfind_char, same_chars,
    string_from_chars, trim, trimmed,
};
use crate::DEFAULT_STREAM_WINDOW;

pub use super::shell::shell_quote;

verus! {

/// `std::path::PathBuf`, a path of the file system, which is only carried
/// along.
#[verifier::external_type_specification]
#[verifier::external_body]
pub struct ExPathBuf(std::path::PathBuf);

/// A length of time.
#[derive(Debug, Clone, Copy, PartialEq, Eq, Structural)]
pub struct Span {
    pub secs: u64,
    /// Below one thousand million.
    pub nanos: u32,
}

impl Span {
    pub open spec fn wf(self) -> bool {
        self.nanos < 1_000_000_000
    }

    /// The length in nanoseconds.
    pub open spec fn total(self) -> nat {
        (self.secs * 1_000_000_000 + self.nanos) as nat
    }

    pub fn from_secs(secs: u64) -> (r: Span)
        ensures
            r.wf(),
            r.total() == secs * 1_000_000_000,
            r == (Span { secs, nanos: 0 }),
    {
        Span { secs, nanos: 0 }
    }

    pub fn from_millis(millis: u64) -> (r: Span)
        ensures
            r.wf(),
            r.total() == millis * 1_000_000,
    {
        Span { secs: millis / 1000, nanos: (millis % 1000) as u32 * 1_000_000 }
    }

    /// Half of it, to the nanosecond below.
    pub fn half(self) -> (r: Span)
        requires
            self.wf(),
        ensures
            r.wf(),
            r.total() == self.total() / 2,
    {
        let carry: u32 = if self.secs % 2 == 1 {
            1_000_000_000
        } else {
            0
        };
        Span { secs: self.secs / 2, nanos: (carry + self.nanos) / 2 }
    }

    /// The longer of the two.
    pub fn at_least(self, other: Span) -> (r: Span)
        requires
            self.wf(),
            other.wf(),
        ensures
            r.wf(),
            r.total() == vstd::math::max(self.total() as int, other.total() as int),
    {
        if self.secs < other.secs || (self.secs == other.secs && self.nanos < other.nanos) {
            other
        } else {
            self
        }
    }
}

/// Which host keys are trusted.
#[derive(Debug, Clone, PartialEq, Eq)]
pub enum HostKeyPolicy {
    /// Only those on record.
    Strict,
    /// Those on record, and the first one of a host that is not.
    AcceptNew,
    /// Only the one with this fingerprint.
    Pinned(String),
}

impl Default for HostKeyPolicy {
    fn default() -> (r: HostKeyPolicy)
        ensures
            r is Strict,
    {
        HostKeyPolicy::Strict
    }
}

/// How the user is authenticated.
#[derive(Debug)]
pub enum AuthMethod {
    /// With a private key from a file.
    PublicKey { path: std::path::PathBuf, passphrase: Option<String> },
    /// With a password.
    Password { password: String },
    /// With a key that an agent holds.
    Agent,
}

/// How connections go through the tunnel.
#[derive(Debug, Clone, Copy, PartialEq, Eq, Structural)]
pub enum TunnelMode {
    /// Each as a channel that the server itself connects.
    DirectTcpip,
    /// All as streams to a helper on the server, which survive a reconnect.
    Helper,
}

impl Default for TunnelMode {
    fn default() -> (r: TunnelMode)
        ensures
            r == TunnelMode::DirectTcpip,
    {
        TunnelMode::DirectTcpip
    }
}

/// How the server is reached.
#[derive(Debug)]
pub struct SshConfig {
    pub host: String,
    pub port: u16,
    pub user: String,
    pub auth: AuthMethod,
    pub host_key: HostKeyPolicy,
    /// Where the known host keys are on record, if not in the usual place.
    pub known_hosts: Option<std::path::PathBuf>,
    /// How often the connection is probed.
    pub keepalive_interval: Span,
    /// After how many unanswered probes it counts as dead.
    pub keepalive_max: usize,
    /// How long connecting and authenticating may take.
    pub connect_timeout: Span,
}

/// The port where none is given.
pub fn default_port() -> (r: u16)
    ensures
        r == 22,
{
    22
}

/// The probing interval where none is given.
pub fn default_keepalive() -> (r: Span)
    ensures
        r == (Span { secs: 15, nanos: 0 }),
{
    Span::from_secs(15)
}

/// The number of unanswered probes where none is given.
pub fn default_keepalive_max() -> (r: usize)
    ensures
        r == 3,
{
    3
}

/// The time for connecting where none is given.
pub fn default_connect_timeout() -> (r: Span)
    ensures
        r == (Span { secs: 20, nanos: 0 }),
{
    Span::from_secs(20)
}

/// Where the proxy listens.
#[derive(Debug, Clone)]
pub struct ListenConfig {
    pub socks5: Option<String>,
    pub http: Option<String>,
    /// The credentials that clients owe, where both are set.
    pub username: Option<String>,
    pub password: Option<String>,
}

/// The text of an optional value.
pub open spec fn opt_text(o: Option<String>) -> Option<Seq<char>> {
    match o {
        Some(s) => Some(s@),
        None => None,
    }
}

impl Default for ListenConfig {
    fn default() -> (r: ListenConfig)
        ensures
            opt_text(r.socks5) == Some("127.0.0.1:1080"@),
            r.http is None,
            r.username is None,
            r.password is None,
    {
        ListenConfig {
            socks5: Some("127.0.0.1:1080".to_owned()),
            http: None,
            username: None,
            password: None,
        }
    }
}

/// When and how fast the tunnel is rebuilt. The factor by which the delay
/// grows and the share by which it is scattered are fractions: here stands
/// only whether they are in their ranges.
#[derive(Debug, Clone, Copy, PartialEq, Eq, Structural)]
pub struct ReconnectConfig {
    pub enabled: bool,
    pub initial_delay: Span,
    pub max_delay: Span,
    /// The factor is below one.
    pub multiplier_below_one: bool,
    /// The share is not within zero and one.
    pub jitter_out_of_range: bool,
    /// How long a new connection waits for a tunnel that is down.
    pub dial_wait: Span,
}

impl Default for ReconnectConfig {
    fn default() -> (r: ReconnectConfig)
        ensures
            r == (ReconnectConfig {
                enabled: true,
                initial_delay: Span { secs: 0, nanos: 250_000_000 },
                max_delay: Span { secs: 30, nanos: 0 },
                multiplier_below_one: false,
                jitter_out_of_range: false,
                dial_wait: Span { secs: 30, nanos: 0 },
            }),
    {
        ReconnectConfig {
            enabled: true,
            initial_delay: Span { secs: 0, nanos: 250_000_000 },
            max_delay: Span::from_secs(30),
            multiplier_below_one: false,
            jitter_out_of_range: false,
            dial_wait: Span::from_secs(30),
        }
    }
}

/// How the remote helper is started.
#[derive(Debug, Clone)]
pub struct HelperConfig {
    /// The whole command, where it is not to be made up here.
    pub command: Option<String>,
    pub remote_path: String,
    /// How many unacknowledged bytes each stream may hold.
    pub stream_window: u64,
    /// The patterns of the targets that the helper may connect to.
    pub allow: Vec<String>,
}

impl Default for HelperConfig {
    fn default() -> (r: HelperConfig)
        ensures
            r.command is None,
            r.remote_path@ == "srp-helper"@,
            r.stream_window == DEFAULT_STREAM_WINDOW,
            r.allow@.len() == 0,
    {
        HelperConfig {
            command: None,
            remote_path: "srp-helper".to_owned(),
            stream_window: DEFAULT_STREAM_WINDOW,
            allow: Vec::new(),
        }
    }
}

/// The options that name the permitted targets.
pub open spec fn allow_options(allow: Seq<Seq<char>>) -> Seq<char>
    decreases allow.len(),
{
    if allow.len() == 0 {
        seq![]
    } else {
        " --allow "@ + quoted(allow[0]) + allow_options(allow.skip(1))
    }
}

/// The texts of some strings.
pub open spec fn strings(v: Seq<String>) -> Seq<Seq<char>> {
    v.map_values(|s: String| s@)
}

impl HelperConfig {
    /// The command that the server is to run. A path of the helper in the home
    /// directory stays one.
    pub open spec fn command_line(self) -> Seq<char> {
        match self.command {
            Some(c) => c@,
            None => path_word(self.remote_path@) + " --stream-window "@ + decimal(
                self.stream_window as nat,
            ) + allow_options(strings(self.allow@)),
        }
    }

    /// The command that the server is to run.
    pub fn build_command(&self) -> (r: String)
        ensures
            r@ == self.command_line(),
    {
        if let Some(c) = &self.command {
            return c.clone();
        }
        let mut out: Vec<char> = Vec::new();
        push_path(&mut out, self.remote_path.as_str());
        push_text(&mut out, " --stream-window ");
        push_decimal(&mut out, self.stream_window);
        let ghost all = strings(self.allow@);
        assert(all.skip(0) =~= all);
        assert(out@ + allow_options(all) =~= self.command_line());
        let mut i: usize = 0;
        while i < self.allow.len()
            invariant
                i <= self.allow@.len(),
                all == strings(self.allow@),
                out@ + allow_options(all.skip(i as int)) == self.command_line(),
            decreases self.allow@.len() - i,
        {
            let ghost rest = all.skip(i as int);
            let ghost before = out@;
            push_text(&mut out, " --allow ");
            push_quoted(&mut out, self.allow[i].as_str());
            proof {
                assert(rest[0] == self.allow@[i as int]@);
                assert(rest.skip(1) =~= all.skip(i + 1));
                assert(out@ + allow_options(all.skip(i + 1)) =~= before + (" --allow "@ + quoted(
                    rest[0],
                ) + allow_options(rest.skip(1))));
            }
            i = i + 1;
        }
        assert(out@ + allow_options(all.skip(i as int)) =~= out@);
        string_from_chars(out)
    }
}

/// The words that the options for the permitted targets come to.
pub open spec fn allow_words(allow: Seq<Seq<char>>) -> Seq<Seq<char>>
    decreases allow.len(),
{
    if allow.len() == 0 {
        seq![]
    } else {
        seq!["--allow"@, allow[0]] + allow_words(allow.skip(1))
    }
}

proof fn lemma_allow_words(allow: Seq<Seq<char>>, word: Seq<char>)
    ensures
        words(allow_options(allow), Some(word)) == Some(seq![word] + allow_words(allow)),
    decreases allow.len(),
{
    if allow.len() == 0 {
        assert(seq![word] + allow_words(allow) =~= seq![word]);
    } else {
        let rest = allow_options(allow.skip(1));
        let t3 = quoted(allow[0]) + rest;
        let t2 = seq![' '] + t3;
        let t1 = "--allow"@ + t2;
        reveal_strlit(" --allow ");
        reveal_strlit("--allow");
        assert(" --allow "@ =~= seq![' '] + "--allow"@ + seq![' ']);
        assert(allow_options(allow) =~= seq![' '] + t1);
        lemma_blank(word, t1);
        lemma_bare("--allow"@, t2, None);
        assert(Seq::<char>::empty() + "--allow"@ =~= "--allow"@);
        lemma_blank("--allow"@, t3);
        lemma_quoted(allow[0], rest, None);
        assert(Seq::<char>::empty() + allow[0] =~= allow[0]);
        lemma_allow_words(allow.skip(1), allow[0]);
        let tail = seq![allow[0]] + allow_words(allow.skip(1));
        assert(seq![word] + (seq!["--allow"@] + tail) =~= seq![word] + allow_words(allow));
    }
}

proof fn lemma_decimal_is_bare(n: nat)
    ensures
        decimal(n).len() > 0,
        forall|i: int| 0 <= i < decimal(n).len() ==> is_bare(#[trigger] decimal(n)[i]),
    decreases n,
{
    if n >= 10 {
        lemma_decimal_is_bare(n / 10);
        assert(decimal(n) == decimal(n / 10).push(digit_char(n % 10)));
    }
}

/// The shell on the server starts the helper with exactly these words, whatever
/// the path and the patterns hold; only a home directory in front of the path
/// is put in by the shell.
pub proof fn law_helper_gets_its_words(h: HelperConfig)
    requires
        h.command is None,
    ensures
        words(h.command_line(), None) == Some(
            seq![h.remote_path@, "--stream-window"@, decimal(h.stream_window as nat)]
                + allow_words(strings(h.allow@)),
        ),
{
    let allow = strings(h.allow@);
    let path = h.remote_path@;
    let n = decimal(h.stream_window as nat);
    let t4 = allow_options(allow);
    let t3 = n + t4;
    let t2 = seq![' '] + t3;
    let t1 = "--stream-window"@ + t2;
    let t0 = seq![' '] + t1;
    reveal_strlit(" --stream-window ");
    reveal_strlit("--stream-window");
    assert(" --stream-window "@ =~= seq![' '] + "--stream-window"@ + seq![' ']);
    assert(h.command_line() =~= path_word(path) + t0);
    lemma_path_word(path, t0);
    lemma_blank(path, t1);
    lemma_bare("--stream-window"@, t2, None);
    assert(Seq::<char>::empty() + "--stream-window"@ =~= "--stream-window"@);
    lemma_blank("--stream-window"@, t3);
    lemma_decimal_is_bare(h.stream_window as nat);
    lemma_bare(n, t4, None);
    assert(Seq::<char>::empty() + n =~= n);
    lemma_allow_words(allow, n);
    let tail = seq![n] + allow_words(allow);
    assert(seq![path] + (seq!["--stream-window"@] + tail) =~= seq![path, "--stream-window"@, n]
        + allow_words(allow));
}

/// Everything that a run of the proxy goes by.
#[derive(Debug)]
pub struct Config {
    pub ssh: SshConfig,
    pub mode: TunnelMode,
    pub listen: ListenConfig,
    pub reconnect: ReconnectConfig,
    pub helper: HelperConfig,
}

/// Why a configuration is refused.
#[derive(Debug, Clone, PartialEq, Eq)]
pub enum ConfigError {
    /// It contradicts itself or leaves out what is needed.
    Invalid(String),
}

impl ConfigError {
    /// The error for people to read.
    pub fn message(&self) -> (r: String)
        ensures
            r@ == "invalid configuration: "@ + self->Invalid_0@,
    {
        let mut out: Vec<char> = Vec::new();
        push_text(&mut out, "invalid configuration: ");
        match self {
            ConfigError::Invalid(what) => push_text(&mut out, what.as_str()),
        }
        assert(out@ =~= "invalid configuration: "@ + self->Invalid_0@);
        string_from_chars(out)
    }
}

/// Whether a text holds nothing but white space.
pub open spec fn is_blank(s: Seq<char>) -> bool {
    trim(s).len() == 0
}

fn blank(s: &str) -> (r: bool)
    ensures
        r == is_blank(s@),
{
    let chars = chars_of(s);
    trimmed(chars.as_slice()).len() == 0
}

/// A text without square brackets in front.
pub open spec fn unbracket_start(s: Seq<char>) -> Seq<char>
    decreases s.len(),
{
    if s.len() > 0 && (s[0] == '[' || s[0] == ']') {
        unbracket_start(s.drop_first())
    } else {
        s
    }
}

/// A text without square brackets behind.
pub open spec fn unbracket_end(s: Seq<char>) -> Seq<char>
    decreases s.len(),
{
    if s.len() > 0 && (s.last() == '[' || s.last() == ']') {
        unbracket_end(s.drop_last())
    } else {
        s
    }
}

/// The host in a listening address: what stands before the last colon, without
/// the brackets around it, or all of it where there is no colon.
pub open spec fn listen_host(addr: Seq<char>) -> Seq<char> {
    let i = rfind(addr, ':');
    if i >= 0 {
        unbracket_end(unbracket_start(addr.take(i)))
    } else {
        addr
    }
}

/// Whether an address stands for the machine itself.
pub open spec fn is_loopback_ip(ip: IpView) -> bool {
    match ip {
        IpView::V4(o) => o[0] == 127,
        IpView::V6(o) => (forall|i: int| 0 <= i < 15 ==> #[trigger] o[i] == 0) && o[15] == 1,
    }
}

/// Whether only this machine can reach a listening address. A host that is
/// neither an address nor `localhost` counts as reachable.
pub open spec fn is_local(addr: Seq<char>) -> bool {
    let host = listen_host(addr);
    host == "localhost"@ || (match ip_of(host) {
        Some(ip) => is_loopback_ip(ip),
        None => false,
    })
}

fn unbracketed(s: &[char]) -> (r: &[char])
    ensures
        r@ == unbracket_end(unbracket_start(s@)),
{
    let mut i: usize = 0;
    assert(s@.skip(0) =~= s@);
    while i < s.len() && (s[i] == '[' || s[i] == ']')
        invariant
            i <= s@.len(),
            unbracket_start(s@.skip(i as int)) == unbracket_start(s@),
        decreases s@.len() - i,
    {
        assert(s@.skip(i as int).drop_first() =~= s@.skip(i + 1));
        i = i + 1;
    }
    let front = slice_subrange(s, i, s.len());
    assert(front@ =~= s@.skip(i as int));
    let mut n: usize = front.len();
    assert(front@.take(n as int) =~= front@);
    while n > 0 && (front[n - 1] == '[' || front[n - 1] == ']')
        invariant
            n <= front@.len(),
            unbracket_end(front@.take(n as int)) == unbracket_end(front@),
        decreases n,
    {
        assert(front@.take(n as int).drop_last() =~= front@.take(n - 1));
        n = n - 1;
    }
    let r = slice_subrange(front, 0, n);
    assert(r@ =~= front@.take(n as int));
    r
}

fn loopback_ip(ip: &Ip) -> (r: bool)
    ensures
        r == is_loopback_ip(ip@),
{
    match ip {
        Ip::V4(o) => o[0] == 127,
        Ip::V6(o) => {
            let mut i: usize = 0;
            while i < 15
                invariant
                    i <= 15,
                    ip@ == IpView::V6(o@),
                    forall|k: int| 0 <= k < i ==> #[trigger] o@[k] == 0,
                decreases 15 - i,
            {
                if o[i] != 0 {
                    assert(ip@ == IpView::V6(o@));
                    assert(o@[i as int] != 0);
                    return false;
                }
                i = i + 1;
            }
            o[15] == 1
        },
    }
}

/// Whether only this machine can reach a listening address.
pub fn is_loopback_listen(addr: &str) -> (r: bool)
    ensures
        r == is_local(addr@),
{
    let chars = chars_of(addr);
    let host = match rfind_char(chars.as_slice(), ':') {
        Some(i) => {
            let h = slice_subrange(chars.as_slice(), 0, i);
            assert(h@ =~= addr@.take(i as int));
            unbracketed(h)
        },
        None => chars.as_slice(),
    };
    let localhost = chars_of("localhost");
    if same_chars(host, localhost.as_slice()) {
        return true;
    }
    match parse_ip(host) {
        Some(ip) => loopback_ip(&ip),
        None => false,
    }
}

impl Config {
    /// What is wrong with the configuration, if anything is: the first of these
    /// faults that it has.
    pub open spec fn fault(self) -> Option<Seq<char>> {
        if is_blank(self.ssh.host@) {
            Some("ssh.host must not be empty"@)
        } else if is_blank(self.ssh.user@) {
            Some("ssh.user must not be empty"@)
        } else if self.listen.socks5 is None && self.listen.http is None {
            Some("at least one of listen.socks5 / listen.http must be set"@)
        } else if self.ssh.keepalive_max == 0 {
            Some("ssh.keepalive_max must be >= 1"@)
        } else if self.reconnect.multiplier_below_one {
            Some("reconnect.multiplier must be >= 1.0"@)
        } else if self.reconnect.jitter_out_of_range {
            Some("reconnect.jitter must be within 0.0..=1.0"@)
        } else if self.mode == TunnelMode::Helper && self.helper.stream_window == 0 {
            Some("helper.stream_window must be > 0"@)
        } else {
            None
        }
    }

    /// Refuses a configuration that cannot work.
    pub fn validate(&self) -> (r: Result<(), ConfigError>)
        ensures
            match self.fault() {
                None => r is Ok,
                Some(what) => r matches Err(ConfigError::Invalid(e)) && e@ == what,
            },
    {
        if blank(self.ssh.host.as_str()) {
            return Err(ConfigError::Invalid("ssh.host must not be empty".to_owned()));
        }
        if blank(self.ssh.user.as_str()) {
            return Err(ConfigError::Invalid("ssh.user must not be empty".to_owned()));
        }
        if self.listen.socks5.is_none() && self.listen.http.is_none() {
            return Err(
                ConfigError::Invalid(
                    "at least one of listen.socks5 / listen.http must be set".to_owned(),
                ),
            );
        }
        if self.ssh.keepalive_max == 0 {
            return Err(ConfigError::Invalid("ssh.keepalive_max must be >= 1".to_owned()));
        }
        if self.reconnect.multiplier_below_one {
            return Err(ConfigError::Invalid("reconnect.multiplier must be >= 1.0".to_owned()));
        }
        if self.reconnect.jitter_out_of_range {
            return Err(
                ConfigError::Invalid("reconnect.jitter must be within 0.0..=1.0".to_owned()),
            );
        }
        if self.mode == TunnelMode::Helper && self.helper.stream_window == 0 {
            return Err(ConfigError::Invalid("helper.stream_window must be > 0".to_owned()));
        }
        Ok(())
    }

    /// Whether clients owe credentials.
    pub open spec fn has_credentials(self) -> bool {
        self.listen.username is Some && self.listen.password is Some
    }

    /// The warning for one listening address, if it deserves one.
    pub open spec fn exposure(self, name: Seq<char>, addr: Option<String>) -> Seq<Seq<char>> {
        match addr {
            Some(a) => if !is_local(a@) && !self.has_credentials() {
                seq![
                    name + " = "@ + a@
                        + " 监听在非回环地址且未配置 listen.username/password：任何能访问该地址的主机都可以使用这个代理转发流量。"@,
                ]
            } else {
                seq![]
            },
            None => seq![],
        }
    }

    /// What the user should be warned of.
    pub open spec fn warnings(self) -> Seq<Seq<char>> {
        self.exposure("listen.socks5"@, self.listen.socks5) + self.exposure(
            "listen.http"@,
            self.listen.http,
        ) + (if self.ssh.host_key is AcceptNew {
            seq![
                "ssh.host_key = accept_new：首次连接会无条件信任服务端密钥，存在中间人风险。确认指纹后建议改回 strict 或改用 pinned。"@,
            ]
        } else {
            seq![]
        }) + (if self.mode == TunnelMode::Helper && self.helper.allow@.len() == 0 {
            seq!["helper.allow 为空：远端 helper 将允许连接任意目标地址。"@]
        } else {
            seq![]
        })
    }

    fn warn_exposure(&self, out: &mut Vec<String>, name: &str, addr: &Option<String>)
        ensures
            strings(final(out)@) == strings(old(out)@) + self.exposure(name@, *addr),
    {
        let guarded = self.listen.username.is_some() && self.listen.password.is_some();
        match addr {
            Some(a) => {
                if !is_loopback_listen(a.as_str()) && !guarded {
                    let mut w: Vec<char> = Vec::new();
                    push_text(&mut w, name);
                    push_text(&mut w, " = ");
                    push_text(&mut w, a.as_str());
                    push_text(
                        &mut w,
                        " 监听在非回环地址且未配置 listen.username/password：任何能访问该地址的主机都可以使用这个代理转发流量。",
                    );
                    assert(w@ =~= self.exposure(name@, *addr)[0]);
                    out.push(string_from_chars(w));
                }
            },
            None => {},
        }
        assert(strings(out@) =~= strings(old(out)@) + self.exposure(name@, *addr));
    }

    /// What the user should be warned of. None of it keeps the proxy from
    /// starting.
    pub fn security_warnings(&self) -> (r: Vec<String>)
        ensures
            strings(r@) == self.warnings(),
    {
        let mut w: Vec<String> = Vec::new();
        self.warn_exposure(&mut w, "listen.socks5", &self.listen.socks5);
        self.warn_exposure(&mut w, "listen.http", &self.listen.http);
        let ghost exposed = strings(w@);
        if let HostKeyPolicy::AcceptNew = &self.ssh.host_key {
            w.push(
                "ssh.host_key = accept_new：首次连接会无条件信任服务端密钥，存在中间人风险。确认指纹后建议改回 strict 或改用 pinned。".to_owned(),
            );
        }
        if self.mode == TunnelMode::Helper && self.helper.allow.len() == 0 {
            w.push("helper.allow 为空：远端 helper 将允许连接任意目标地址。".to_owned());
        }
        assert(strings(w@) =~= self.warnings());
        w
    }

    /// The credentials that clients owe.
    pub fn credentials(&self) -> (r: Option<(String, String)>)
        ensures
            match r {
                Some((u, p)) => self.has_credentials() && Some(u@) == opt_text(self.listen.username)
                    && Some(p@) == opt_text(self.listen.password),
                None => !self.has_credentials(),
            },
    {
        match (&self.listen.username, &self.listen.password) {
            (Some(u), Some(p)) => Some((u.clone(), p.clone())),
            _ => None,
        }
    }
}

/// An address that others can reach is warned of unless clients owe
/// credentials, whatever else there is to warn of.
pub proof fn law_open_listeners_are_warned_of(c: Config)
    requires
        !c.has_credentials(),
    ensures
        c.listen.socks5 matches Some(a) && !is_local(a@) ==> c.warnings().contains(
            c.exposure("listen.socks5"@, c.listen.socks5)[0],
        ),
        c.listen.http matches Some(a) && !is_local(a@) ==> c.warnings().contains(
            c.exposure("listen.http"@, c.listen.http)[0],
        ),
{
    let socks5 = c.exposure("listen.socks5"@, c.listen.socks5);
    let http = c.exposure("listen.http"@, c.listen.http);
    if socks5.len() > 0 {
        assert(c.warnings()[0] == socks5[0]);
    }
    if http.len() > 0 {
        assert(c.warnings()[socks5.len() as int] == http[0]);
    }
}

/// The options for the permitted targets are a flag and a pattern for each, in
/// order.
pub proof fn law_each_pattern_has_its_flag(allow: Seq<Seq<char>>, i: int)
    requires
        0 <= i < allow.len(),
    ensures
        allow_words(allow).len() == 2 * allow.len(),
        allow_words(allow)[2 * i] == "--allow"@,
        allow_words(allow)[2 * i + 1] == allow[i],
    decreases allow.len(),
{
    if i > 0 {
        law_each_pattern_has_its_flag(allow.skip(1), i - 1);
        assert(allow.skip(1)[i - 1] == allow[i]);
    }
    lemma_allow_words_len(allow);
}

proof fn lemma_allow_words_len(allow: Seq<Seq<char>>)
    ensures
        allow_words(allow).len() == 2 * allow.len(),
    decreases allow.len(),
{
    if allow.len() > 0 {
        lemma_allow_words_len(allow.skip(1));
    }
}

/// A command that is given is run as it is.
pub proof fn law_given_commands_are_run_as_they_are(h: HelperConfig)
    requires
        h.command is Some,
    ensures
        h.command_line() == h.command->0@,
{
}

/// A configuration is accepted exactly when the host and the user are not
/// blank, it listens somewhere, a probe may go unanswered, the delays can grow
/// and scatter as they should, and a helper's streams can hold something.
pub proof fn law_which_configurations_work(c: Config)
    ensures
        c.fault() is None <==> {
            &&& !is_blank(c.ssh.host@)
            &&& !is_blank(c.ssh.user@)
            &&& c.listen.socks5 is Some || c.listen.http is Some
            &&& c.ssh.keepalive_max > 0
            &&& !c.reconnect.multiplier_below_one
            &&& !c.reconnect.jitter_out_of_range
            &&& c.mode == TunnelMode::Helper ==> c.helper.stream_window > 0
        },
{
}

/// A text is blank exactly when it is made of white space.
pub proof fn law_blank_texts(s: Seq<char>, i: int)
    ensures
        (forall|k: int| 0 <= k < s.len() ==> crate::text::is_space(#[trigger] s[k])) ==> is_blank(
            s,
        ),
        0 <= i < s.len() && !crate::text::is_space(s[i]) ==> !is_blank(s),
{
    if forall|k: int| 0 <= k < s.len() ==> crate::text::is_space(#[trigger] s[k]) {
        crate::text::law_trimming_leaves_the_text(s, seq![], seq![]);
        assert(s + Seq::<char>::empty() + Seq::<char>::empty() =~= s);
    }
    if 0 <= i < s.len() && !crate::text::is_space(s[i]) {
        lemma_visible_start(s, i);
        let t = crate::text::trim_start(s);
        let j = choose|j: int| 0 <= j < t.len() && t[j] == s[i];
        lemma_visible_end(t, j);
    }
}

proof fn lemma_visible_start(s: Seq<char>, i: int)
    requires
        0 <= i < s.len(),
        !crate::text::is_space(s[i]),
    ensures
        crate::text::trim_start(s).contains(s[i]),
    decreases s.len(),
{
    if crate::text::is_space(s[0]) {
        assert(s.drop_first()[i - 1] == s[i]);
        lemma_visible_start(s.drop_first(), i - 1);
    } else {
        assert(s.contains(s[i]));
    }
}

proof fn lemma_visible_end(s: Seq<char>, i: int)
    requires
        0 <= i < s.len(),
        !crate::text::is_space(s[i]),
    ensures
        crate::text::trim_end(s).len() > 0,
    decreases s.len(),
{
    if crate::text::is_space(s.last()) {
        assert(s.drop_last()[i] == s[i]);
        lemma_visible_end(s.drop_last(), i);
    }
}

/// Which listening addresses only this machine reaches: the name `localhost`
/// and the addresses that stand for the machine, in brackets or not, with any
/// port. No other name and no other address.
pub proof fn law_which_listeners_are_local(host: Seq<char>, port: Seq<char>)
    requires
        !port.contains(':'),
        host.len() > 0,
        host[0] != '[' && host[0] != ']',
        host.last() != '[' && host.last() != ']',
    ensures
        ({
            let local = host == "localhost"@ || match ip_of(host) {
                Some(IpView::V4(o)) => o[0] == 127,
                Some(IpView::V6(o)) => o[15] == 1 && forall|i: int|
                    0 <= i < 15 ==> #[trigger] o[i] == 0,
                None => false,
            };
            &&& is_local(host + seq![':'] + port) <==> local
            &&& is_local(seq!['['] + host + seq![']', ':'] + port) <==> local
        }),
        !host.contains(':') ==> (is_local(host) <==> host == "localhost"@ || match ip_of(host) {
            Some(IpView::V4(o)) => o[0] == 127,
            Some(IpView::V6(o)) => o[15] == 1 && forall|i: int|
                0 <= i < 15 ==> #[trigger] o[i] == 0,
            None => false,
        }),
{
    let a = host + seq![':'] + port;
    lemma_last_colon(host, port);
    assert(unbracket_start(host) == host);
    assert(unbracket_end(host) == host);
    let wrapped = seq!['['] + host + seq![']'];
    let b = wrapped + seq![':'] + port;
    lemma_last_colon(wrapped, port);
    assert(b =~= seq!['['] + host + seq![']', ':'] + port);
    let open = host + seq![']'];
    assert(wrapped.drop_first() =~= open);
    assert(open[0] == host[0]);
    assert(unbracket_start(wrapped) == unbracket_start(open));
    assert(unbracket_start(open) == open);
    assert(open.drop_last() =~= host);
    assert(open.last() == ']');
    assert(unbracket_end(open) == unbracket_end(host));
    crate::text::lemma_rfind(host, ':');
    if rfind(host, ':') >= 0 {
        assert(host.contains(host[rfind(host, ':')]));
    }
}

proof fn lemma_last_colon(host: Seq<char>, port: Seq<char>)
    requires
        !port.contains(':'),
    ensures
        ({
            let a = host + seq![':'] + port;
            rfind(a, ':') == host.len() && a.take(host.len() as int) == host
        }),
{
    let a = host + seq![':'] + port;
    crate::text::lemma_rfind(a, ':');
    assert(a[host.len() as int] == ':');
    let i = rfind(a, ':');
    if i > host.len() {
        assert(a[i] == port[i - host.len() - 1]);
    }
    assert(a.take(host.len() as int) =~= host);
}

/// How many warnings there are: one for each listening address that others can
/// reach while clients owe nothing, one for trusting new hosts, and one for a
/// helper that may connect anywhere. Clients owe credentials where a name and a
/// password are set.
pub proof fn law_what_is_warned_of(c: Config)
    ensures
        c.has_credentials() <==> c.listen.username is Some && c.listen.password is Some,
        c.warnings().len() == (if c.listen.socks5 matches Some(a) && !is_local(a@)
            && !c.has_credentials() {
            1int
        } else {
            0
        }) + (if c.listen.http matches Some(a) && !is_local(a@) && !c.has_credentials() {
            1int
        } else {
            0
        }) + (if c.ssh.host_key is AcceptNew {
            1int
        } else {
            0
        }) + (if c.mode == TunnelMode::Helper && c.helper.allow@.len() == 0 {
            1int
        } else {
            0
        }),
{
}

/// A warning of an open listening address names the setting and the address.
pub proof fn law_warnings_name_the_address(c: Config, name: Seq<char>, addr: String)
    requires
        !is_local(addr@),
        !c.has_credentials(),
    ensures
        c.exposure(name, Some(addr)).len() == 1,
        exists|rest: Seq<char>|
            c.exposure(name, Some(addr))[0] == #[trigger] ((name + " = "@ + addr@) + rest),
{
    let rest =
        " 监听在非回环地址且未配置 listen.username/password：任何能访问该地址的主机都可以使用这个代理转发流量。"@;
    assert(c.exposure(name, Some(addr))[0] == (name + " = "@ + addr@) + rest);
}

} // verus!
