//! The life of the tunnel: when it is built, watched, given up for dead and
//! rebuilt, how long a new connection waits for it, and how the user is
//! authenticated on it.

use vstd::prelude::*;
use vstd::slice::slice_subrange;

use super::config::{Config, HostKeyPolicy, Span};
use crate::text::{chars_of, push_text, same_chars, string_from_chars, trim, trimmed};

verus! {

/// The number of an attempt to build the tunnel. A later one has a greater
/// number.
pub type Epoch = u64;

/// How the tunnel stands.
#[derive(Debug, Clone, Copy, PartialEq, Eq, Structural)]
pub enum TunnelState {
    /// It was not up yet.
    Connecting,
    /// It is up.
    Up(Epoch),
    /// It is down, and this many attempts have failed since.
    Reconnecting { attempts: u32 },
    /// It is down for good.
    Closed,
}

impl TunnelState {
    pub fn is_up(&self) -> (r: bool)
        ensures
            r == (self is Up),
    {
        match self {
            TunnelState::Up(_) => true,
            _ => false,
        }
    }
}

/// Whether a connection is dead: its handle is closed or the sign of its end
/// was given.
pub fn is_dead(closed: bool, signalled: bool) -> (r: bool)
    ensures
        r == (closed || signalled),
{
    closed || signalled
}

/// What the supervisor does next.
#[derive(Debug, Clone, Copy, PartialEq, Eq, Structural)]
pub enum SuperviseAction {
    /// End.
    Stop,
    /// Wait for a while or until woken, and look again.
    Watch,
    /// Try to build the tunnel.
    Connect(Epoch),
}

/// What follows a failed attempt.
#[derive(Debug, Clone, Copy, PartialEq, Eq, Structural)]
pub enum FailureAction {
    /// End.
    GiveUp,
    /// Wait before the next attempt; this many had failed before this one
    /// since the last success.
    BackOff { failures: u32 },
}

/// Why no session was had.
#[derive(Debug, Clone, Copy, PartialEq, Eq, Structural)]
pub enum WaitError {
    /// The tunnel is being shut down.
    ShuttingDown,
    /// It took too long.
    TimedOut,
    /// Nobody looks after the tunnel any more.
    Stopped,
}

/// What woke the one who waits for a session.
#[derive(Debug, Clone, Copy, PartialEq, Eq, Structural)]
pub enum WaitEvent {
    /// The wait has just begun or the state has changed.
    Look { time_left: bool },
    /// The time is up.
    Elapsed,
    /// The state will not change any more.
    Ended,
}

/// What the one who waits for a session does next.
#[derive(Debug, Clone, Copy, PartialEq, Eq, Structural)]
pub enum WaitStep {
    /// Take the session.
    Ready(Epoch),
    /// Wait for the state to change or the time to run out.
    Wait,
    Fail(WaitError),
}

/// What a tunnel stands for.
pub struct TunnelView {
    pub state: TunnelState,
    /// The session that is held, dead or alive.
    pub session: Option<Epoch>,
    pub next_epoch: u64,
    pub connects: u64,
    /// Failed attempts since the last success.
    pub failures: u32,
    pub shut_down: bool,
    pub reconnects: bool,
    pub poll: Span,
}

/// The tunnel and its supervision.
#[derive(Debug)]
pub struct TunnelManager {
    state: TunnelState,
    session: Option<Epoch>,
    next_epoch: u64,
    connects: u64,
    failures: u32,
    shut_down: bool,
    reconnects: bool,
    poll: Span,
}

impl View for TunnelManager {
    type V = TunnelView;

    closed spec fn view(&self) -> TunnelView {
        TunnelView {
            state: self.state,
            session: self.session,
            next_epoch: self.next_epoch,
            connects: self.connects,
            failures: self.failures,
            shut_down: self.shut_down,
            reconnects: self.reconnects,
            poll: self.poll,
        }
    }
}

/// One more, starting over behind the greatest number.
pub open spec fn one_more(n: u64) -> u64 {
    if n == u64::MAX {
        0
    } else {
        (n + 1) as u64
    }
}

fn one_after(n: u64) -> (r: u64)
    ensures
        r == one_more(n),
{
    if n == u64::MAX {
        0
    } else {
        n + 1
    }
}

impl TunnelView {
    /// The session that can be used, given whether the one held is dead.
    pub open spec fn usable(self, dead: bool) -> Option<Epoch> {
        if dead {
            None
        } else {
            self.session
        }
    }

    /// What the supervisor does next.
    pub open spec fn action(self, dead: bool) -> SuperviseAction {
        if self.shut_down {
            SuperviseAction::Stop
        } else if self.usable(dead) is Some {
            SuperviseAction::Watch
        } else {
            SuperviseAction::Connect(self.next_epoch)
        }
    }

    /// The tunnel behind that decision.
    pub open spec fn decided(self, dead: bool) -> TunnelView {
        if self.action(dead) is Connect {
            TunnelView { next_epoch: one_more(self.next_epoch), ..self }
        } else {
            self
        }
    }

    /// The tunnel behind a look at the session that it holds.
    pub open spec fn watched(self, dead: bool) -> TunnelView {
        if self.session is Some && dead {
            TunnelView { session: None, state: TunnelState::Reconnecting { attempts: 0 }, ..self }
        } else {
            self
        }
    }

    /// The tunnel behind a successful attempt.
    pub open spec fn up(self, epoch: Epoch) -> TunnelView {
        TunnelView {
            state: TunnelState::Up(epoch),
            session: Some(epoch),
            connects: one_more(self.connects),
            failures: 0,
            ..self
        }
    }

    /// The tunnel behind a failed attempt.
    pub open spec fn failed(self) -> TunnelView {
        if self.reconnects {
            let failures = if self.failures == u32::MAX {
                self.failures
            } else {
                (self.failures + 1) as u32
            };
            TunnelView {
                state: TunnelState::Reconnecting { attempts: failures },
                failures,
                ..self
            }
        } else {
            TunnelView { state: TunnelState::Closed, ..self }
        }
    }

    /// The tunnel after its shutdown.
    pub open spec fn closed(self) -> TunnelView {
        TunnelView { state: TunnelState::Closed, session: None, shut_down: true, ..self }
    }

    /// What the one who waits for a session does next.
    pub open spec fn wait_step(self, dead: bool, event: WaitEvent) -> WaitStep {
        match event {
            WaitEvent::Elapsed => WaitStep::Fail(WaitError::TimedOut),
            WaitEvent::Ended => WaitStep::Fail(WaitError::Stopped),
            WaitEvent::Look { time_left } => match self.usable(dead) {
                Some(epoch) => WaitStep::Ready(epoch),
                None => if self.shut_down {
                    WaitStep::Fail(WaitError::ShuttingDown)
                } else if !time_left {
                    WaitStep::Fail(WaitError::TimedOut)
                } else {
                    WaitStep::Wait
                },
            },
        }
    }
}

impl TunnelManager {
    /// A tunnel that was not up yet.
    pub fn new(cfg: &Config) -> (r: TunnelManager)
        requires
            cfg.ssh.keepalive_interval.wf(),
        ensures
            r@.state == TunnelState::Connecting,
            r@.session is None,
            r@.next_epoch == 1,
            r@.connects == 0,
            r@.failures == 0,
            !r@.shut_down,
            r@.reconnects == cfg.reconnect.enabled,
            r@.poll.total() == vstd::math::max(
                cfg.ssh.keepalive_interval.total() as int / 2,
                500_000_000,
            ),
    {
        TunnelManager {
            state: TunnelState::Connecting,
            session: None,
            next_epoch: 1,
            connects: 0,
            failures: 0,
            shut_down: false,
            reconnects: cfg.reconnect.enabled,
            poll: cfg.ssh.keepalive_interval.half().at_least(Span::from_millis(500)),
        }
    }

    pub fn state(&self) -> (r: TunnelState)
        ensures
            r == self@.state,
    {
        self.state
    }

    /// How often the tunnel came up.
    pub fn connect_count(&self) -> (r: u64)
        ensures
            r == self@.connects,
    {
        self.connects
    }

    /// How long to wait between two looks at a session.
    pub fn poll_interval(&self) -> (r: Span)
        ensures
            r == self@.poll,
    {
        self.poll
    }

    /// The session that can be used, given whether the one held is dead.
    pub fn current(&self, dead: bool) -> (r: Option<Epoch>)
        ensures
            r == self@.usable(dead),
    {
        if dead {
            None
        } else {
            self.session
        }
    }

    /// Decides what the supervisor does next, given whether the session that is
    /// held is dead.
    pub fn supervise(&mut self, dead: bool) -> (r: SuperviseAction)
        ensures
            r == old(self)@.action(dead),
            final(self)@ == old(self)@.decided(dead),
    {
        if self.shut_down {
            return SuperviseAction::Stop;
        }
        if self.current(dead).is_some() {
            return SuperviseAction::Watch;
        }
        let epoch: u64 = self.next_epoch;
        self.next_epoch = one_after(epoch);
        SuperviseAction::Connect(epoch)
    }

    /// Takes in that the watching has ended, given whether the session that is
    /// held is dead.
    pub fn on_watched(&mut self, dead: bool)
        ensures
            final(self)@ == old(self)@.watched(dead),
    {
        if self.session.is_some() && dead {
            self.session = None;
            self.state = TunnelState::Reconnecting { attempts: 0 };
        }
    }

    /// Takes in that an attempt has succeeded.
    pub fn on_connected(&mut self, epoch: Epoch)
        ensures
            final(self)@ == old(self)@.up(epoch),
    {
        self.failures = 0;
        self.connects = one_after(self.connects);
        self.session = Some(epoch);
        self.state = TunnelState::Up(epoch);
    }

    /// Takes in that an attempt has failed.
    pub fn on_failed(&mut self) -> (r: FailureAction)
        ensures
            final(self)@ == old(self)@.failed(),
            r == (if old(self)@.reconnects {
                FailureAction::BackOff { failures: old(self)@.failures }
            } else {
                FailureAction::GiveUp
            }),
    {
        if !self.reconnects {
            self.state = TunnelState::Closed;
            return FailureAction::GiveUp;
        }
        let failures: u32 = self.failures;
        if failures < u32::MAX {
            self.failures = failures + 1;
        }
        self.state = TunnelState::Reconnecting { attempts: self.failures };
        FailureAction::BackOff { failures }
    }

    /// Shuts the tunnel down. Returns the session that is to be ended.
    pub fn shutdown(&mut self) -> (r: Option<Epoch>)
        ensures
            final(self)@ == old(self)@.closed(),
            r == old(self)@.session,
    {
        let session = self.session;
        self.shut_down = true;
        self.session = None;
        self.state = TunnelState::Closed;
        session
    }

    /// Decides what the one who waits for a session does next, given whether
    /// the session that is held is dead.
    pub fn wait_for_session(&self, dead: bool, event: WaitEvent) -> (r: WaitStep)
        ensures
            r == self@.wait_step(dead, event),
    {
        match event {
            WaitEvent::Elapsed => WaitStep::Fail(WaitError::TimedOut),
            WaitEvent::Ended => WaitStep::Fail(WaitError::Stopped),
            WaitEvent::Look { time_left } => match self.current(dead) {
                Some(epoch) => WaitStep::Ready(epoch),
                None => {
                    if self.shut_down {
                        WaitStep::Fail(WaitError::ShuttingDown)
                    } else if !time_left {
                        WaitStep::Fail(WaitError::TimedOut)
                    } else {
                        WaitStep::Wait
                    }
                },
            },
        }
    }
}

/// Something that happens to a tunnel.
pub enum TunnelEvent {
    Decide { dead: bool },
    Watched { dead: bool },
    Connected { epoch: Epoch },
    Failed,
    Shutdown,
}

impl TunnelView {
    /// The tunnel behind an event.
    pub open spec fn after(self, event: TunnelEvent) -> TunnelView {
        match event {
            TunnelEvent::Decide { dead } => self.decided(dead),
            TunnelEvent::Watched { dead } => self.watched(dead),
            TunnelEvent::Connected { epoch } => self.up(epoch),
            TunnelEvent::Failed => self.failed(),
            TunnelEvent::Shutdown => self.closed(),
        }
    }

    /// The tunnel behind several events.
    pub open spec fn after_all(self, events: Seq<TunnelEvent>) -> TunnelView
        decreases events.len(),
    {
        if events.len() == 0 {
            self
        } else {
            self.after_all(events.drop_last()).after(events.last())
        }
    }

    /// A tunnel that reports to be up holds the session that it names.
    pub open spec fn is_honest(self) -> bool {
        self.state matches TunnelState::Up(epoch) ==> self.session == Some(epoch)
    }
}

/// Whatever happens to a tunnel, it reports to be up only with the session
/// that it holds.
pub proof fn law_up_means_a_session(t: TunnelView, event: TunnelEvent)
    requires
        t.is_honest(),
    ensures
        t.after(event).is_honest(),
{
}

/// Once shut down, a tunnel tries nothing any more, whatever happens, and one
/// who waits for it is told at once: right away, and later wherever there is
/// no session to be had.
pub proof fn law_shutdown_is_final(t: TunnelView, events: Seq<TunnelEvent>, dead: bool, time_left: bool)
    ensures
        t.closed().after_all(events).shut_down,
        t.closed().after_all(events).action(dead) == SuperviseAction::Stop,
        t.closed().wait_step(dead, WaitEvent::Look { time_left }) == WaitStep::Fail(
            WaitError::ShuttingDown,
        ),
        t.closed().after_all(events).usable(dead) is None ==> t.closed().after_all(
            events,
        ).wait_step(dead, WaitEvent::Look { time_left }) == WaitStep::Fail(WaitError::ShuttingDown),
    decreases events.len(),
{
    if events.len() > 0 {
        law_shutdown_is_final(t, events.drop_last(), dead, time_left);
    }
}

/// Nobody waits for a session beyond their time, or for a tunnel that nobody
/// looks after.
pub proof fn law_waiting_ends(t: TunnelView, dead: bool)
    ensures
        t.wait_step(dead, WaitEvent::Elapsed) == WaitStep::Fail(WaitError::TimedOut),
        t.wait_step(dead, WaitEvent::Ended) == WaitStep::Fail(WaitError::Stopped),
        t.wait_step(dead, WaitEvent::Look { time_left: false }) != WaitStep::Wait,
        t.wait_step(dead, WaitEvent::Look { time_left: true }) == WaitStep::Wait
            <==> t.usable(dead) is None && !t.shut_down,
{
}

/// A lost session is followed by an attempt under a new number, and after its
/// success the waiting starts from the beginning again.
pub proof fn law_lost_session_is_rebuilt(t: TunnelView)
    requires
        t.session is Some,
        !t.shut_down,
    ensures
        t.watched(true).action(false) == SuperviseAction::Connect(t.next_epoch),
        t.watched(true).decided(false).next_epoch == one_more(t.next_epoch),
        t.watched(true).decided(false).up(t.next_epoch).failures == 0,
        t.watched(true).decided(false).up(t.next_epoch).action(false) == SuperviseAction::Watch,
{
}

/// A tunnel that may be rebuilt is never given up: after any number of failed
/// attempts the next thing is another attempt.
pub proof fn law_failures_never_end_it(t: TunnelView, n: nat, dead: bool)
    requires
        t.reconnects,
        !t.shut_down,
        t.usable(dead) is None,
    ensures
        t.after_all(Seq::new(n, |i: int| TunnelEvent::Failed)).action(dead)
            == SuperviseAction::Connect(t.next_epoch),
        n > 0 ==> t.after_all(Seq::new(n, |i: int| TunnelEvent::Failed)).state
            == (TunnelState::Reconnecting {
            attempts: vstd::math::min(t.failures + n, u32::MAX as int) as u32,
        }),
{
    lemma_failures(t, n);
    let end = t.after_all(Seq::new(n, |i: int| TunnelEvent::Failed));
    assert(end.usable(dead) is None);
}

proof fn lemma_failures(t: TunnelView, n: nat)
    requires
        t.reconnects,
    ensures
        ({
            let end = t.after_all(Seq::new(n, |i: int| TunnelEvent::Failed));
            let failures = vstd::math::min(t.failures + n, u32::MAX as int) as u32;
            &&& end.reconnects
            &&& end.shut_down == t.shut_down
            &&& end.session == t.session
            &&& end.next_epoch == t.next_epoch
            &&& end.failures == failures
            &&& n > 0 ==> end.state == (TunnelState::Reconnecting { attempts: failures })
        }),
    decreases n,
{
    let events = Seq::new(n, |i: int| TunnelEvent::Failed);
    if n > 0 {
        let before = Seq::new((n - 1) as nat, |i: int| TunnelEvent::Failed);
        assert(events.drop_last() =~= before);
        lemma_failures(t, (n - 1) as nat);
    }
}

/// Why a user is not authenticated.
#[derive(Debug, Clone, PartialEq, Eq)]
pub enum AuthError {
    /// The agent holds no key.
    NoIdentities,
    /// No key of the agent got an answer.
    NoneAccepted,
    /// The server refused the user.
    Rejected(String),
}

impl AuthError {
    /// The error for people to read.
    pub open spec fn text(self) -> Seq<char> {
        match self {
            AuthError::NoIdentities => "ssh-agent has no identities loaded"@,
            AuthError::NoneAccepted => "no ssh-agent identity was accepted"@,
            AuthError::Rejected(user) => "ssh authentication rejected for user "@ + user@,
        }
    }

    /// The error for people to read.
    pub fn message(&self) -> (r: String)
        ensures
            r@ == self.text(),
    {
        let mut out: Vec<char> = Vec::new();
        match self {
            AuthError::NoIdentities => push_text(&mut out, "ssh-agent has no identities loaded"),
            AuthError::NoneAccepted => push_text(&mut out, "no ssh-agent identity was accepted"),
            AuthError::Rejected(user) => {
                push_text(&mut out, "ssh authentication rejected for user ");
                push_text(&mut out, user.as_str());
            },
        }
        assert(out@ =~= self.text());
        string_from_chars(out)
    }
}

/// What came of offering one key of the agent.
#[derive(Debug, Clone, Copy, PartialEq, Eq, Structural)]
pub enum AgentAttempt {
    /// It is a certificate, which is not offered.
    Skipped,
    /// The server took it.
    Accepted,
    /// The server refused it.
    Refused,
    /// It could not be offered.
    Failed,
}

/// The keys of an agent, offered one after the other.
#[derive(Debug)]
pub struct AgentAuth {
    /// The server's last answer.
    answer: Option<bool>,
}

/// The server's last answer to some attempts.
pub open spec fn last_answer(attempts: Seq<AgentAttempt>) -> Option<bool>
    decreases attempts.len(),
{
    if attempts.len() == 0 {
        None
    } else {
        match attempts.last() {
            AgentAttempt::Accepted => Some(true),
            AgentAttempt::Refused => Some(false),
            _ => last_answer(attempts.drop_last()),
        }
    }
}

impl AgentAuth {
    /// Whether these are the attempts that were made.
    pub closed spec fn follows(self, attempts: Seq<AgentAttempt>) -> bool {
        self.answer == last_answer(attempts)
    }

    /// Starts on the agent's keys.
    pub fn start(identities: usize) -> (r: Result<AgentAuth, AuthError>)
        ensures
            match r {
                Ok(a) => identities > 0 && a.follows(seq![]),
                Err(e) => identities == 0 && e is NoIdentities,
            },
    {
        if identities == 0 {
            return Err(AuthError::NoIdentities);
        }
        Ok(AgentAuth { answer: None })
    }

    /// Takes in what came of a key. Returns whether the next one is to be
    /// tried.
    pub fn on_attempt(&mut self, attempt: AgentAttempt) -> (r: bool)
        ensures
            r == (attempt != AgentAttempt::Accepted),
            forall|before: Seq<AgentAttempt>|
                old(self).follows(before) ==> #[trigger] final(self).follows(before.push(attempt)),
    {
        match attempt {
            AgentAttempt::Accepted => self.answer = Some(true),
            AgentAttempt::Refused => self.answer = Some(false),
            _ => {},
        }
        assert forall|before: Seq<AgentAttempt>| old(self).follows(before) implies #[trigger] self.follows(
            before.push(attempt),
        ) by {
            assert(before.push(attempt).drop_last() =~= before);
        }
        match attempt {
            AgentAttempt::Accepted => false,
            _ => true,
        }
    }

    /// What the attempts came to.
    pub fn verdict(self, user: &str) -> (r: Result<(), AuthError>)
        ensures
            forall|attempts: Seq<AgentAttempt>| #[trigger]
                self.follows(attempts) ==> agent_verdict(attempts, user@, r),
    {
        match self.answer {
            None => Err(AuthError::NoneAccepted),
            Some(accepted) => password_verdict(accepted, user),
        }
    }
}

/// Whether a result is what the attempts came to.
pub open spec fn agent_verdict(attempts: Seq<AgentAttempt>, user: Seq<char>, r: Result<(), AuthError>) -> bool {
    match last_answer(attempts) {
        None => r matches Err(e) && e is NoneAccepted,
        Some(accepted) => is_verdict(accepted, user, r),
    }
}

/// Whether a result says that the server took or refused the user.
pub open spec fn is_verdict(accepted: bool, user: Seq<char>, r: Result<(), AuthError>) -> bool {
    match r {
        Ok(_) => accepted,
        Err(e) => !accepted && e is Rejected && e->Rejected_0@ == user,
    }
}

/// What the server's answer to a password or to a key comes to.
pub fn password_verdict(accepted: bool, user: &str) -> (r: Result<(), AuthError>)
    ensures
        is_verdict(accepted, user@, r),
{
    if accepted {
        Ok(())
    } else {
        Err(AuthError::Rejected(user.to_owned()))
    }
}

/// The user is let in with an agent exactly when the server took one of its
/// keys, given that no key is offered after that one.
pub proof fn law_one_accepted_key_suffices(
    attempts: Seq<AgentAttempt>,
    user: Seq<char>,
    r: Result<(), AuthError>,
)
    requires
        agent_verdict(attempts, user, r),
        forall|i: int|
            0 <= i < attempts.len() - 1 ==> #[trigger] attempts[i] != AgentAttempt::Accepted,
    ensures
        r is Ok <==> attempts.contains(AgentAttempt::Accepted),
{
    lemma_last_answer(attempts);
    if attempts.len() > 0 && attempts.last() == AgentAttempt::Accepted {
        assert(attempts[attempts.len() - 1] == AgentAttempt::Accepted);
    }
}

proof fn lemma_last_answer(attempts: Seq<AgentAttempt>)
    ensures
        last_answer(attempts) == Some(true) ==> attempts.contains(AgentAttempt::Accepted),
        attempts.len() > 0 && attempts.last() == AgentAttempt::Accepted ==> last_answer(attempts)
            == Some(true),
    decreases attempts.len(),
{
    if attempts.len() > 0 {
        let before = attempts.drop_last();
        lemma_last_answer(before);
        if before.contains(AgentAttempt::Accepted) {
            let i = choose|i: int| 0 <= i < before.len() && before[i] == AgentAttempt::Accepted;
            assert(attempts[i] == AgentAttempt::Accepted);
        }
        if attempts.last() == AgentAttempt::Accepted {
            assert(attempts[attempts.len() - 1] == AgentAttempt::Accepted);
        }
    }
}

/// The hash that goes with an RSA signature.
#[derive(Debug, Clone, Copy, PartialEq, Eq, Structural)]
pub enum RsaHash {
    Sha256,
    Sha512,
}

/// The hash to sign with: for an RSA key the best one that the server supports,
/// SHA-256 where it supports none or does not say; none for any other key.
pub fn rsa_hash(is_rsa: bool, supported: Option<Option<RsaHash>>) -> (r: Option<RsaHash>)
    ensures
        r == (if !is_rsa {
            None
        } else {
            match supported {
                Some(Some(hash)) => Some(hash),
                _ => Some(RsaHash::Sha256),
            }
        }),
{
    if !is_rsa {
        return None;
    }
    match supported {
        Some(Some(hash)) => Some(hash),
        _ => Some(RsaHash::Sha256),
    }
}

/// A text without the name of the hash in front.
pub open spec fn unprefixed(s: Seq<char>) -> Seq<char>
    decreases s.len(),
{
    if s.len() >= 7 && s.take(7) == seq!['S', 'H', 'A', '2', '5', '6', ':'] {
        unprefixed(s.skip(7))
    } else {
        s
    }
}

/// A text without equals signs behind.
pub open spec fn unpadded(s: Seq<char>) -> Seq<char>
    decreases s.len(),
{
    if s.len() > 0 && s.last() == '=' {
        unpadded(s.drop_last())
    } else {
        s
    }
}

/// The digest in a fingerprint, without white space around it, the name of the
/// hash and the padding.
pub open spec fn digest(s: Seq<char>) -> Seq<char> {
    unpadded(unprefixed(trim(s)))
}

/// Whether two fingerprints hold the same digest. An empty one is the same as
/// none.
pub open spec fn same_fingerprint(pinned: Seq<char>, actual: Seq<char>) -> bool {
    digest(pinned).len() > 0 && digest(pinned) == digest(actual)
}

fn has_prefix(s: &[char], at: usize) -> (r: bool)
    requires
        at <= s@.len(),
    ensures
        r == (s@.len() - at >= 7 && s@.skip(at as int).take(7) == seq![
            'S',
            'H',
            'A',
            '2',
            '5',
            '6',
            ':',
        ]),
{
    if s.len() - at < 7 {
        return false;
    }
    let r = s[at] == 'S' && s[at + 1] == 'H' && s[at + 2] == 'A' && s[at + 3] == '2' && s[at + 4]
        == '5' && s[at + 5] == '6' && s[at + 6] == ':';
    let ghost head = s@.skip(at as int).take(7);
    let ghost name = seq!['S', 'H', 'A', '2', '5', '6', ':'];
    proof {
        assert(head[0] == s@[at as int]);
        assert(head[1] == s@[at + 1]);
        assert(head[2] == s@[at + 2]);
        assert(head[3] == s@[at + 3]);
        assert(head[4] == s@[at + 4]);
        assert(head[5] == s@[at + 5]);
        assert(head[6] == s@[at + 6]);
        if r {
            assert(head =~= name);
        }
    }
    r
}

fn digest_of(s: &str) -> (r: Vec<char>)
    ensures
        r@ == digest(s@),
{
    let chars = chars_of(s);
    let t = trimmed(chars.as_slice());
    let len: usize = t.len();
    let mut at: usize = 0;
    assert(t@.skip(0) =~= t@);
    while has_prefix(t, at)
        invariant
            at <= len == t@.len(),
            unprefixed(t@.skip(at as int)) == unprefixed(t@),
        decreases t@.len() - at,
    {
        assert(t@.skip(at as int).skip(7) =~= t@.skip(at + 7));
        at = at + 7;
    }
    let front = slice_subrange(t, at, len);
    assert(front@ =~= t@.skip(at as int));
    let mut n: usize = front.len();
    assert(front@.take(n as int) =~= front@);
    while n > 0 && front[n - 1] == '='
        invariant
            n <= front@.len(),
            unpadded(front@.take(n as int)) == unpadded(front@),
        decreases n,
    {
        assert(front@.take(n as int).drop_last() =~= front@.take(n - 1));
        n = n - 1;
    }
    let r = slice_subrange(front, 0, n);
    assert(r@ =~= front@.take(n as int));
    vstd::slice::slice_to_vec(r)
}

/// Whether a fingerprint is the pinned one, with or without the name of the
/// hash in front and the padding behind.
pub fn fingerprint_matches(pinned: &str, actual_sha256_b64: &str) -> (r: bool)
    ensures
        r == same_fingerprint(pinned@, actual_sha256_b64@),
{
    let a = digest_of(pinned);
    let b = digest_of(actual_sha256_b64);
    a.len() > 0 && same_chars(a.as_slice(), b.as_slice())
}

/// Whether a host that is not on record may be connected to.
pub fn accepts_unknown_host(policy: &HostKeyPolicy) -> (r: bool)
    ensures
        r == (policy is AcceptNew),
{
    match policy {
        HostKeyPolicy::AcceptNew => true,
        _ => false,
    }
}

/// Whoever looks while a live session is held gets it, however often the
/// tunnel was rebuilt and however little time is left. A dead one is never
/// handed out.
pub proof fn law_live_sessions_are_handed_out(
    t: TunnelView,
    epoch: Epoch,
    time_left: bool,
    event: WaitEvent,
)
    requires
        t.session == Some(epoch),
    ensures
        t.wait_step(false, WaitEvent::Look { time_left }) == WaitStep::Ready(epoch),
        t.usable(false) == Some(epoch),
        t.usable(true) is None,
        !(t.wait_step(true, event) is Ready),
{
}

/// Only a session that is held is ever handed out.
pub proof fn law_only_held_sessions_are_handed_out(t: TunnelView, dead: bool, event: WaitEvent)
    ensures
        t.wait_step(dead, event) matches WaitStep::Ready(epoch) ==> !dead && t.session
            == Some(epoch),
        t.session is None ==> t.usable(dead) is None,
{
}

/// A tunnel that was lost and came up again serves the new session to whoever
/// looks, and one that came up for the first time does too.
pub proof fn law_rebuilt_tunnels_serve_again(t: TunnelView, epoch: Epoch, time_left: bool)
    ensures
        t.up(epoch).wait_step(false, WaitEvent::Look { time_left }) == WaitStep::Ready(epoch),
        t.watched(true).decided(false).up(epoch).wait_step(false, WaitEvent::Look { time_left })
            == WaitStep::Ready(epoch),
        t.watched(true).session is None,
        t.watched(true).wait_step(false, WaitEvent::Look { time_left: true }) is Ready ==> false,
{
}

/// The supervisor ends when told to, leaves a live session alone, and else
/// tries to build the tunnel under the next number. Nothing else changes by
/// its decision, and no number is used for two attempts in a row.
pub proof fn law_the_supervisor_builds_what_is_missing(t: TunnelView, dead: bool)
    ensures
        t.shut_down <==> t.action(dead) == SuperviseAction::Stop,
        !t.shut_down && t.session is Some && !dead ==> t.action(dead) == SuperviseAction::Watch,
        !t.shut_down && (t.session is None || dead) ==> {
            &&& t.action(dead) == SuperviseAction::Connect(t.next_epoch)
            &&& t.decided(dead) == (TunnelView { next_epoch: t.decided(dead).next_epoch, ..t })
            &&& t.next_epoch < u64::MAX ==> t.decided(dead).next_epoch == t.next_epoch + 1
            &&& t.next_epoch == u64::MAX ==> t.decided(dead).next_epoch == 0
        },
        !(t.action(dead) is Connect) ==> t.decided(dead) == t,
{
}

/// What becomes of a tunnel: a dead session is let go and the tunnel reports
/// to be down; a new one is held, counted, and makes the failures forgotten;
/// a live one stays.
pub proof fn law_sessions_come_and_go(t: TunnelView, epoch: Epoch)
    ensures
        t.session is Some ==> t.watched(true) == (TunnelView {
            session: None,
            state: TunnelState::Reconnecting { attempts: 0 },
            ..t
        }),
        t.session is None ==> t.watched(true) == t,
        t.watched(false) == t,
        t.up(epoch) == (TunnelView {
            session: Some(epoch),
            state: TunnelState::Up(epoch),
            failures: 0,
            connects: t.up(epoch).connects,
            ..t
        }),
        t.connects < u64::MAX ==> t.up(epoch).connects == t.connects + 1,
        t.connects == u64::MAX ==> t.up(epoch).connects == 0,
{
}

/// A failed attempt is counted where the tunnel may be rebuilt, and closes it
/// where it may not. A shutdown lets the session go. Neither changes anything
/// else.
pub proof fn law_failures_are_counted(t: TunnelView)
    ensures
        t.reconnects && t.failures < u32::MAX ==> t.failed() == (TunnelView {
            failures: (t.failures + 1) as u32,
            state: TunnelState::Reconnecting { attempts: (t.failures + 1) as u32 },
            ..t
        }),
        t.reconnects && t.failures == u32::MAX ==> t.failed() == (TunnelView {
            state: TunnelState::Reconnecting { attempts: u32::MAX },
            ..t
        }),
        !t.reconnects ==> t.failed() == (TunnelView { state: TunnelState::Closed, ..t }),
        t.closed() == (TunnelView {
            session: None,
            shut_down: true,
            state: TunnelState::Closed,
            ..t
        }),
{
}

/// Why an agent's keys did not let the user in: the server answered none of
/// them, or its last answer was a refusal.
pub proof fn law_the_last_answer_counts(
    attempts: Seq<AgentAttempt>,
    user: Seq<char>,
    r: Result<(), AuthError>,
    last: int,
)
    requires
        agent_verdict(attempts, user, r),
        -1 <= last < attempts.len(),
        forall|i: int|
            last < i < attempts.len() ==> #[trigger] attempts[i] == AgentAttempt::Skipped
                || attempts[i] == AgentAttempt::Failed,
    ensures
        last == -1 ==> (r matches Err(AuthError::NoneAccepted)),
        last >= 0 && attempts[last] == AgentAttempt::Accepted ==> r is Ok,
        last >= 0 && attempts[last] == AgentAttempt::Refused ==> (r matches Err(
            AuthError::Rejected(who),
        ) && who@ == user),
{
    lemma_unanswered_behind(attempts, last);
}

proof fn lemma_unanswered_behind(attempts: Seq<AgentAttempt>, last: int)
    requires
        -1 <= last < attempts.len(),
        forall|i: int|
            last < i < attempts.len() ==> #[trigger] attempts[i] == AgentAttempt::Skipped
                || attempts[i] == AgentAttempt::Failed,
    ensures
        last == -1 ==> last_answer(attempts) is None,
        last >= 0 && attempts[last] == AgentAttempt::Accepted ==> last_answer(attempts) == Some(
            true,
        ),
        last >= 0 && attempts[last] == AgentAttempt::Refused ==> last_answer(attempts) == Some(
            false,
        ),
    decreases attempts.len(),
{
    if attempts.len() > last + 1 {
        let before = attempts.drop_last();
        assert(attempts[attempts.len() - 1] == attempts.last());
        assert forall|i: int| last < i < before.len() implies #[trigger] before[i]
            == AgentAttempt::Skipped || before[i] == AgentAttempt::Failed by {
            assert(attempts[i] == before[i]);
        }
        lemma_unanswered_behind(before, last);
    }
}

/// The name of the hash in front.
pub open spec fn hash_name() -> Seq<char> {
    seq!['S', 'H', 'A', '2', '5', '6', ':']
}

/// Whether a text is a digest and nothing else: not empty, without white space
/// at either end, without the name of the hash and without padding.
pub open spec fn bare(d: Seq<char>) -> bool {
    &&& d.len() > 0
    &&& !crate::text::is_space(d[0])
    &&& !crate::text::is_space(d.last())
    &&& d.last() != '='
    &&& d.len() >= 7 ==> d.take(7) != hash_name()
}

/// A fingerprint is the pinned one exactly when the digests are the same,
/// whether either bears the name of the hash and whatever padding it has.
pub proof fn law_fingerprints_go_by_the_digest(
    pinned: Seq<char>,
    actual: Seq<char>,
    named: bool,
    also_named: bool,
    padding: nat,
    other_padding: nat,
)
    requires
        bare(pinned),
        bare(actual),
    ensures
        same_fingerprint(
            dressed(pinned, named, padding),
            dressed(actual, also_named, other_padding),
        ) <==> pinned == actual,
{
    lemma_undressed(pinned, named, padding);
    lemma_undressed(actual, also_named, other_padding);
}

/// A digest with or without the name of the hash, and padded.
pub open spec fn dressed(d: Seq<char>, named: bool, padding: nat) -> Seq<char> {
    (if named {
        hash_name()
    } else {
        seq![]
    }) + d + Seq::new(padding, |i: int| '=')
}

proof fn lemma_undressed(d: Seq<char>, named: bool, padding: nat)
    requires
        bare(d),
    ensures
        digest(dressed(d, named, padding)) == d,
{
    let s = dressed(d, named, padding);
    let padded = d + Seq::new(padding, |i: int| '=');
    assert(!crate::text::is_space('S'));
    assert(!crate::text::is_space('='));
    assert(s[0] == if named {
        'S'
    } else {
        d[0]
    });
    assert(s.last() == if padding > 0 {
        '='
    } else {
        d.last()
    });
    assert(unprefixed(padded) == padded) by {
        if padded.len() >= 7 && padded.take(7) == hash_name() {
            if d.len() >= 7 {
                assert(padded.take(7) =~= d.take(7));
            } else {
                if padding > 0 {
                    assert(padded.take(7)[d.len() as int] == '=');
                }
            }
        }
    }
    if named {
        assert(s.take(7) =~= hash_name());
        assert(s.skip(7) =~= padded);
    } else {
        assert(s =~= padded);
    }
    lemma_unpadded(d, padding);
}

proof fn lemma_unpadded(d: Seq<char>, padding: nat)
    requires
        bare(d),
    ensures
        unpadded(d + Seq::new(padding, |i: int| '=')) == d,
    decreases padding,
{
    let s = d + Seq::new(padding, |i: int| '=');
    if padding > 0 {
        assert(s.drop_last() =~= d + Seq::new((padding - 1) as nat, |i: int| '='));
        lemma_unpadded(d, (padding - 1) as nat);
    } else {
        assert(s =~= d);
    }
}

} // verus!
