//! The SOCKS5 entry. A domain name is passed on as it is, and looked up at the
//! remote end.

use bytes::BytesMut;
use vstd::prelude::*;
use vstd::slice::slice_subrange;
use vstd::utf8::encode_utf8;

use crate::addr::{parse_addr, AddrView};
use crate::buf::buffered;
use crate::frontend::http::credential_texts;
use crate::frontend::{ct_eq, domain_fault, validate_domain, DialError};
use crate::text::{digit_char, push_numeral, push_text, string_from_chars};
use crate::{ProtoError, TargetAddr};

verus! {

pub const VER_SOCKS5: u8 = 0x05;

/// The version of the user name and password exchange.
pub const VER_USERPASS: u8 = 0x01;

pub const METHOD_NONE: u8 = 0x00;

pub const METHOD_USERPASS: u8 = 0x02;

pub const METHOD_UNACCEPTABLE: u8 = 0xFF;

pub const CMD_CONNECT: u8 = 0x01;

pub const REP_SUCCESS: u8 = 0x00;

pub const REP_GENERAL_FAILURE: u8 = 0x01;

pub const REP_NOT_ALLOWED: u8 = 0x02;

pub const REP_NET_UNREACHABLE: u8 = 0x03;

pub const REP_HOST_UNREACHABLE: u8 = 0x04;

pub const REP_CONN_REFUSED: u8 = 0x05;

pub const REP_TTL_EXPIRED: u8 = 0x06;

pub const REP_CMD_NOT_SUPPORTED: u8 = 0x07;

pub const REP_ATYP_NOT_SUPPORTED: u8 = 0x08;

/// How a client broke the protocol.
#[derive(Debug, Clone, Copy, PartialEq, Eq)]
pub enum SocksError {
    /// The greeting is of another version.
    GreetingVersion(u8),
    /// The greeting offers no methods.
    NoMethods,
    /// The password exchange is of another version.
    AuthVersion(u8),
    /// The request is of another version.
    RequestVersion(u8),
    /// The request's domain name is empty.
    EmptyDomain,
    /// The request's address cannot be read.
    BadAddress(ProtoError),
    /// The request's domain name holds blanks or control characters.
    BadDomain,
}

impl SocksError {
    /// The error for people to read.
    pub open spec fn text(self) -> Seq<char> {
        match self {
            SocksError::GreetingVersion(v) => "unsupported socks version 0x"@ + two_digits(v),
            SocksError::NoMethods => "socks5 greeting advertises zero methods"@,
            SocksError::AuthVersion(v) => "unsupported userpass subnegotiation version 0x"@
                + two_digits(v),
            SocksError::RequestVersion(v) => "unsupported socks version 0x"@ + two_digits(v)
                + " in request"@,
            SocksError::EmptyDomain => "socks5 request carries empty domain name"@,
            SocksError::BadAddress(e) => "decode socks5 domain address: "@ + e.text(),
            SocksError::BadDomain => "bad domain: host name contains control characters"@,
        }
    }

    /// The error for people to read.
    pub fn message(&self) -> (r: String)
        ensures
            r@ == self.text(),
    {
        let mut out: Vec<char> = Vec::new();
        match self {
            SocksError::GreetingVersion(v) => {
                push_text(&mut out, "unsupported socks version 0x");
                push_two_digits(&mut out, *v);
            },
            SocksError::NoMethods => push_text(
                &mut out,
                "socks5 greeting advertises zero methods",
            ),
            SocksError::AuthVersion(v) => {
                push_text(&mut out, "unsupported userpass subnegotiation version 0x");
                push_two_digits(&mut out, *v);
            },
            SocksError::RequestVersion(v) => {
                push_text(&mut out, "unsupported socks version 0x");
                push_two_digits(&mut out, *v);
                push_text(&mut out, " in request");
            },
            SocksError::EmptyDomain => push_text(
                &mut out,
                "socks5 request carries empty domain name",
            ),
            SocksError::BadAddress(e) => {
                push_text(&mut out, "decode socks5 domain address: ");
                let m = e.message();
                push_text(&mut out, m.as_str());
            },
            SocksError::BadDomain => push_text(
                &mut out,
                "bad domain: host name contains control characters",
            ),
        }
        assert(out@ =~= self.text());
        string_from_chars(out)
    }
}

/// A byte as two hexadecimal digits.
pub open spec fn two_digits(v: u8) -> Seq<char> {
    seq![digit_char(v as nat / 16), digit_char(v as nat % 16)]
}

fn push_two_digits(out: &mut Vec<char>, v: u8)
    ensures
        final(out)@ == old(out)@ + two_digits(v),
{
    push_numeral(out, (v / 16) as u64, 16);
    push_numeral(out, (v % 16) as u64, 16);
    assert(out@ =~= old(out)@ + two_digits(v));
}

/// What the bytes of a client come to.
#[derive(Debug)]
pub enum SocksStep {
    /// That many bytes are missing at least.
    Need(usize),
    /// The client broke the protocol.
    Fail(SocksError),
    /// The reply is to be sent, and the connection closed.
    Close(Vec<u8>),
    /// That many bytes were taken; the reply is to be sent, and the next
    /// message read.
    Next { consumed: usize, reply: Vec<u8> },
    /// That many bytes were taken, and the target is to be connected.
    Dial { consumed: usize, addr: TargetAddr },
}

/// What such a step stands for.
#[verifier::ext_equal]
pub enum SocksStepView {
    Need(nat),
    Fail(SocksError),
    Close(Seq<u8>),
    Next { consumed: nat, reply: Seq<u8> },
    Dial { consumed: nat, addr: AddrView },
}

impl View for SocksStep {
    type V = SocksStepView;

    open spec fn view(&self) -> SocksStepView {
        match self {
            SocksStep::Need(n) => SocksStepView::Need(*n as nat),
            SocksStep::Fail(e) => SocksStepView::Fail(*e),
            SocksStep::Close(reply) => SocksStepView::Close(reply@),
            SocksStep::Next { consumed, reply } => SocksStepView::Next {
                consumed: *consumed as nat,
                reply: reply@,
            },
            SocksStep::Dial { consumed, addr } => SocksStepView::Dial {
                consumed: *consumed as nat,
                addr: addr@,
            },
        }
    }
}

/// How many bytes are missing of `total`.
pub open spec fn need(s: Seq<u8>, total: int) -> SocksStepView {
    SocksStepView::Need((total - s.len()) as nat)
}

/// The method that an entry insists on.
pub open spec fn method_for(credentials: Option<(Seq<char>, Seq<char>)>) -> u8 {
    if credentials is Some {
        METHOD_USERPASS
    } else {
        METHOD_NONE
    }
}

/// What a greeting comes to.
pub open spec fn greeting(credentials: Option<(Seq<char>, Seq<char>)>, s: Seq<u8>) -> SocksStepView {
    let want = method_for(credentials);
    if s.len() < 2 {
        need(s, 2)
    } else if s[0] != VER_SOCKS5 {
        SocksStepView::Fail(SocksError::GreetingVersion(s[0]))
    } else if s[1] == 0 {
        SocksStepView::Fail(SocksError::NoMethods)
    } else if s.len() < 2 + s[1] {
        need(s, 2 + s[1] as int)
    } else if s.subrange(2, 2 + s[1] as int).contains(want) {
        SocksStepView::Next { consumed: 2 + s[1] as nat, reply: seq![VER_SOCKS5, want] }
    } else {
        SocksStepView::Close(seq![VER_SOCKS5, METHOD_UNACCEPTABLE])
    }
}

/// What the password exchange comes to. It is left out where no credentials
/// are asked for.
pub open spec fn authentication(
    credentials: Option<(Seq<char>, Seq<char>)>,
    s: Seq<u8>,
) -> SocksStepView {
    match credentials {
        None => SocksStepView::Next { consumed: 0, reply: seq![] },
        Some((user, pass)) => if s.len() < 2 {
            need(s, 2)
        } else if s[0] != VER_USERPASS {
            SocksStepView::Fail(SocksError::AuthVersion(s[0]))
        } else {
            let u = 2 + s[1] as int;
            if s.len() < u + 1 {
                need(s, u + 1)
            } else {
                let p = u + 1 + s[u] as int;
                if s.len() < p {
                    need(s, p)
                } else if s.subrange(2, u) == encode_utf8(user) && s.subrange(u + 1, p)
                    == encode_utf8(pass) {
                    SocksStepView::Next { consumed: p as nat, reply: seq![VER_USERPASS, 0u8] }
                } else {
                    SocksStepView::Close(seq![VER_USERPASS, 1u8])
                }
            }
        },
    }
}

/// A reply. It names no address, so that nothing of the tunnel is given away.
pub open spec fn reply_bytes(rep: u8) -> Seq<u8> {
    seq![VER_SOCKS5, rep, 0, TargetAddr::KIND_V4, 0, 0, 0, 0, 0, 0]
}

/// How long the address at the front of `s` is, as far as `s` tells.
pub open spec fn address_len(s: Seq<u8>) -> int {
    if s[0] == TargetAddr::KIND_V4 {
        7
    } else if s[0] == TargetAddr::KIND_V6 {
        19
    } else if s.len() < 2 {
        2
    } else {
        2 + s[1] as int + 2
    }
}

/// What a request comes to.
pub open spec fn request(s: Seq<u8>) -> SocksStepView {
    if s.len() < 3 {
        need(s, 3)
    } else if s[0] != VER_SOCKS5 {
        SocksStepView::Fail(SocksError::RequestVersion(s[0]))
    } else if s[1] != CMD_CONNECT {
        SocksStepView::Close(reply_bytes(REP_CMD_NOT_SUPPORTED))
    } else if s.len() < 4 {
        need(s, 4)
    } else {
        let a = s.skip(3);
        let total = address_len(a);
        if a[0] != TargetAddr::KIND_V4 && a[0] != TargetAddr::KIND_V6 && a[0]
            != TargetAddr::KIND_DOMAIN {
            SocksStepView::Close(reply_bytes(REP_ATYP_NOT_SUPPORTED))
        } else if a[0] == TargetAddr::KIND_DOMAIN && a.len() >= 2 && a[1] == 0 {
            SocksStepView::Fail(SocksError::EmptyDomain)
        } else if a.len() < total {
            need(s, 3 + total)
        } else {
            match parse_addr(a.take(total)) {
                Err(e) => SocksStepView::Fail(SocksError::BadAddress(e)),
                Ok(addr) => if addr matches AddrView::Domain(d, _) && domain_fault(d) is Some {
                    SocksStepView::Fail(SocksError::BadDomain)
                } else {
                    SocksStepView::Dial { consumed: (3 + total) as nat, addr }
                },
            }
        }
    }
}

/// What is read next of a client.
#[derive(Debug, Clone, Copy, PartialEq, Eq, Structural)]
pub enum SocksPhase {
    Greeting,
    Login,
    Request,
}

impl SocksPhase {
    /// The phase after a message came to a step: an accepted one leads on.
    pub open spec fn after(self, step: SocksStepView) -> SocksPhase {
        match (self, step) {
            (SocksPhase::Greeting, SocksStepView::Next { .. }) => SocksPhase::Login,
            (SocksPhase::Login, SocksStepView::Next { .. }) => SocksPhase::Request,
            _ => self,
        }
    }
}

/// What a message comes to in its phase.
pub open spec fn message_step(
    credentials: Option<(Seq<char>, Seq<char>)>,
    phase: SocksPhase,
    s: Seq<u8>,
) -> SocksStepView {
    match phase {
        SocksPhase::Greeting => greeting(credentials, s),
        SocksPhase::Login => authentication(credentials, s),
        SocksPhase::Request => request(s),
    }
}

/// The phase that a client is in who has sent some messages, each complete or
/// not.
pub open spec fn phase_after(
    credentials: Option<(Seq<char>, Seq<char>)>,
    messages: Seq<Seq<u8>>,
) -> SocksPhase
    decreases messages.len(),
{
    if messages.len() == 0 {
        SocksPhase::Greeting
    } else {
        let phase = phase_after(credentials, messages.drop_last());
        phase.after(message_step(credentials, phase, messages.last()))
    }
}

/// The reply that a failed connection comes to.
pub open spec fn reply_code(e: DialError) -> u8 {
    match e {
        DialError::HostUnreachable => REP_HOST_UNREACHABLE,
        DialError::ConnectionRefused => REP_CONN_REFUSED,
        DialError::NetworkUnreachable => REP_NET_UNREACHABLE,
        DialError::TimedOut => REP_TTL_EXPIRED,
        DialError::Forbidden => REP_NOT_ALLOWED,
        DialError::Internal => REP_GENERAL_FAILURE,
    }
}

/// The reply that a failed connection comes to.
pub fn rep_for(e: DialError) -> (r: u8)
    ensures
        r == reply_code(e),
{
    match e {
        DialError::HostUnreachable => REP_HOST_UNREACHABLE,
        DialError::ConnectionRefused => REP_CONN_REFUSED,
        DialError::NetworkUnreachable => REP_NET_UNREACHABLE,
        DialError::TimedOut => REP_TTL_EXPIRED,
        DialError::Forbidden => REP_NOT_ALLOWED,
        DialError::Internal => REP_GENERAL_FAILURE,
    }
}

/// A reply.
pub fn reply(rep: u8) -> (r: Vec<u8>)
    ensures
        r@ == reply_bytes(rep),
{
    let mut out: Vec<u8> = Vec::new();
    out.push(VER_SOCKS5);
    out.push(rep);
    out.push(0);
    out.push(TargetAddr::KIND_V4);
    let mut i: usize = 0;
    while i < 6
        invariant
            i <= 6,
            out@ =~= seq![VER_SOCKS5, rep, 0u8, TargetAddr::KIND_V4] + Seq::new(
                i as nat,
                |k: int| 0u8,
            ),
        decreases 6 - i,
    {
        out.push(0);
        i = i + 1;
    }
    assert(out@ =~= reply_bytes(rep));
    out
}

fn two_bytes(a: u8, b: u8) -> (r: Vec<u8>)
    ensures
        r@ == seq![a, b],
{
    let mut out: Vec<u8> = Vec::new();
    out.push(a);
    out.push(b);
    assert(out@ =~= seq![a, b]);
    out
}

fn contains_byte(s: &[u8], b: u8) -> (r: bool)
    ensures
        r == s@.contains(b),
{
    let mut i: usize = 0;
    while i < s.len()
        invariant
            i <= s@.len(),
            forall|k: int| 0 <= k < i ==> s@[k] != b,
        decreases s@.len() - i,
    {
        if s[i] == b {
            assert(s@[i as int] == b);
            return true;
        }
        i = i + 1;
    }
    false
}

/// The SOCKS5 entry, with the credentials that it asks for.
#[derive(Debug)]
pub struct Socks5Server {
    credentials: Option<(String, String)>,
}

impl Socks5Server {
    /// The credentials that the entry asks for.
    pub closed spec fn required(&self) -> Option<(Seq<char>, Seq<char>)> {
        credential_texts(self.credentials)
    }

    /// An entry that insists on the given credentials, or asks for none.
    pub fn new(credentials: Option<(String, String)>) -> (r: Socks5Server)
        ensures
            r.required() == credential_texts(credentials),
    {
        Socks5Server { credentials }
    }

    fn required_method(&self) -> (r: u8)
        ensures
            r == method_for(self.required()),
    {
        if self.credentials.is_some() {
            METHOD_USERPASS
        } else {
            METHOD_NONE
        }
    }

    /// Takes a message in its phase. Gives the phase that follows.
    pub fn on_message(&self, phase: SocksPhase, s: &[u8]) -> (r: (SocksStep, SocksPhase))
        ensures
            r.0@ == message_step(self.required(), phase, s@),
            r.1 == phase.after(r.0@),
    {
        let step = match phase {
            SocksPhase::Greeting => self.negotiate_method(s),
            SocksPhase::Login => self.authenticate(s),
            SocksPhase::Request => self.read_request(s),
        };
        let next = match (phase, &step) {
            (SocksPhase::Greeting, SocksStep::Next { .. }) => SocksPhase::Login,
            (SocksPhase::Login, SocksStep::Next { .. }) => SocksPhase::Request,
            _ => phase,
        };
        (step, next)
    }

    /// Takes a greeting.
    pub fn negotiate_method(&self, s: &[u8]) -> (r: SocksStep)
        ensures
            r@ == greeting(self.required(), s@),
    {
        if s.len() < 2 {
            return SocksStep::Need(2 - s.len());
        }
        if s[0] != VER_SOCKS5 {
            return SocksStep::Fail(SocksError::GreetingVersion(s[0]));
        }
        if s[1] == 0 {
            return SocksStep::Fail(SocksError::NoMethods);
        }
        let total: usize = 2 + s[1] as usize;
        if s.len() < total {
            return SocksStep::Need(total - s.len());
        }
        let want: u8 = self.required_method();
        if contains_byte(slice_subrange(s, 2, total), want) {
            SocksStep::Next { consumed: total, reply: two_bytes(VER_SOCKS5, want) }
        } else {
            SocksStep::Close(two_bytes(VER_SOCKS5, METHOD_UNACCEPTABLE))
        }
    }

    /// Takes the user name and the password. Both are compared in any case.
    pub fn authenticate(&self, s: &[u8]) -> (r: SocksStep)
        ensures
            r@ == authentication(self.required(), s@),
    {
        match &self.credentials {
            None => {
                let reply: Vec<u8> = Vec::new();
                assert(reply@ =~= Seq::<u8>::empty());
                SocksStep::Next { consumed: 0, reply }
            },
            Some((user, pass)) => {
                if s.len() < 2 {
                    return SocksStep::Need(2 - s.len());
                }
                if s[0] != VER_USERPASS {
                    return SocksStep::Fail(SocksError::AuthVersion(s[0]));
                }
                let u: usize = 2 + s[1] as usize;
                if s.len() < u + 1 {
                    return SocksStep::Need(u + 1 - s.len());
                }
                let p: usize = u + 1 + s[u] as usize;
                if s.len() < p {
                    return SocksStep::Need(p - s.len());
                }
                let same_user: bool = ct_eq(slice_subrange(s, 2, u), user.as_str().as_bytes());
                let same_pass: bool = ct_eq(slice_subrange(s, u + 1, p), pass.as_str().as_bytes());
                if same_user && same_pass {
                    SocksStep::Next { consumed: p, reply: two_bytes(VER_USERPASS, 0) }
                } else {
                    SocksStep::Close(two_bytes(VER_USERPASS, 1))
                }
            },
        }
    }

    /// Takes a request.
    pub fn read_request(&self, s: &[u8]) -> (r: SocksStep)
        ensures
            r@ == request(s@),
    {
        if s.len() < 3 {
            return SocksStep::Need(3 - s.len());
        }
        if s[0] != VER_SOCKS5 {
            return SocksStep::Fail(SocksError::RequestVersion(s[0]));
        }
        if s[1] != CMD_CONNECT {
            return SocksStep::Close(reply(REP_CMD_NOT_SUPPORTED));
        }
        if s.len() < 4 {
            return SocksStep::Need(4 - s.len());
        }
        self.read_addr(s)
    }

    /// Takes the address of a request.
    fn read_addr(&self, s: &[u8]) -> (r: SocksStep)
        requires
            s@.len() >= 4,
            s@[0] == VER_SOCKS5,
            s@[1] == CMD_CONNECT,
        ensures
            r@ == request(s@),
    {
        let a = slice_subrange(s, 3, s.len());
        assert(a@ =~= s@.skip(3));
        let total: usize = if a[0] == TargetAddr::KIND_V4 {
            7
        } else if a[0] == TargetAddr::KIND_V6 {
            19
        } else if a[0] == TargetAddr::KIND_DOMAIN {
            if a.len() < 2 {
                2
            } else {
                if a[1] == 0 {
                    return SocksStep::Fail(SocksError::EmptyDomain);
                }
                2 + a[1] as usize + 2
            }
        } else {
            return SocksStep::Close(reply(REP_ATYP_NOT_SUPPORTED));
        };
        if a.len() < total {
            return SocksStep::Need(3 + total - s.len());
        }
        let mut body = BytesMut::new();
        let part = slice_subrange(a, 0, total);
        assert(part@ =~= a@.take(total as int));
        body.extend_from_slice(part);
        assert(buffered(body) =~= a@.take(total as int));
        match TargetAddr::decode(&mut body) {
            Err(e) => SocksStep::Fail(SocksError::BadAddress(e)),
            Ok(addr) => {
                match &addr {
                    TargetAddr::Domain(d, _) => {
                        if validate_domain(d.as_str()).is_err() {
                            return SocksStep::Fail(SocksError::BadDomain);
                        }
                    },
                    _ => {},
                }
                SocksStep::Dial { consumed: 3 + total, addr }
            },
        }
    }
}

/// An entry that asks for credentials lets nobody past who does not present
/// them, byte for byte.
pub proof fn law_wrong_credentials_are_closed(
    user: Seq<char>,
    pass: Seq<char>,
    name: Seq<u8>,
    word: Seq<u8>,
)
    requires
        name.len() <= 255,
        word.len() <= 255,
    ensures
        ({
            let s = seq![VER_USERPASS, name.len() as u8] + name + seq![word.len() as u8] + word;
            let step = authentication(Some((user, pass)), s);
            if name == encode_utf8(user) && word == encode_utf8(pass) {
                step == (SocksStepView::Next {
                    consumed: s.len(),
                    reply: seq![VER_USERPASS, 0u8],
                })
            } else {
                step == SocksStepView::Close(seq![VER_USERPASS, 1u8])
            }
        }),
{
    let s = seq![VER_USERPASS, name.len() as u8] + name + seq![word.len() as u8] + word;
    let u = 2 + name.len() as int;
    assert(s.subrange(2, u) =~= name);
    assert(s[u] == word.len());
    assert(s.subrange(u + 1, u + 1 + word.len()) =~= word);
}

/// A target is connected only for a client whose greeting was accepted and,
/// after it, whose credentials were.
pub proof fn law_dial_follows_greeting_and_login(
    credentials: Option<(Seq<char>, Seq<char>)>,
    messages: Seq<Seq<u8>>,
    s: Seq<u8>,
)
    requires
        message_step(credentials, phase_after(credentials, messages), s) is Dial,
    ensures
        phase_after(credentials, messages) == SocksPhase::Request,
        exists|i: int, j: int|
            0 <= i < j < messages.len() && (#[trigger] greeting(credentials, messages[i])) is Next
                && (#[trigger] authentication(credentials, messages[j])) is Next,
{
    lemma_phases_were_passed(credentials, messages);
}

proof fn lemma_phases_were_passed(
    credentials: Option<(Seq<char>, Seq<char>)>,
    messages: Seq<Seq<u8>>,
)
    ensures
        phase_after(credentials, messages) != SocksPhase::Greeting ==> exists|i: int|
            0 <= i < messages.len() && (#[trigger] greeting(credentials, messages[i])) is Next,
        phase_after(credentials, messages) == SocksPhase::Request ==> exists|i: int, j: int|
            0 <= i < j < messages.len() && (#[trigger] greeting(credentials, messages[i])) is Next
                && (#[trigger] authentication(credentials, messages[j])) is Next,
    decreases messages.len(),
{
    if messages.len() > 0 {
        let before = messages.drop_last();
        let last = messages.len() - 1;
        lemma_phases_were_passed(credentials, before);
        match phase_after(credentials, before) {
            SocksPhase::Greeting => {
                assert(greeting(credentials, messages[last]) == message_step(
                    credentials,
                    SocksPhase::Greeting,
                    messages.last(),
                ));
            },
            SocksPhase::Login => {
                let i = choose|i: int|
                    0 <= i < before.len() && (#[trigger] greeting(credentials, before[i])) is Next;
                assert(greeting(credentials, messages[i]) is Next);
                assert(authentication(credentials, messages[last]) == message_step(
                    credentials,
                    SocksPhase::Login,
                    messages.last(),
                ));
            },
            SocksPhase::Request => {
                let (i, j) = choose|i: int, j: int|
                    0 <= i < j < before.len() && (#[trigger] greeting(credentials, before[i])) is Next
                        && (#[trigger] authentication(credentials, before[j])) is Next;
                assert(greeting(credentials, messages[i]) is Next);
                assert(authentication(credentials, messages[j]) is Next);
            },
        }
    }
}

/// A request for any address that can be written comes to that address, and
/// takes exactly its bytes.
pub proof fn law_request_round_trip(addr: AddrView, rest: Seq<u8>)
    requires
        addr.encodable(),
        addr matches AddrView::Domain(d, _) ==> domain_fault(d) is None,
    ensures
        request(seq![VER_SOCKS5, CMD_CONNECT, 0u8] + addr.wire() + rest) == (SocksStepView::Dial {
            consumed: 3 + addr.wire().len(),
            addr,
        }),
{
    broadcast use crate::bigendian::lemma_be_len;

    let s = seq![VER_SOCKS5, CMD_CONNECT, 0u8] + addr.wire() + rest;
    let a = s.skip(3);
    assert(a =~= addr.wire() + rest);
    let total = address_len(a);
    assert(total == addr.wire().len());
    assert(a.take(total) =~= addr.wire());
    crate::addr::law_addr_round_trip(addr, seq![]);
    assert(addr.wire() + Seq::<u8>::empty() =~= addr.wire());
}

/// Every failed connection gets a reply that says that it failed.
pub proof fn law_failures_are_never_success(e: DialError)
    ensures
        reply_code(e) != REP_SUCCESS,
{
}

impl SocksStepView {
    /// How many bytes were taken with a message that is complete and accepted.
    pub open spec fn taken(self) -> int {
        match self {
            SocksStepView::Next { consumed, .. } => consumed as int,
            SocksStepView::Dial { consumed, .. } => consumed as int,
            _ => 0,
        }
    }

    /// Whether bytes are asked for, and at most so many.
    pub open spec fn asks_within(self, most: int) -> bool {
        self matches SocksStepView::Need(n) && 0 < n <= most
    }
}

/// Whatever is asked for but a connection is refused as not supported.
pub proof fn law_other_commands_are_refused(s: Seq<u8>)
    requires
        s.len() >= 3,
        s[0] == VER_SOCKS5,
        s[1] != CMD_CONNECT,
    ensures
        request(s) == SocksStepView::Close(reply_bytes(REP_CMD_NOT_SUPPORTED)),
{
}

/// No byte behind a message is ever asked for: while a message is incomplete,
/// what is missing is asked for and no more, whatever will follow it.
pub proof fn law_reading_stops_at_the_end_of_a_message(
    credentials: Option<(Seq<char>, Seq<char>)>,
    s: Seq<u8>,
    cut: int,
)
    requires
        0 <= cut <= s.len(),
    ensures
        cut < greeting(credentials, s).taken() ==> greeting(credentials, s.take(cut)).asks_within(
            greeting(credentials, s).taken() - cut,
        ),
        cut < authentication(credentials, s).taken() ==> authentication(
            credentials,
            s.take(cut),
        ).asks_within(authentication(credentials, s).taken() - cut),
        cut < request(s).taken() ==> request(s.take(cut)).asks_within(request(s).taken() - cut),
{
    let t = s.take(cut);
    if cut >= 3 {
        assert(t.skip(3) =~= s.skip(3).take(cut - 3));
    }
}

/// A complete greeting is accepted exactly when the method that the entry
/// insists on is among those offered, at any place, whatever follows it. It is
/// user name and password where credentials are asked for, and none where not.
pub proof fn law_the_wanted_method_may_stand_anywhere(
    credentials: Option<(Seq<char>, Seq<char>)>,
    methods: Seq<u8>,
    rest: Seq<u8>,
)
    requires
        1 <= methods.len() <= 255,
    ensures
        ({
            let s = seq![0x05u8, methods.len() as u8] + methods + rest;
            let want: u8 = if credentials is Some {
                0x02
            } else {
                0x00
            };
            if exists|i: int| 0 <= i < methods.len() && methods[i] == want {
                greeting(credentials, s) == (SocksStepView::Next {
                    consumed: 2 + methods.len(),
                    reply: seq![0x05u8, want],
                })
            } else {
                greeting(credentials, s) == SocksStepView::Close(seq![0x05u8, 0xffu8])
            }
        }),
{
    let s = seq![0x05u8, methods.len() as u8] + methods + rest;
    assert(s[0] == 0x05);
    assert(s[1] == methods.len());
    assert(s.subrange(2, 2 + methods.len() as int) =~= methods);
}

/// A login is judged by its name and password alone, whatever follows it: both
/// right, it is accepted; otherwise it is refused and the connection closed.
/// Where no credentials are asked for, no byte is taken for one.
pub proof fn law_logins_are_judged_by_name_and_password(
    user: Seq<char>,
    pass: Seq<char>,
    name: Seq<u8>,
    word: Seq<u8>,
    rest: Seq<u8>,
)
    requires
        name.len() <= 255,
        word.len() <= 255,
    ensures
        ({
            let message = seq![0x01u8, name.len() as u8] + name + seq![word.len() as u8] + word;
            let step = authentication(Some((user, pass)), message + rest);
            if name == encode_utf8(user) && word == encode_utf8(pass) {
                step == (SocksStepView::Next {
                    consumed: message.len(),
                    reply: seq![0x01u8, 0u8],
                })
            } else {
                step == SocksStepView::Close(seq![0x01u8, 1u8])
            }
        }),
        authentication(None, rest) == (SocksStepView::Next { consumed: 0, reply: seq![] }),
{
    let message = seq![0x01u8, name.len() as u8] + name + seq![word.len() as u8] + word;
    let s = message + rest;
    let u = 2 + name.len() as int;
    assert(s[0] == 0x01);
    assert(s[1] == name.len());
    assert(s.subrange(2, u) =~= name);
    assert(s[u] == word.len());
    assert(s.subrange(u + 1, u + 1 + word.len()) =~= word);
}

/// Messages of another version are refused as soon as the version is there, a
/// greeting without methods too.
pub proof fn law_other_versions_are_refused(
    credentials: Option<(Seq<char>, Seq<char>)>,
    s: Seq<u8>,
)
    requires
        s.len() >= 3,
    ensures
        s[0] != 0x05 ==> greeting(credentials, s) == SocksStepView::Fail(
            SocksError::GreetingVersion(s[0]),
        ),
        s[0] == 0x05 && s[1] == 0 ==> greeting(credentials, s) == SocksStepView::Fail(
            SocksError::NoMethods,
        ),
        s[0] != 0x01 && credentials is Some ==> authentication(credentials, s)
            == SocksStepView::Fail(SocksError::AuthVersion(s[0])),
        s[0] != 0x05 ==> request(s) == SocksStepView::Fail(SocksError::RequestVersion(s[0])),
{
}

/// A request for a connection is refused where its address is of no known
/// kind, and where its name is empty or cannot be passed on.
pub proof fn law_bad_addresses_are_refused(kind: u8, name: Seq<u8>, port: Seq<u8>, rest: Seq<u8>)
    requires
        name.len() <= 255,
        port.len() == 2,
    ensures
        kind != 1 && kind != 3 && kind != 4 ==> request(seq![0x05u8, 0x01u8, 0u8, kind] + rest)
            == SocksStepView::Close(reply_bytes(0x08)),
        ({
            let s = seq![0x05u8, 0x01u8, 0u8, 0x03u8, name.len() as u8] + name + port + rest;
            let text = vstd::utf8::decode_utf8(name);
            &&& name.len() == 0 ==> request(s) == SocksStepView::Fail(SocksError::EmptyDomain)
            &&& name.len() > 0 && !vstd::utf8::valid_utf8(name) ==> request(s)
                == SocksStepView::Fail(SocksError::BadAddress(ProtoError::BadDomain))
            &&& name.len() > 0 && vstd::utf8::valid_utf8(name) && domain_fault(text) is Some
                ==> request(s) == SocksStepView::Fail(SocksError::BadDomain)
        }),
{
    let p = seq![0x05u8, 0x01u8, 0u8, kind] + rest;
    assert(p.skip(3)[0] == kind);
    let s = seq![0x05u8, 0x01u8, 0u8, 0x03u8, name.len() as u8] + name + port + rest;
    let a = s.skip(3);
    assert(a[0] == 0x03);
    assert(a[1] == name.len());
    let total = 2 + name.len() as int + 2;
    assert(address_len(a) == total);
    let b = a.take(total);
    assert(b[0] == 0x03 && b[1] == name.len());
    assert(b.subrange(2, 2 + name.len() as int) =~= name);
}

/// Replies have ten bytes, of which the second says what happened, and name no
/// address. Each failure has a code of its own.
pub proof fn law_replies_say_what_happened(rep: u8)
    ensures
        reply_bytes(rep) =~= seq![0x05u8, rep, 0, 1, 0, 0, 0, 0, 0, 0],
        reply_code(DialError::Internal) == 0x01,
        reply_code(DialError::Forbidden) == 0x02,
        reply_code(DialError::NetworkUnreachable) == 0x03,
        reply_code(DialError::HostUnreachable) == 0x04,
        reply_code(DialError::ConnectionRefused) == 0x05,
        reply_code(DialError::TimedOut) == 0x06,
{
}

/// A client that does everything right is led from the greeting over the login
/// to its request, and nobody is led on otherwise.
pub proof fn law_accepted_messages_lead_on(step: SocksStepView)
    ensures
        SocksPhase::Greeting.after(step) == if step is Next {
            SocksPhase::Login
        } else {
            SocksPhase::Greeting
        },
        SocksPhase::Login.after(step) == if step is Next {
            SocksPhase::Request
        } else {
            SocksPhase::Login
        },
        SocksPhase::Request.after(step) == SocksPhase::Request,
{
}

/// The reserved byte of a request says nothing: requests that differ in it only
/// come to the same.
pub proof fn law_the_reserved_byte_says_nothing(head: Seq<u8>, a: u8, b: u8, rest: Seq<u8>)
    requires
        head.len() == 2,
    ensures
        request(head.push(a) + rest) == request(head.push(b) + rest),
{
    let s = head.push(a) + rest;
    let t = head.push(b) + rest;
    assert(s[0] == head[0] && s[1] == head[1]);
    assert(t[0] == head[0] && t[1] == head[1]);
    assert(s.skip(3) =~= rest);
    assert(t.skip(3) =~= rest);
}

} // verus!
