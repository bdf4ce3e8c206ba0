//! The HTTP CONNECT entry. Only tunnels are served; every other method is
//! refused.

use base64::Engine;
use vstd::prelude::*;
use vstd::slice::{slice_subrange, slice_to_vec};
use vstd::utf8::{decode_utf8, encode_utf8, valid_utf8};

use crate::addr::AddrView;
use crate::frontend::{ct_eq, domain_fault, validate_domain, DialError};
use crate::ip::{
    ip_char, ip_of, ipv4_of, ipv6_of, ipv6_text, law_ipv4_round_trip, law_ipv6_round_trip,
    lemma_ipv4_chars, parse_ipv4, parse_ipv6,
};
use crate::text::{
    chars_of, decimal, digit_value, find, find_char, law_decimal_round_trip, lemma_decimal,
    lemma_find_is, lemma_rfind, lower, lowered, parse_u16, parsed, push_decimal, push_text, rfind,
    rfind_char, same_chars, split, split_chars, string_from_chars, string_from_utf8, texts, trim,
    trimmed,
};
use crate::TargetAddr;

verus! {

/// The largest request head that is read.
pub const MAX_HEAD_BYTES: usize = 16 * 1024;

/// What a served tunnel starts with.
pub const ESTABLISHED: &'static str = "HTTP/1.1 200 Connection established\r\n\r\n";

/// A request that is refused, and with what.
#[derive(Debug, PartialEq, Eq)]
pub enum Rejection {
    AuthRequired,
    HeadTooLarge,
    BadRequest(&'static str),
    MethodNotAllowed(String),
    Forbidden,
    GatewayTimeout,
    BadGateway(DialError),
}

/// What a refusal stands for.
#[verifier::ext_equal]
pub enum RejectionView {
    AuthRequired,
    HeadTooLarge,
    BadRequest(Seq<char>),
    MethodNotAllowed(Seq<char>),
    Forbidden,
    GatewayTimeout,
    BadGateway(DialError),
}

impl View for Rejection {
    type V = RejectionView;

    open spec fn view(&self) -> RejectionView {
        match self {
            Rejection::AuthRequired => RejectionView::AuthRequired,
            Rejection::HeadTooLarge => RejectionView::HeadTooLarge,
            Rejection::BadRequest(why) => RejectionView::BadRequest(why@),
            Rejection::MethodNotAllowed(m) => RejectionView::MethodNotAllowed(m@),
            Rejection::Forbidden => RejectionView::Forbidden,
            Rejection::GatewayTimeout => RejectionView::GatewayTimeout,
            Rejection::BadGateway(e) => RejectionView::BadGateway(*e),
        }
    }
}

impl RejectionView {
    /// The refusal that a failed connection comes to.
    pub open spec fn of_dial(e: DialError) -> RejectionView {
        match e {
            DialError::Forbidden => RejectionView::Forbidden,
            DialError::TimedOut => RejectionView::GatewayTimeout,
            other => RejectionView::BadGateway(other),
        }
    }

    /// The status line's code and reason.
    pub open spec fn status(self) -> Seq<char> {
        match self {
            RejectionView::AuthRequired => "407 Proxy Authentication Required"@,
            RejectionView::HeadTooLarge => "431 Request Header Fields Too Large"@,
            RejectionView::BadRequest(_) => "400 Bad Request"@,
            RejectionView::MethodNotAllowed(_) => "405 Method Not Allowed"@,
            RejectionView::Forbidden => "403 Forbidden"@,
            RejectionView::GatewayTimeout => "504 Gateway Timeout"@,
            RejectionView::BadGateway(_) => "502 Bad Gateway"@,
        }
    }

    /// The header fields that only this refusal has.
    pub open spec fn extra(self) -> Seq<char> {
        match self {
            RejectionView::AuthRequired => "Proxy-Authenticate: Basic realm=\"srp\"\r\n"@,
            RejectionView::MethodNotAllowed(_) => "Allow: CONNECT\r\n"@,
            _ => seq![],
        }
    }

    /// The body.
    pub open spec fn body(self) -> Seq<char> {
        match self {
            RejectionView::AuthRequired => "proxy authentication required\n"@,
            RejectionView::HeadTooLarge => "request headers exceed "@ + decimal(
                MAX_HEAD_BYTES as nat,
            ) + " bytes\n"@,
            RejectionView::BadRequest(why) => why + seq!['\n'],
            RejectionView::MethodNotAllowed(_) => "this proxy only supports CONNECT tunnels\n"@,
            RejectionView::Forbidden => "rejected by proxy policy\n"@,
            RejectionView::GatewayTimeout => "upstream connection timed out\n"@,
            RejectionView::BadGateway(e) => "upstream connection failed: "@ + e.text() + seq!['\n'],
        }
    }

    /// The whole response.
    pub open spec fn response(self) -> Seq<char> {
        "HTTP/1.1 "@ + self.status() + "\r\n"@ + self.extra()
            + "Content-Type: text/plain; charset=utf-8\r\nContent-Length: "@ + decimal(
            encode_utf8(self.body()).len(),
        ) + "\r\nConnection: close\r\n\r\n"@ + self.body()
    }

    /// What is reported of a client that used the protocol wrongly.
    pub open spec fn misuse(self) -> Option<Seq<char>> {
        match self {
            RejectionView::HeadTooLarge => Some(
                "request headers exceed the "@ + decimal(MAX_HEAD_BYTES as nat) + " byte limit"@,
            ),
            RejectionView::BadRequest(why) => Some("malformed CONNECT request: "@ + why),
            RejectionView::MethodNotAllowed(m) => Some(
                "this proxy only supports CONNECT tunnels, got method "@ + m,
            ),
            _ => None,
        }
    }
}

impl Rejection {
    /// The refusal that a failed connection comes to.
    pub fn from_dial(e: DialError) -> (r: Rejection)
        ensures
            r@ == RejectionView::of_dial(e),
    {
        match e {
            DialError::Forbidden => Rejection::Forbidden,
            DialError::TimedOut => Rejection::GatewayTimeout,
            other => Rejection::BadGateway(other),
        }
    }

    fn push_body(&self, out: &mut Vec<char>)
        ensures
            final(out)@ == old(out)@ + self@.body(),
    {
        match self {
            Rejection::AuthRequired => push_text(out, "proxy authentication required\n"),
            Rejection::HeadTooLarge => {
                push_text(out, "request headers exceed ");
                push_decimal(out, MAX_HEAD_BYTES as u64);
                push_text(out, " bytes\n");
            },
            Rejection::BadRequest(why) => {
                push_text(out, why);
                out.push('\n');
            },
            Rejection::MethodNotAllowed(_) => push_text(
                out,
                "this proxy only supports CONNECT tunnels\n",
            ),
            Rejection::Forbidden => push_text(out, "rejected by proxy policy\n"),
            Rejection::GatewayTimeout => push_text(out, "upstream connection timed out\n"),
            Rejection::BadGateway(e) => {
                push_text(out, "upstream connection failed: ");
                push_text(out, e.as_str());
                out.push('\n');
            },
        }
        assert(out@ =~= old(out)@ + self@.body());
    }

    /// The whole response, to be written at once.
    pub fn response(&self) -> (r: String)
        ensures
            r@ == self@.response(),
    {
        let status = match self {
            Rejection::AuthRequired => "407 Proxy Authentication Required",
            Rejection::HeadTooLarge => "431 Request Header Fields Too Large",
            Rejection::BadRequest(_) => "400 Bad Request",
            Rejection::MethodNotAllowed(_) => "405 Method Not Allowed",
            Rejection::Forbidden => "403 Forbidden",
            Rejection::GatewayTimeout => "504 Gateway Timeout",
            Rejection::BadGateway(_) => "502 Bad Gateway",
        };
        let mut body: Vec<char> = Vec::new();
        self.push_body(&mut body);
        let ghost shown = body@;
        let body = string_from_chars(body);
        let mut out: Vec<char> = Vec::new();
        push_text(&mut out, "HTTP/1.1 ");
        push_text(&mut out, status);
        push_text(&mut out, "\r\n");
        match self {
            Rejection::AuthRequired => push_text(
                &mut out,
                "Proxy-Authenticate: Basic realm=\"srp\"\r\n",
            ),
            Rejection::MethodNotAllowed(_) => push_text(&mut out, "Allow: CONNECT\r\n"),
            _ => {},
        }
        push_text(&mut out, "Content-Type: text/plain; charset=utf-8\r\nContent-Length: ");
        push_decimal(&mut out, body.as_str().as_bytes().len() as u64);
        push_text(&mut out, "\r\nConnection: close\r\n\r\n");
        push_text(&mut out, body.as_str());
        proof {
            assert(shown =~= self@.body());
            assert(out@ =~= self@.response());
        }
        string_from_chars(out)
    }

    /// What is reported where the client used the protocol wrongly. Otherwise
    /// the connection has ended in order.
    pub fn misuse(&self) -> (r: Option<String>)
        ensures
            match r {
                Some(text) => self@.misuse() == Some(text@),
                None => self@.misuse() is None,
            },
    {
        let mut out: Vec<char> = Vec::new();
        match self {
            Rejection::HeadTooLarge => {
                push_text(&mut out, "request headers exceed the ");
                push_decimal(&mut out, MAX_HEAD_BYTES as u64);
                push_text(&mut out, " byte limit");
            },
            Rejection::BadRequest(why) => {
                push_text(&mut out, "malformed CONNECT request: ");
                push_text(&mut out, why);
            },
            Rejection::MethodNotAllowed(m) => {
                push_text(&mut out, "this proxy only supports CONNECT tunnels, got method ");
                push_text(&mut out, m.as_str());
            },
            _ => {
                return None;
            },
        }
        assert(out@ =~= self@.misuse()->0);
        Some(string_from_chars(out))
    }
}

/// Whether the text is the given one.
fn is_text(s: &[char], t: &str) -> (r: bool)
    ensures
        r == (s@ == t@),
{
    same_chars(s, chars_of(t).as_slice())
}

/// The host and the port of a request's target, as they are written.
pub open spec fn split_authority(s: Seq<char>) -> Result<(Seq<char>, Seq<char>), Seq<char>> {
    if s.len() > 0 && s[0] == '[' {
        let rest = s.skip(1);
        let end = find(rest, ']');
        if end >= rest.len() {
            Err("unterminated IPv6 literal in target"@)
        } else {
            let tail = rest.skip(end + 1);
            if tail.len() == 0 || tail[0] != ':' {
                Err("CONNECT target must include a port"@)
            } else {
                Ok((rest.take(end), tail.skip(1)))
            }
        }
    } else {
        let i = rfind(s, ':');
        if i < 0 {
            Err("CONNECT target must include a port"@)
        } else {
            Ok((s.take(i), s.skip(i + 1)))
        }
    }
}

/// The target that a request names, or what is wrong with it. An IP address is
/// taken as one; a host in brackets can be nothing else.
pub open spec fn authority_of(s: Seq<char>) -> Result<AddrView, Seq<char>> {
    match split_authority(s) {
        Err(why) => Err(why),
        Ok((host, port)) => match parsed(port, 0xffff) {
            None => Err("invalid port in CONNECT target"@),
            Some(n) => if n == 0 {
                Err("port 0 is not connectable"@)
            } else if ipv4_of(host) is Some {
                Ok(AddrView::V4(ipv4_of(host)->0, n as u16))
            } else if ipv6_of(host) is Some {
                Ok(AddrView::V6(ipv6_of(host)->0, n as u16))
            } else if s[0] == '[' {
                Err("invalid IPv6 literal in target"@)
            } else if domain_fault(host) is Some {
                Err("invalid host name in target"@)
            } else {
                Ok(AddrView::Domain(host, n as u16))
            },
        },
    }
}

fn split_target(s: &[char]) -> (r: Result<(Vec<char>, Vec<char>), &'static str>)
    ensures
        match r {
            Ok((host, port)) => split_authority(s@) == Ok::<_, Seq<char>>((host@, port@)),
            Err(why) => split_authority(s@) == Err::<(Seq<char>, Seq<char>), _>(why@),
        },
{
    if s.len() > 0 && s[0] == '[' {
        let rest = slice_subrange(s, 1, s.len());
        assert(rest@ =~= s@.skip(1));
        let end: usize = find_char(rest, ']');
        if end >= rest.len() {
            return Err("unterminated IPv6 literal in target");
        }
        let tail = slice_subrange(rest, end + 1, rest.len());
        assert(tail@ =~= rest@.skip(end + 1));
        if tail.len() == 0 || tail[0] != ':' {
            return Err("CONNECT target must include a port");
        }
        let host = slice_to_vec(slice_subrange(rest, 0, end));
        let port = slice_to_vec(slice_subrange(tail, 1, tail.len()));
        assert(host@ =~= rest@.take(end as int));
        assert(port@ =~= tail@.skip(1));
        return Ok((host, port));
    }
    match rfind_char(s, ':') {
        None => Err("CONNECT target must include a port"),
        Some(i) => {
            let host = slice_to_vec(slice_subrange(s, 0, i));
            let port = slice_to_vec(slice_subrange(s, i + 1, s.len()));
            assert(host@ =~= s@.take(i as int));
            assert(port@ =~= s@.skip(i + 1));
            Ok((host, port))
        },
    }
}

fn authority(s: &[char]) -> (r: Result<TargetAddr, &'static str>)
    ensures
        match r {
            Ok(addr) => authority_of(s@) == Ok::<_, Seq<char>>(addr@),
            Err(why) => authority_of(s@) == Err::<AddrView, _>(why@),
        },
{
    match split_target(s) {
        Err(why) => Err(why),
        Ok((host, port)) => match parse_u16(port.as_slice()) {
            None => Err("invalid port in CONNECT target"),
            Some(n) => {
                if n == 0 {
                    return Err("port 0 is not connectable");
                }
                match parse_ipv4(host.as_slice()) {
                    Some(o) => {
                        return Ok(TargetAddr::V4(o, n));
                    },
                    None => {},
                }
                match parse_ipv6(host.as_slice()) {
                    Some(o) => {
                        return Ok(TargetAddr::V6(o, n));
                    },
                    None => {},
                }
                proof {
                    if s@.len() == 0 {
                        assert(rfind(s@, ':') == -1);
                    }
                }
                if s[0] == '[' {
                    return Err("invalid IPv6 literal in target");
                }
                let name = string_from_chars(host);
                match validate_domain(name.as_str()) {
                    Err(_) => Err("invalid host name in target"),
                    Ok(()) => Ok(TargetAddr::Domain(name, n)),
                }
            },
        },
    }
}

/// Reads the target of a request: `host:port`, or `[address]:port`.
pub fn parse_authority(s: &str) -> (r: Result<TargetAddr, Rejection>)
    ensures
        match authority_of(s@) {
            Ok(addr) => r matches Ok(t) && t@ == addr,
            Err(why) => r matches Err(e) && e@ == RejectionView::BadRequest(why),
        },
{
    match authority(chars_of(s).as_slice()) {
        Ok(addr) => Ok(addr),
        Err(why) => Err(Rejection::BadRequest(why)),
    }
}

/// The parts of a line between blanks.
pub open spec fn words(line: Seq<char>) -> Seq<Seq<char>> {
    split(line, ' ').filter(|p: Seq<char>| p.len() > 0)
}

/// What the request line asks for.
pub open spec fn request_of(line: Seq<char>) -> Result<AddrView, RejectionView> {
    let w = words(line);
    if w.len() == 0 {
        Err(RejectionView::BadRequest("empty request line"@))
    } else if w.len() == 1 {
        Err(RejectionView::BadRequest("missing request target"@))
    } else if w.len() == 2 {
        Err(RejectionView::BadRequest("missing HTTP version"@))
    } else if w[0] != "CONNECT"@ {
        Err(RejectionView::MethodNotAllowed(w[0]))
    } else if w[2] != "HTTP/1.1"@ && w[2] != "HTTP/1.0"@ {
        Err(RejectionView::BadRequest("unsupported HTTP version"@))
    } else {
        match authority_of(w[1]) {
            Ok(addr) => Ok(addr),
            Err(why) => Err(RejectionView::BadRequest(why)),
        }
    }
}

fn words_of(line: &[char]) -> (r: Vec<Vec<char>>)
    ensures
        texts(r@) == words(line@),
{
    let parts = split_chars(line, ' ');
    let ghost all = texts(parts@);
    let ghost keep = |p: Seq<char>| p.len() > 0;
    let mut out: Vec<Vec<char>> = Vec::new();
    assert(all.take(0).filter(keep) =~= Seq::<Seq<char>>::empty()) by {
        reveal(Seq::filter);
    }
    for p in it: parts
        invariant
            all == texts(it.seq()),
            keep == (|p: Seq<char>| p.len() > 0),
            texts(out@) == all.take(it.index() as int).filter(keep),
    {
        let ghost v = p@;
        let ghost before = texts(out@);
        proof {
            reveal(Seq::filter);
            assert(all[it.index() as int] == v);
            assert(all.take(it.index() + 1).drop_last() =~= all.take(it.index() as int));
            assert(all.take(it.index() + 1).last() == v);
        }
        if p.len() > 0 {
            out.push(p);
            assert(texts(out@) =~= before.push(v));
        }
    }
    assert(all.take(all.len() as int) =~= all);
    out
}

fn parse_request_line(line: &[char]) -> (r: Result<TargetAddr, Rejection>)
    ensures
        match request_of(line@) {
            Ok(addr) => r matches Ok(t) && t@ == addr,
            Err(e) => r matches Err(d) && d@ == e,
        },
{
    let w = words_of(line);
    let ghost all = words(line@);
    proof {
        assert(texts(w@).len() == w@.len());
        assert forall|i: int| 0 <= i < w@.len() implies (#[trigger] w@[i])@ == all[i] by {
            assert(texts(w@)[i] == w@[i]@);
        }
    }
    if w.len() == 0 {
        return Err(Rejection::BadRequest("empty request line"));
    }
    if w.len() == 1 {
        return Err(Rejection::BadRequest("missing request target"));
    }
    if w.len() == 2 {
        return Err(Rejection::BadRequest("missing HTTP version"));
    }
    if !is_text(w[0].as_slice(), "CONNECT") {
        return Err(Rejection::MethodNotAllowed(string_from_chars(slice_to_vec(w[0].as_slice()))));
    }
    if !is_text(w[2].as_slice(), "HTTP/1.1") && !is_text(w[2].as_slice(), "HTTP/1.0") {
        return Err(Rejection::BadRequest("unsupported HTTP version"));
    }
    match authority(w[1].as_slice()) {
        Ok(addr) => Ok(addr),
        Err(why) => Err(Rejection::BadRequest(why)),
    }
}

/// Whether the blank line that ends a head starts at `i`.
pub open spec fn is_terminator(buf: Seq<u8>, i: int) -> bool {
    0 <= i && i + 4 <= buf.len() && buf[i] == 13 && buf[i + 1] == 10 && buf[i + 2] == 13 && buf[i
        + 3] == 10
}

/// Where a head ends, looking for its blank line from `from` on.
pub open spec fn head_end(buf: Seq<u8>, from: int) -> Option<int>
    decreases buf.len() - from,
{
    if from + 4 > buf.len() {
        None
    } else if is_terminator(buf, from) {
        Some(from + 4)
    } else {
        head_end(buf, from + 1)
    }
}

/// What the bytes that have come so far make of a head.
#[derive(Debug, Clone, Copy, PartialEq, Eq, Structural)]
pub enum HeadScan {
    /// It goes on.
    NeedMore,
    /// It is larger than permitted.
    TooLarge,
    /// It ends there.
    Complete(usize),
}

/// What the bytes that have come so far make of a head.
pub open spec fn scanned_head(buf: Seq<u8>) -> HeadScan {
    match head_end(buf, 0) {
        Some(end) => if end > MAX_HEAD_BYTES {
            HeadScan::TooLarge
        } else {
            HeadScan::Complete(end as usize)
        },
        None => if buf.len() > MAX_HEAD_BYTES {
            HeadScan::TooLarge
        } else {
            HeadScan::NeedMore
        },
    }
}

/// Collects the bytes of a request head.
#[derive(Debug)]
pub struct HeadReader {
    buf: Vec<u8>,
    scanned: usize,
}

impl View for HeadReader {
    type V = Seq<u8>;

    closed spec fn view(&self) -> Seq<u8> {
        self.buf@
    }
}

proof fn lemma_head_end_skips(buf: Seq<u8>, from: int, to: int)
    requires
        0 <= from <= to,
        forall|i: int| from <= i < to ==> !#[trigger] is_terminator(buf, i),
    ensures
        head_end(buf, from) == head_end(buf, to),
    decreases to - from,
{
    if from < to {
        assert(!is_terminator(buf, from));
        if from + 4 <= buf.len() {
            lemma_head_end_skips(buf, from + 1, to);
        }
    }
}

/// Bytes that come later do not make a blank line where all of its bytes were
/// there.
proof fn lemma_no_new_terminator(a: Seq<u8>, b: Seq<u8>, n: int)
    requires
        n == 0 || n + 3 <= a.len(),
        forall|i: int| 0 <= i < n ==> !#[trigger] is_terminator(a, i),
    ensures
        forall|i: int| 0 <= i < n ==> !#[trigger] is_terminator(a + b, i),
{
    assert forall|i: int| 0 <= i < n implies !#[trigger] is_terminator(a + b, i) by {
        assert(!is_terminator(a, i));
    }
}

proof fn lemma_head_end_bounds(buf: Seq<u8>, from: int)
    requires
        0 <= from,
    ensures
        head_end(buf, from) matches Some(end) ==> from + 4 <= end <= buf.len(),
    decreases buf.len() - from,
{
    if from + 4 <= buf.len() && !is_terminator(buf, from) {
        lemma_head_end_bounds(buf, from + 1);
    }
}

impl HeadReader {
    /// No blank line starts in the part that was looked at.
    pub closed spec fn wf(&self) -> bool {
        &&& self.scanned == 0 || self.scanned + 3 <= self.buf@.len()
        &&& forall|i: int| 0 <= i < self.scanned ==> !#[trigger] is_terminator(self.buf@, i)
    }

    /// Nothing has come yet.
    pub fn new() -> (r: HeadReader)
        ensures
            r.wf(),
            r@ == Seq::<u8>::empty(),
    {
        HeadReader { buf: Vec::new(), scanned: 0 }
    }

    /// Takes more bytes. Those that were looked at before are not looked at
    /// again, but for the few in which a blank line may have started.
    pub fn feed(&mut self, chunk: &[u8]) -> (r: HeadScan)
        requires
            old(self).wf(),
        ensures
            final(self).wf(),
            final(self)@ == old(self)@ + chunk@,
            r == scanned_head(final(self)@),
    {
        let ghost before = self.buf@;
        self.buf.extend_from_slice(chunk);
        let ghost all = self.buf@;
        proof {
            assert(all =~= before + chunk@);
            lemma_no_new_terminator(before, chunk@, self.scanned as int);
        }
        let n: usize = self.buf.len();
        let mut i: usize = self.scanned;
        while i < n && n - i >= 4
            invariant
                self.buf@ == all,
                all == old(self)@ + chunk@,
                old(self).wf(),
                self.scanned == old(self).scanned,
                self.scanned <= i <= n == all.len(),
                i == 0 || i + 3 <= n,
                forall|k: int| 0 <= k < i ==> !#[trigger] is_terminator(all, k),
            decreases n - i,
        {
            if self.buf[i] == 13 && self.buf[i + 1] == 10 && self.buf[i + 2] == 13 && self.buf[i
                + 3] == 10 {
                proof {
                    assert(is_terminator(all, i as int));
                    lemma_head_end_skips(all, 0, i as int);
                    assert(head_end(all, i as int) == Some(i + 4));
                }
                return if i + 4 > MAX_HEAD_BYTES {
                    HeadScan::TooLarge
                } else {
                    HeadScan::Complete(i + 4)
                };
            }
            assert(!is_terminator(all, i as int));
            i = i + 1;
        }
        proof {
            lemma_head_end_skips(all, 0, i as int);
        }
        self.scanned = i;
        if n > MAX_HEAD_BYTES {
            HeadScan::TooLarge
        } else {
            HeadScan::NeedMore
        }
    }
}

/// Where a line break first stands, or the length.
pub open spec fn line_break(s: Seq<char>) -> int
    decreases s.len(),
{
    if s.len() < 2 {
        s.len() as int
    } else if s[0] == '\r' && s[1] == '\n' {
        0
    } else {
        1 + line_break(s.drop_first())
    }
}

/// The lines of a text.
pub open spec fn lines(s: Seq<char>) -> Seq<Seq<char>>
    decreases s.len(),
{
    let i = line_break(s);
    if i < 0 || i + 2 > s.len() {
        seq![s]
    } else {
        seq![s.take(i)] + lines(s.skip(i + 2))
    }
}

/// The credentials that the header lines from `i` on present, the last of them
/// where there are several. The blank line ends the lines.
pub open spec fn auth_from(all: Seq<Seq<char>>, i: int, seen: Option<Seq<char>>) -> Result<
    Option<Seq<char>>,
    Seq<char>,
>
    decreases all.len() - i,
{
    if i >= all.len() || all[i].len() == 0 {
        Ok(seen)
    } else {
        let colon = find(all[i], ':');
        if colon >= all[i].len() {
            Err("malformed header line"@)
        } else {
            auth_from(
                all,
                i + 1,
                if lower(trim(all[i].take(colon))) == "proxy-authorization"@ {
                    Some(trim(all[i].skip(colon + 1)))
                } else {
                    seen
                },
            )
        }
    }
}

/// What a request head says: the target, and the credentials presented.
pub open spec fn head_of(head: Seq<u8>) -> Result<(AddrView, Option<Seq<char>>), RejectionView> {
    if !valid_utf8(head) {
        Err(RejectionView::BadRequest("request headers are not valid UTF-8"@))
    } else {
        let all = lines(decode_utf8(head));
        match request_of(all[0]) {
            Err(e) => Err(e),
            Ok(target) => match auth_from(all, 1, None) {
                Err(why) => Err(RejectionView::BadRequest(why)),
                Ok(auth) => Ok((target, auth)),
            },
        }
    }
}

proof fn lemma_line_break(s: Seq<char>)
    ensures
        0 <= line_break(s) <= s.len(),
        line_break(s) < s.len() ==> line_break(s) + 2 <= s.len(),
    decreases s.len(),
{
    if s.len() >= 2 && !(s[0] == '\r' && s[1] == '\n') {
        lemma_line_break(s.drop_first());
    }
}

fn find_line_break(s: &[char]) -> (r: usize)
    ensures
        r == line_break(s@),
{
    let mut i: usize = 0;
    let n: usize = s.len();
    assert(s@.skip(0) =~= s@);
    while i < n && n - i >= 2
        invariant
            i <= n == s@.len(),
            line_break(s@) == i + line_break(s@.skip(i as int)),
        decreases n - i,
    {
        assert(s@.skip(i as int)[0] == s@[i as int]);
        assert(s@.skip(i as int)[1] == s@[i + 1]);
        if s[i] == '\r' && s[i + 1] == '\n' {
            return i;
        }
        assert(s@.skip(i as int).drop_first() =~= s@.skip(i + 1));
        i = i + 1;
    }
    n
}

fn split_lines(s: &[char]) -> (r: Vec<Vec<char>>)
    ensures
        texts(r@) == lines(s@),
{
    let mut out: Vec<Vec<char>> = Vec::new();
    let mut start: usize = 0;
    assert(s@.skip(0) =~= s@);
    assert(texts(out@) + lines(s@) =~= lines(s@));
    loop
        invariant_except_break
            start <= s@.len(),
            lines(s@) == texts(out@) + lines(s@.skip(start as int)),
        ensures
            lines(s@) == texts(out@),
        decreases s@.len() - start,
    {
        let rest = slice_subrange(s, start, s.len());
        assert(rest@ =~= s@.skip(start as int));
        let i: usize = find_line_break(rest);
        proof {
            lemma_line_break(rest@);
        }
        let ghost before = out@;
        let part = slice_to_vec(slice_subrange(rest, 0, i));
        assert(part@ =~= rest@.take(i as int));
        out.push(part);
        assert(texts(out@) =~= texts(before).push(part@));
        if i == rest.len() {
            assert(rest@.take(i as int) =~= rest@);
            assert(texts(out@) =~= texts(before) + seq![rest@]);
            break;
        }
        assert(rest@.skip(i + 2) =~= s@.skip(start + i + 2));
        assert(texts(before) + (seq![part@] + lines(rest@.skip(i + 2))) =~= texts(out@) + lines(
            rest@.skip(i + 2),
        ));
        start = start + i + 2;
    }
    out
}

/// A request that was read.
#[derive(Debug)]
pub struct Head {
    pub target: TargetAddr,
    /// The credentials as they were presented.
    pub proxy_auth: Option<String>,
    /// What came with the head and belongs to the tunnel.
    pub leftover: Vec<u8>,
}

fn presented_auth(all: &Vec<Vec<char>>) -> (r: Result<Option<String>, &'static str>)
    requires
        all@.len() >= 1,
    ensures
        match r {
            Ok(Some(a)) => auth_from(texts(all@), 1, None) == Ok::<_, Seq<char>>(Some(a@)),
            Ok(None) => auth_from(texts(all@), 1, None) == Ok::<_, Seq<char>>(None::<Seq<char>>),
            Err(why) => auth_from(texts(all@), 1, None) == Err::<Option<Seq<char>>, _>(why@),
        },
{
    let ghost t = texts(all@);
    let mut seen: Option<String> = None;
    let ghost mut shown: Option<Seq<char>> = None;
    let mut i: usize = 1;
    while i < all.len()
        invariant
            1 <= i <= all@.len(),
            t == texts(all@),
            match seen {
                Some(a) => shown == Some(a@),
                None => shown is None,
            },
            auth_from(t, 1, None) == auth_from(t, i as int, shown),
        decreases all@.len() - i,
    {
        let line = all[i].as_slice();
        assert(line@ == t[i as int]);
        if line.len() == 0 {
            return Ok(seen);
        }
        let colon: usize = find_char(line, ':');
        if colon >= line.len() {
            return Err("malformed header line");
        }
        let name = slice_subrange(line, 0, colon);
        let value = slice_subrange(line, colon + 1, line.len());
        assert(name@ =~= line@.take(colon as int));
        assert(value@ =~= line@.skip(colon + 1));
        let key = lowered(trimmed(name));
        if is_text(key.as_slice(), "proxy-authorization") {
            let v = string_from_chars(slice_to_vec(trimmed(value)));
            proof {
                shown = Some(v@);
            }
            seen = Some(v);
        }
        i = i + 1;
    }
    Ok(seen)
}

/// Reads a request head; `leftover` came behind it.
pub fn parse_head(head: &[u8], leftover: Vec<u8>) -> (r: Result<Head, Rejection>)
    ensures
        match head_of(head@) {
            Ok((target, auth)) => {
                &&& r matches Ok(h)
                &&& h.target@ == target
                &&& h.leftover@ == leftover@
                &&& match auth {
                    Some(a) => h.proxy_auth matches Some(b) && b@ == a,
                    None => h.proxy_auth is None,
                }
            },
            Err(e) => r matches Err(d) && d@ == e,
        },
{
    match string_from_utf8(slice_to_vec(head)) {
        None => Err(Rejection::BadRequest("request headers are not valid UTF-8")),
        Some(text) => {
            let all = split_lines(chars_of(text.as_str()).as_slice());
            let ghost t = lines(text@);
            proof {
                assert(t.len() >= 1);
                assert(texts(all@).len() == all@.len());
                assert(texts(all@)[0] == all@[0]@);
            }
            match parse_request_line(all[0].as_slice()) {
                Err(e) => Err(e),
                Ok(target) => match presented_auth(&all) {
                    Err(why) => Err(Rejection::BadRequest(why)),
                    Ok(proxy_auth) => Ok(Head { target, proxy_auth, leftover }),
                },
            }
        },
    }
}

/// The bytes that standard base64 gives for a text, where it is well-formed.
pub uninterp spec fn base64_decoded(text: Seq<char>) -> Option<Seq<u8>>;

/// `Engine::decode` of the `base64` crate's standard alphabet with padding: a
/// text has one decoding or none.
#[verifier::external_body]
fn decode_base64(text: &str) -> (r: Option<Vec<u8>>)
    ensures
        match r {
            Some(b) => base64_decoded(text@) == Some(b@),
            None => base64_decoded(text@) is None,
        },
{
    base64::engine::general_purpose::STANDARD.decode(text).ok()
}

/// Where a byte first stands, or the length.
pub open spec fn find_byte(s: Seq<u8>, b: u8) -> int
    decreases s.len(),
{
    if s.len() == 0 || s[0] == b {
        0
    } else {
        1 + find_byte(s.drop_first(), b)
    }
}

/// Whether decoded credentials are the given ones: the user name, a colon and
/// the password, which may hold further colons.
pub open spec fn credentials_match(decoded: Seq<u8>, user: Seq<char>, pass: Seq<char>) -> bool {
    let colon = find_byte(decoded, 0x3a);
    colon < decoded.len() && decoded.take(colon) == encode_utf8(user) && decoded.skip(colon + 1)
        == encode_utf8(pass)
}

/// Whether presented credentials are well-formed and the given ones.
pub open spec fn basic_auth_match(raw: Seq<char>, user: Seq<char>, pass: Seq<char>) -> bool {
    let blank = find(raw, ' ');
    &&& blank < raw.len()
    &&& lower(raw.take(blank)) == "basic"@
    &&& base64_decoded(trim(raw.skip(blank + 1))) matches Some(d) && credentials_match(
        d,
        user,
        pass,
    )
}

fn position_of(s: &[u8], b: u8) -> (r: usize)
    ensures
        r == find_byte(s@, b),
        r <= s@.len(),
{
    let mut i: usize = 0;
    assert(s@.skip(0) =~= s@);
    while i < s.len()
        invariant
            i <= s@.len(),
            find_byte(s@, b) == i + find_byte(s@.skip(i as int), b),
        decreases s@.len() - i,
    {
        assert(s@.skip(i as int)[0] == s@[i as int]);
        if s[i] == b {
            return i;
        }
        assert(s@.skip(i as int).drop_first() =~= s@.skip(i + 1));
        i = i + 1;
    }
    i
}

/// The HTTP CONNECT entry, with the credentials that it asks for.
#[derive(Debug)]
pub struct HttpConnectServer {
    credentials: Option<(String, String)>,
}

/// What a request head comes to.
#[derive(Debug)]
pub enum HttpStep {
    /// The head goes on.
    NeedMore,
    /// The request is refused.
    Reject(Rejection),
    /// The target is to be connected.
    Dial(Head),
}

/// The credentials that an entry asks for.
pub open spec fn credential_texts(c: Option<(String, String)>) -> Option<(Seq<char>, Seq<char>)> {
    match c {
        Some((user, pass)) => Some((user@, pass@)),
        None => None,
    }
}

/// Whether a request may be served: no credentials are asked for, or it has
/// presented them.
pub open spec fn authorized(
    credentials: Option<(Seq<char>, Seq<char>)>,
    header: Option<Seq<char>>,
) -> bool {
    match credentials {
        None => true,
        Some((user, pass)) => header matches Some(raw) && basic_auth_match(raw, user, pass),
    }
}

impl HttpConnectServer {
    /// The credentials that the entry asks for.
    pub closed spec fn required(&self) -> Option<(Seq<char>, Seq<char>)> {
        credential_texts(self.credentials)
    }

    /// An entry that asks for the given credentials, or for none.
    pub fn new(credentials: Option<(String, String)>) -> (r: HttpConnectServer)
        ensures
            r.required() == credential_texts(credentials),
    {
        HttpConnectServer { credentials }
    }

    /// Whether decoded credentials are those that the entry asks for. Both
    /// parts are compared in any case.
    pub fn check_basic(&self, decoded: &[u8]) -> (r: bool)
        ensures
            r == (match self.required() {
                None => true,
                Some((user, pass)) => credentials_match(decoded@, user, pass),
            }),
    {
        match &self.credentials {
            None => true,
            Some((user, pass)) => {
                let colon: usize = position_of(decoded, 0x3a);
                if colon >= decoded.len() {
                    return false;
                }
                let head = slice_subrange(decoded, 0, colon);
                let tail = slice_subrange(decoded, colon + 1, decoded.len());
                assert(head@ =~= decoded@.take(colon as int));
                assert(tail@ =~= decoded@.skip(colon + 1));
                let same_user: bool = ct_eq(head, user.as_str().as_bytes());
                let same_pass: bool = ct_eq(tail, pass.as_str().as_bytes());
                same_user && same_pass
            },
        }
    }

    /// Checks the presented credentials. Missing and wrong ones get the same
    /// answer.
    pub fn authorize(&self, header: Option<&str>) -> (r: Result<(), Rejection>)
        ensures
            ({
                let h = match header {
                    Some(raw) => Some(raw@),
                    None => None,
                };
                if authorized(self.required(), h) {
                    r is Ok
                } else {
                    r matches Err(e) && e@ == RejectionView::AuthRequired
                }
            }),
    {
        if self.credentials.is_none() {
            return Ok(());
        }
        match header {
            None => Err(Rejection::AuthRequired),
            Some(raw) => {
                let chars = chars_of(raw);
                let s = chars.as_slice();
                let blank: usize = find_char(s, ' ');
                if blank >= s.len() {
                    return Err(Rejection::AuthRequired);
                }
                let scheme = slice_subrange(s, 0, blank);
                let payload = slice_subrange(s, blank + 1, s.len());
                assert(scheme@ =~= s@.take(blank as int));
                assert(payload@ =~= s@.skip(blank + 1));
                if !is_text(lowered(scheme).as_slice(), "basic") {
                    return Err(Rejection::AuthRequired);
                }
                let token = string_from_chars(slice_to_vec(trimmed(payload)));
                match decode_base64(token.as_str()) {
                    None => Err(Rejection::AuthRequired),
                    Some(decoded) => {
                        if self.check_basic(decoded.as_slice()) {
                            Ok(())
                        } else {
                            Err(Rejection::AuthRequired)
                        }
                    },
                }
            },
        }
    }

    /// Takes more bytes of a request, and says what they come to. The target
    /// is connected only after the credentials were checked.
    pub fn receive(&self, reader: &mut HeadReader, chunk: &[u8]) -> (r: HttpStep)
        requires
            old(reader).wf(),
        ensures
            final(reader).wf(),
            final(reader)@ == old(reader)@ + chunk@,
            match scanned_head(final(reader)@) {
                HeadScan::NeedMore => r is NeedMore,
                HeadScan::TooLarge => r matches HttpStep::Reject(e) && e@
                    == RejectionView::HeadTooLarge,
                HeadScan::Complete(end) => match head_of(final(reader)@.take(end as int)) {
                    Err(e) => r matches HttpStep::Reject(d) && d@ == e,
                    Ok((target, auth)) => if authorized(self.required(), auth) {
                        &&& r matches HttpStep::Dial(h)
                        &&& h.target@ == target
                        &&& h.leftover@ == final(reader)@.skip(end as int)
                        &&& match auth {
                            Some(a) => h.proxy_auth matches Some(b) && b@ == a,
                            None => h.proxy_auth is None,
                        }
                    } else {
                        r matches HttpStep::Reject(d) && d@ == RejectionView::AuthRequired
                    },
                },
            },
    {
        match reader.feed(chunk) {
            HeadScan::NeedMore => HttpStep::NeedMore,
            HeadScan::TooLarge => HttpStep::Reject(Rejection::HeadTooLarge),
            HeadScan::Complete(end) => {
                let buf = reader.buf.as_slice();
                proof {
                    lemma_head_end_bounds(buf@, 0);
                }
                let head = slice_subrange(buf, 0, end);
                let rest = slice_to_vec(slice_subrange(buf, end, buf.len()));
                assert(head@ =~= buf@.take(end as int));
                assert(rest@ =~= buf@.skip(end as int));
                match parse_head(head, rest) {
                    Err(e) => HttpStep::Reject(e),
                    Ok(h) => {
                        let presented = match &h.proxy_auth {
                            Some(a) => Some(a.as_str()),
                            None => None,
                        };
                        match self.authorize(presented) {
                            Err(e) => HttpStep::Reject(e),
                            Ok(()) => HttpStep::Dial(h),
                        }
                    },
                }
            },
        }
    }
}

/// A target is read back from its text: every address, and every name without
/// fault that is not itself the text of an address. Port zero is left out,
/// which nobody can connect to.
pub proof fn law_authority_round_trip(addr: AddrView)
    requires
        addr.encodable(),
        addr.port() != 0,
        addr matches AddrView::Domain(d, _) ==> domain_fault(d) is None && ip_of(d) is None && d[0]
            != '[',
    ensures
        authority_of(addr.text()) == Ok::<AddrView, Seq<char>>(addr),
{
    let host = addr.host_text();
    lemma_port_text(addr.port());
    match addr {
        AddrView::V4(o, port) => {
            law_ipv4_round_trip(o);
            lemma_ipv4_chars(o);
            assert(ip_char(host[0]));
            lemma_plain_authority(host, port);
        },
        AddrView::V6(o, port) => {
            law_ipv6_round_trip(o);
            lemma_bracketed_authority(o, port);
        },
        AddrView::Domain(d, port) => lemma_plain_authority(d, port),
    }
}

/// A port in text holds no colon, and is read back.
proof fn lemma_port_text(port: u16)
    ensures
        parsed(decimal(port as nat), 0xffff) == Some(port as nat),
        forall|i: int| 0 <= i < decimal(port as nat).len() ==> decimal(port as nat)[i] != ':',
{
    let text = decimal(port as nat);
    law_decimal_round_trip(port as nat, 0xffff);
    lemma_decimal(port as nat);
    assert forall|i: int| 0 <= i < text.len() implies text[i] != ':' by {
        assert(digit_value(text[i], 10) is Some);
    }
}

/// An IPv6 address in brackets and its port are told apart at the bracket.
proof fn lemma_bracketed_authority(o: Seq<u8>, port: u16)
    requires
        o.len() == 16,
    ensures
        split_authority(AddrView::V6(o, port).text()) == Ok::<
            (Seq<char>, Seq<char>),
            Seq<char>,
        >((ipv6_text(o), decimal(port as nat))),
{
    let s = AddrView::V6(o, port).text();
    let host = ipv6_text(o);
    let digits = decimal(port as nat);
    let rest = s.skip(1);
    law_ipv6_round_trip(o);
    assert(rest =~= host + seq![']', ':'] + digits);
    assert forall|i: int| 0 <= i < host.len() implies rest[i] != ']' by {
        assert(ip_char(host[i]));
    }
    lemma_find_is(rest, ']', host.len() as int);
    assert(rest.take(host.len() as int) =~= host);
    assert(rest.skip(host.len() as int + 1) =~= seq![':'] + digits);
    assert((seq![':'] + digits).skip(1) =~= digits);
    assert(s[0] == '[');
}

/// A host without brackets and its port are told apart at the last colon.
proof fn lemma_plain_authority(host: Seq<char>, port: u16)
    requires
        host.len() > 0,
        host[0] != '[',
    ensures
        split_authority(host + seq![':'] + decimal(port as nat)) == Ok::<
            (Seq<char>, Seq<char>),
            Seq<char>,
        >((host, decimal(port as nat))),
{
    let digits = decimal(port as nat);
    let s = host + seq![':'] + digits;
    lemma_port_text(port);
    assert(s[0] == host[0]);
    lemma_rfind(s, ':');
    let at = rfind(s, ':');
    assert(s[host.len() as int] == ':');
    if at > host.len() {
        assert(s[at] == digits[at - host.len() - 1]);
    }
    assert(s.take(at) =~= host);
    assert(s.skip(at + 1) =~= digits);
}

/// Where the head is cut into pieces does not matter: what was fed in two
/// pieces is looked at as if it had come in one.
pub proof fn law_head_may_come_in_pieces(a: Seq<u8>, b: Seq<u8>)
    requires
        head_end(a, 0) is Some,
    ensures
        head_end(a + b, 0) == head_end(a, 0),
{
    lemma_head_end_extends(a, b, 0);
}

proof fn lemma_head_end_extends(a: Seq<u8>, b: Seq<u8>, from: int)
    requires
        0 <= from,
        head_end(a, from) is Some,
    ensures
        head_end(a + b, from) == head_end(a, from),
    decreases a.len() - from,
{
    assert(from + 4 <= a.len());
    assert(is_terminator(a + b, from) == is_terminator(a, from));
    if !is_terminator(a, from) {
        lemma_head_end_extends(a, b, from + 1);
    }
}

proof fn lemma_find_byte(s: Seq<u8>, b: u8)
    ensures
        0 <= find_byte(s, b) <= s.len(),
        find_byte(s, b) < s.len() ==> s[find_byte(s, b)] == b,
        forall|i: int| 0 <= i < find_byte(s, b) ==> s[i] != b,
    decreases s.len(),
{
    if s.len() > 0 && s[0] != b {
        let rest = s.drop_first();
        lemma_find_byte(rest, b);
        assert forall|i: int| 0 <= i < find_byte(s, b) implies s[i] != b by {
            if i > 0 {
                assert(s[i] == rest[i - 1]);
            }
        }
    }
}

/// Credentials are accepted exactly when they are the user name, a colon and
/// the password. Names with a colon in them are left out: they can never be
/// presented.
pub proof fn law_credentials_are_name_colon_password(
    decoded: Seq<u8>,
    user: Seq<char>,
    pass: Seq<char>,
)
    requires
        !encode_utf8(user).contains(0x3a),
    ensures
        credentials_match(decoded, user, pass) <==> decoded == encode_utf8(user) + seq![0x3au8]
            + encode_utf8(pass),
{
    let colon = find_byte(decoded, 0x3a);
    let name = encode_utf8(user);
    let whole = name + seq![0x3au8] + encode_utf8(pass);
    lemma_find_byte(decoded, 0x3a);
    if decoded == whole {
        assert(decoded[name.len() as int] == 0x3a);
        if colon < name.len() {
            assert(name[colon] == 0x3a);
        }
        assert(decoded.take(colon) =~= name);
        assert(decoded.skip(colon + 1) =~= encode_utf8(pass));
    }
    if credentials_match(decoded, user, pass) {
        assert(decoded =~= decoded.take(colon) + seq![decoded[colon]] + decoded.skip(colon + 1));
    }
}

/// Every failed connection is answered, and never reported as a misuse by the
/// client.
pub proof fn law_dial_failures_are_no_misuse(e: DialError)
    ensures
        RejectionView::of_dial(e).misuse() is None,
{
}

/// Whether a line is a header of that name and value.
pub open spec fn is_header(line: Seq<char>, name: Seq<char>, value: Seq<char>) -> bool {
    !name.contains(':') && line == name + seq![':'] + value
}

/// Whether a header's name is the one that credentials come under. Case and
/// white space around it do not matter.
pub open spec fn names_credentials(name: Seq<char>) -> bool {
    lower(trim(name)) == "proxy-authorization"@
}

/// Whether a line is a header that presents no credentials.
pub open spec fn other_header(line: Seq<char>) -> bool {
    exists|name: Seq<char>, value: Seq<char>| #[trigger]
        is_header(line, name, value) && !names_credentials(name)
}

/// Whether the lines from 1 up to `end` are headers, each with a colon, and a
/// blank line or nothing follows them.
pub open spec fn headers_up_to(all: Seq<Seq<char>>, end: int) -> bool {
    &&& 1 <= end <= all.len()
    &&& end < all.len() ==> all[end].len() == 0
    &&& forall|i: int| 1 <= i < end ==> (#[trigger] all[i]).contains(':')
}

proof fn lemma_header_colon(line: Seq<char>, name: Seq<char>, value: Seq<char>)
    requires
        is_header(line, name, value),
    ensures
        find(line, ':') == name.len(),
        line.take(name.len() as int) == name,
        line.skip(name.len() as int + 1) == value,
        line.len() > name.len(),
{
    assert forall|j: int| 0 <= j < name.len() implies line[j] != ':' by {
        assert(line[j] == name[j]);
    }
    lemma_find_is(line, ':', name.len() as int);
    assert(line.take(name.len() as int) =~= name);
    assert(line.skip(name.len() as int + 1) =~= value);
}

proof fn lemma_other_headers_change_nothing(
    all: Seq<Seq<char>>,
    i: int,
    end: int,
    seen: Option<Seq<char>>,
)
    requires
        headers_up_to(all, end),
        1 <= i <= end,
        forall|k: int| i <= k < end ==> other_header(#[trigger] all[k]),
    ensures
        auth_from(all, i, seen) == Ok::<Option<Seq<char>>, Seq<char>>(seen),
    decreases end - i,
{
    if i < end {
        assert(other_header(all[i]));
        let (name, value) = choose|name: Seq<char>, value: Seq<char>| #[trigger]
            is_header(all[i], name, value) && !names_credentials(name);
        lemma_header_colon(all[i], name, value);
        lemma_other_headers_change_nothing(all, i + 1, end, seen);
    }
}

proof fn lemma_headers_are_passed(all: Seq<Seq<char>>, i: int, k: int, end: int, seen: Option<Seq<char>>)
    requires
        headers_up_to(all, end),
        1 <= i <= k < end,
    ensures
        exists|before: Option<Seq<char>>| auth_from(all, i, seen) == #[trigger] auth_from(
            all,
            k,
            before,
        ),
    decreases k - i,
{
    if i < k {
        let line = all[i];
        assert(line.contains(':'));
        crate::text::lemma_find(line, ':');
        let colon = find(line, ':');
        let j = choose|j: int| 0 <= j < line.len() && line[j] == ':';
        assert(colon < line.len());
        let next = if lower(trim(line.take(colon))) == "proxy-authorization"@ {
            Some(trim(line.skip(colon + 1)))
        } else {
            seen
        };
        lemma_headers_are_passed(all, i + 1, k, end, next);
        let before = choose|before: Option<Seq<char>>| auth_from(all, i + 1, next)
            == #[trigger] auth_from(all, k, before);
        assert(auth_from(all, i, seen) == auth_from(all, k, before));
    }
}

/// Credentials are found wherever their line stands among the headers: what
/// comes before does not matter, and neither do headers of other names behind
/// it. Of several the last counts.
pub proof fn law_credentials_are_found_anywhere(
    all: Seq<Seq<char>>,
    k: int,
    end: int,
    name: Seq<char>,
    value: Seq<char>,
)
    requires
        headers_up_to(all, end),
        1 <= k < end,
        is_header(all[k], name, value),
        names_credentials(name),
        forall|i: int| k < i < end ==> other_header(#[trigger] all[i]),
    ensures
        auth_from(all, 1, None) == Ok::<Option<Seq<char>>, Seq<char>>(Some(trim(value))),
{
    lemma_headers_are_passed(all, 1, k, end, None);
    let before = choose|before: Option<Seq<char>>| auth_from(all, 1, None)
        == #[trigger] auth_from(all, k, before);
    lemma_header_colon(all[k], name, value);
    lemma_other_headers_change_nothing(all, k + 1, end, Some(trim(value)));
}

/// Without a line that presents them there are no credentials, and a header
/// without a colon spoils the request.
pub proof fn law_no_credentials_are_made_up(all: Seq<Seq<char>>, end: int)
    requires
        1 <= end <= all.len(),
        forall|i: int| 1 <= i < end ==> other_header(#[trigger] all[i]),
    ensures
        end == all.len() || all[end].len() == 0 ==> auth_from(all, 1, None) == Ok::<
            Option<Seq<char>>,
            Seq<char>,
        >(None),
        end < all.len() && all[end].len() > 0 && !all[end].contains(':') ==> auth_from(all, 1, None)
            is Err,
{
    lemma_passes_to(all, 1, end);
    if end < all.len() {
        crate::text::lemma_find(all[end], ':');
        if find(all[end], ':') < all[end].len() {
            assert(all[end].contains(all[end][find(all[end], ':')]));
        }
    }
}

proof fn lemma_passes_to(all: Seq<Seq<char>>, i: int, end: int)
    requires
        1 <= i <= end <= all.len(),
        forall|k: int| i <= k < end ==> other_header(#[trigger] all[k]),
    ensures
        auth_from(all, i, None) == auth_from(all, end, None),
    decreases end - i,
{
    if i < end {
        assert(other_header(all[i]));
        let (name, value) = choose|name: Seq<char>, value: Seq<char>| #[trigger]
            is_header(all[i], name, value) && !names_credentials(name);
        lemma_header_colon(all[i], name, value);
        lemma_passes_to(all, i + 1, end);
    }
}

/// The lines of a text, put together again with line breaks between them, are
/// the text, and a text in front of the first line break is the first line.
pub proof fn law_lines_end_at_line_breaks(a: Seq<char>, b: Seq<char>)
    requires
        no_line_break(a),
        a.len() == 0 || a.last() != '\r',
    ensures
        lines(a) == seq![a],
        lines(a + seq!['\r', '\n'] + b) == seq![a] + lines(b),
{
    let s = a + seq!['\r', '\n'] + b;
    lemma_line_break_is(s, a.len() as int);
    assert(s.take(a.len() as int) =~= a);
    assert(s.skip(a.len() as int + 2) =~= b);
    lemma_no_line_break(a);
}

/// Whether a text holds no line break.
pub open spec fn no_line_break(s: Seq<char>) -> bool {
    forall|i: int| 0 <= i < s.len() - 1 ==> !(#[trigger] s[i] == '\r' && s[i + 1] == '\n')
}

proof fn lemma_line_break_is(s: Seq<char>, at: int)
    requires
        0 <= at,
        at + 2 <= s.len(),
        s[at] == '\r',
        s[at + 1] == '\n',
        forall|i: int| 0 <= i < at ==> !(#[trigger] s[i] == '\r' && s[i + 1] == '\n'),
    ensures
        line_break(s) == at,
    decreases at,
{
    if at > 0 {
        assert(!(s[0] == '\r' && s[0int + 1] == '\n'));
        let t = s.drop_first();
        assert forall|i: int| 0 <= i < at - 1 implies !(#[trigger] t[i] == '\r' && t[i + 1] == '\n') by {
            assert(t[i] == s[i + 1]);
            assert(t[i + 1] == s[i + 1 + 1]);
        }
        lemma_line_break_is(t, at - 1);
    }
}

proof fn lemma_no_line_break(s: Seq<char>)
    requires
        no_line_break(s),
    ensures
        line_break(s) == s.len(),
    decreases s.len(),
{
    if s.len() >= 2 {
        assert(!(s[0] == '\r' && s[0int + 1] == '\n'));
        let t = s.drop_first();
        assert forall|i: int| 0 <= i < t.len() - 1 implies !(#[trigger] t[i] == '\r' && t[i + 1]
            == '\n') by {
            assert(t[i] == s[i + 1]);
            assert(t[i + 1] == s[i + 1 + 1]);
        }
        lemma_no_line_break(t);
    }
}

/// A head ends behind the first two line breaks that stand side by side. One
/// that ends within 16 KiB is complete; one that goes on is waited for up to
/// there, and no longer.
pub proof fn law_heads_end_at_the_first_blank_line(buf: Seq<u8>)
    ensures
        match scanned_head(buf) {
            HeadScan::Complete(end) => {
                &&& 4 <= end <= buf.len()
                &&& end <= 16384
                &&& buf.subrange(end - 4, end as int) =~= seq![13u8, 10u8, 13u8, 10u8]
                &&& forall|i: int|
                    0 <= i < end - 4 ==> !(#[trigger] buf[i] == 13 && buf[i + 1] == 10 && buf[i + 2]
                        == 13 && buf[i + 3] == 10)
            },
            HeadScan::NeedMore => {
                &&& buf.len() <= 16384
                &&& forall|i: int|
                    0 <= i < buf.len() - 3 ==> !(#[trigger] buf[i] == 13 && buf[i + 1] == 10
                        && buf[i + 2] == 13 && buf[i + 3] == 10)
            },
            HeadScan::TooLarge => {
                &&& buf.len() > 16384
                &&& forall|i: int|
                    0 <= i <= 16380 ==> !(#[trigger] buf[i] == 13 && buf[i + 1] == 10 && buf[i + 2]
                        == 13 && buf[i + 3] == 10)
            },
        },
{
    lemma_head_end_is_first(buf, 0);
}

proof fn lemma_head_end_is_first(buf: Seq<u8>, from: int)
    requires
        0 <= from,
    ensures
        match head_end(buf, from) {
            Some(end) => from + 4 <= end <= buf.len() && is_terminator(buf, end - 4) && forall|i: int|
                from <= i < end - 4 ==> !(#[trigger] buf[i] == 13 && buf[i + 1] == 10 && buf[i + 2]
                    == 13 && buf[i + 3] == 10),
            None => forall|i: int|
                from <= i < buf.len() - 3 ==> !(#[trigger] buf[i] == 13 && buf[i + 1] == 10 && buf[i
                    + 2] == 13 && buf[i + 3] == 10),
        },
    decreases buf.len() - from,
{
    if from + 4 <= buf.len() && !is_terminator(buf, from) {
        lemma_head_end_is_first(buf, from + 1);
    }
}

/// The words of a line are what stands between its blanks, however many of
/// those there are.
pub proof fn law_words_stand_between_blanks(word: Seq<char>, line: Seq<char>)
    requires
        !word.contains(' '),
    ensures
        words(seq![]).len() == 0,
        word.len() > 0 ==> words(word) == seq![word],
        word.len() > 0 ==> words(word + seq![' '] + line) == seq![word] + words(line),
        words(seq![' '] + line) == words(line),
{
    let keep = |p: Seq<char>| p.len() > 0;
    crate::text::lemma_split_whole(word, ' ');
    crate::text::lemma_split_first(word, line, ' ');
    crate::text::lemma_split_whole(seq![], ' ');
    crate::text::lemma_split_first(seq![], line, ' ');
    assert(Seq::<char>::empty() + seq![' '] + line =~= seq![' '] + line);
    lemma_filter_front(word, split(line, ' '));
    lemma_filter_front(seq![], split(line, ' '));
    lemma_filter_front(word, seq![]);
    lemma_filter_front(seq![], seq![]);
    assert(seq![word] + Seq::<Seq<char>>::empty() =~= seq![word]);
    assert(seq![Seq::<char>::empty()] + Seq::<Seq<char>>::empty() =~= seq![Seq::<char>::empty()]);
    assert(Seq::<Seq<char>>::empty().filter(keep) =~= Seq::<Seq<char>>::empty()) by {
        reveal(Seq::filter);
    }
}

proof fn lemma_filter_front(word: Seq<char>, rest: Seq<Seq<char>>)
    ensures
        (seq![word] + rest).filter(|p: Seq<char>| p.len() > 0) == if word.len() > 0 {
            seq![word] + rest.filter(|p: Seq<char>| p.len() > 0)
        } else {
            rest.filter(|p: Seq<char>| p.len() > 0)
        },
    decreases rest.len(),
{
    reveal(Seq::filter);
    let keep = |p: Seq<char>| p.len() > 0;
    let all = seq![word] + rest;
    if rest.len() == 0 {
        assert(all.drop_last() =~= Seq::<Seq<char>>::empty());
        assert(all.last() == word);
        assert(rest.filter(keep) =~= Seq::<Seq<char>>::empty());
        if word.len() > 0 {
            assert(all.filter(keep) =~= seq![word]);
        }
    } else {
        assert(all.drop_last() =~= seq![word] + rest.drop_last());
        assert(all.last() == rest.last());
        lemma_filter_front(word, rest.drop_last());
        if word.len() > 0 {
            assert(all.filter(keep) =~= seq![word] + rest.filter(keep));
        }
    }
}

/// Whether a request line is refused as malformed.
pub open spec fn is_bad_request(r: Result<AddrView, RejectionView>) -> bool {
    r matches Err(RejectionView::BadRequest(_))
}

/// A request line asks for a tunnel to its target, in one of the two versions.
/// Another method is refused by its name, another version as a bad request, and
/// so is a line with words missing.
pub proof fn law_request_lines_ask_for_tunnels(
    method: Seq<char>,
    target: Seq<char>,
    version: Seq<char>,
)
    requires
        method.len() > 0 && !method.contains(' '),
        target.len() > 0 && !target.contains(' '),
        version.len() > 0 && !version.contains(' '),
    ensures
        ({
            let line = method + seq![' '] + (target + seq![' '] + version);
            let known = version == "HTTP/1.1"@ || version == "HTTP/1.0"@;
            &&& method == "CONNECT"@ && known ==> match authority_of(target) {
                Ok(addr) => request_of(line) == Ok::<AddrView, RejectionView>(addr),
                Err(why) => request_of(line) == Err::<AddrView, RejectionView>(
                    RejectionView::BadRequest(why),
                ),
            }
            &&& method == "CONNECT"@ && !known ==> is_bad_request(request_of(line))
            &&& method != "CONNECT"@ ==> request_of(line) == Err::<AddrView, RejectionView>(
                RejectionView::MethodNotAllowed(method),
            )
        }),
        is_bad_request(request_of(seq![])),
        is_bad_request(request_of(method)),
        is_bad_request(request_of(method + seq![' '] + target)),
{
    law_words_stand_between_blanks(version, seq![]);
    law_words_stand_between_blanks(target, version);
    law_words_stand_between_blanks(method, target + seq![' '] + version);
    law_words_stand_between_blanks(method, target);
    law_words_stand_between_blanks(target, seq![]);
    law_words_stand_between_blanks(method, seq![]);
    let line = method + seq![' '] + (target + seq![' '] + version);
    assert(words(line) =~= seq![method, target, version]);
}

/// A target without brackets is the host in front of the last colon and the
/// port behind it: an address where the host is one, else the name as it is.
/// A port that is zero or no number, and a name that cannot be passed on, are
/// refused.
pub proof fn law_targets_are_host_and_port(host: Seq<char>, port: Seq<char>)
    requires
        host.len() > 0 ==> host[0] != '[',
        !port.contains(':'),
    ensures
        ({
            let r = authority_of(host + seq![':'] + port);
            match parsed(port, 0xffff) {
                None => r is Err,
                Some(n) => if n == 0 {
                    r is Err
                } else {
                    match ip_of(host) {
                        Some(crate::ip::IpView::V4(o)) => r == Ok::<AddrView, Seq<char>>(
                            AddrView::V4(o, n as u16),
                        ),
                        Some(crate::ip::IpView::V6(o)) => r == Ok::<AddrView, Seq<char>>(
                            AddrView::V6(o, n as u16),
                        ),
                        None => if domain_fault(host) is None {
                            r == Ok::<AddrView, Seq<char>>(AddrView::Domain(host, n as u16))
                        } else {
                            r is Err
                        },
                    }
                },
            }
        }),
        !port.contains('[') ==> authority_of(port) is Err,
{
    let s = host + seq![':'] + port;
    lemma_rfind(s, ':');
    lemma_rfind(port, ':');
    let at = rfind(s, ':');
    assert(s[host.len() as int] == ':');
    if at > host.len() {
        assert(s[at] == port[at - host.len() - 1]);
    }
    assert(s.take(at) =~= host);
    assert(s.skip(at + 1) =~= port);
    if host.len() > 0 {
        assert(s[0] == host[0]);
    } else {
        assert(s[0] == ':');
    }
    if rfind(port, ':') >= 0 {
        assert(port.contains(port[rfind(port, ':')]));
    }
    if port.len() > 0 && port[0] == '[' {
        assert(port.contains(port[0]));
    }
}

/// A target in brackets is the address between them and the port behind. What
/// is no address there, has no port behind it or is not closed is refused.
pub proof fn law_bracketed_targets(host: Seq<char>, tail: Seq<char>)
    requires
        !host.contains(']'),
    ensures
        ({
            let r = authority_of(seq!['['] + host + seq![']'] + tail);
            &&& tail.len() == 0 || tail[0] != ':' ==> r is Err
            &&& tail.len() > 0 && tail[0] == ':' ==> match parsed(tail.skip(1), 0xffff) {
                None => r is Err,
                Some(n) => match ip_of(host) {
                    _ if n == 0 => r is Err,
                    Some(crate::ip::IpView::V4(o)) => r == Ok::<AddrView, Seq<char>>(
                        AddrView::V4(o, n as u16),
                    ),
                    Some(crate::ip::IpView::V6(o)) => r == Ok::<AddrView, Seq<char>>(
                        AddrView::V6(o, n as u16),
                    ),
                    None => r is Err,
                },
            }
        }),
        authority_of(seq!['['] + host) is Err,
{
    let s = seq!['['] + host + seq![']'] + tail;
    let rest = s.skip(1);
    assert(rest =~= host + seq![']'] + tail);
    assert forall|j: int| 0 <= j < host.len() implies rest[j] != ']' by {
        assert(rest[j] == host[j]);
    }
    lemma_find_is(rest, ']', host.len() as int);
    assert(rest.take(host.len() as int) =~= host);
    assert(rest.skip(host.len() as int + 1) =~= tail);
    assert(s[0] == '[');
    let q = seq!['['] + host;
    assert(q.skip(1) =~= host);
    crate::text::lemma_find(host, ']');
    if find(host, ']') < host.len() {
        assert(host.contains(host[find(host, ']')]));
    }
}

/// An entry without credentials serves everybody. One with credentials serves
/// nobody who presents none, or something other than `Basic` credentials, and
/// exactly those whose token decodes to the name, a colon and the password.
pub proof fn law_basic_credentials_are_asked_for(
    user: Seq<char>,
    pass: Seq<char>,
    scheme: Seq<char>,
    token: Seq<char>,
    header: Option<Seq<char>>,
)
    requires
        !scheme.contains(' '),
        !encode_utf8(user).contains(0x3a),
    ensures
        authorized(None, header),
        !authorized(Some((user, pass)), None),
        !authorized(Some((user, pass)), Some(scheme)),
        authorized(Some((user, pass)), Some(scheme + seq![' '] + token)) <==> {
            &&& lower(scheme) == "basic"@
            &&& base64_decoded(trim(token)) == Some(
                encode_utf8(user) + seq![0x3au8] + encode_utf8(pass),
            )
        },
{
    let raw = scheme + seq![' '] + token;
    assert forall|j: int| 0 <= j < scheme.len() implies raw[j] != ' ' by {
        assert(raw[j] == scheme[j]);
    }
    lemma_find_is(raw, ' ', scheme.len() as int);
    assert(raw.take(scheme.len() as int) =~= scheme);
    assert(raw.skip(scheme.len() as int + 1) =~= token);
    crate::text::lemma_find(scheme, ' ');
    if find(scheme, ' ') < scheme.len() {
        assert(scheme.contains(scheme[find(scheme, ' ')]));
    }
    match base64_decoded(trim(token)) {
        Some(d) => law_credentials_are_name_colon_password(d, user, pass),
        None => {},
    }
}

/// A failed connection is told apart by its refusal: what a rule forbids, what
/// took too long, and everything else with its reason.
pub proof fn law_dial_failures_are_told_apart(e: DialError)
    ensures
        e is Forbidden <==> RejectionView::of_dial(e) is Forbidden,
        e is TimedOut <==> RejectionView::of_dial(e) is GatewayTimeout,
        !(e is Forbidden) && !(e is TimedOut) ==> RejectionView::of_dial(e)
            == RejectionView::BadGateway(e),
{
}

/// A head says what its request line and its headers say, and is refused as
/// soon as one of them is wrong or the bytes are no text.
pub proof fn law_heads_say_what_their_lines_say(head: Seq<u8>)
    ensures
        !valid_utf8(head) ==> head_of(head) is Err,
        valid_utf8(head) ==> {
            let all = lines(decode_utf8(head));
            &&& all.len() > 0
            &&& head_of(head) is Ok ==> request_of(all[0]) == Ok::<AddrView, RejectionView>(
                head_of(head)->Ok_0.0,
            ) && auth_from(all, 1, None) == Ok::<Option<Seq<char>>, Seq<char>>(
                head_of(head)->Ok_0.1,
            )
            &&& request_of(all[0]) is Ok && auth_from(all, 1, None) is Ok ==> head_of(head) is Ok
        },
{
}

/// The codes of the refusals.
pub proof fn law_refusals_have_their_codes(why: Seq<char>, e: DialError)
    ensures
        RejectionView::AuthRequired.status().take(4) =~= seq!['4', '0', '7', ' '],
        RejectionView::HeadTooLarge.status().take(4) =~= seq!['4', '3', '1', ' '],
        RejectionView::BadRequest(why).status().take(4) =~= seq!['4', '0', '0', ' '],
        RejectionView::MethodNotAllowed(why).status().take(4) =~= seq!['4', '0', '5', ' '],
        RejectionView::Forbidden.status().take(4) =~= seq!['4', '0', '3', ' '],
        RejectionView::GatewayTimeout.status().take(4) =~= seq!['5', '0', '4', ' '],
        RejectionView::BadGateway(e).status().take(4) =~= seq!['5', '0', '2', ' '],
{
    reveal_strlit("407 Proxy Authentication Required");
    reveal_strlit("431 Request Header Fields Too Large");
    reveal_strlit("400 Bad Request");
    reveal_strlit("405 Method Not Allowed");
    reveal_strlit("403 Forbidden");
    reveal_strlit("504 Gateway Timeout");
    reveal_strlit("502 Bad Gateway");
}

/// A response is its status line, its headers, among them the length of the
/// body in bytes, a blank line and the body. One that asks for credentials says
/// how, and one that refuses a method says which there is.
pub proof fn law_responses_are_whole(r: RejectionView)
    ensures
        exists|fields: Seq<char>|
            r.response() =~= "HTTP/1.1 "@ + r.status() + "\r\n"@ + #[trigger] (r.extra() + fields)
                + "Content-Length: "@ + decimal(encode_utf8(r.body()).len())
                + "\r\nConnection: close\r\n\r\n"@ + r.body(),
        r is AuthRequired ==> r.extra() == "Proxy-Authenticate: Basic realm=\"srp\"\r\n"@,
        r is MethodNotAllowed ==> r.extra() == "Allow: CONNECT\r\n"@,
{
    reveal_strlit("Content-Type: text/plain; charset=utf-8\r\nContent-Length: ");
    reveal_strlit("Content-Type: text/plain; charset=utf-8\r\n");
    reveal_strlit("Content-Length: ");
    let fields = "Content-Type: text/plain; charset=utf-8\r\n"@;
    assert("Content-Type: text/plain; charset=utf-8\r\nContent-Length: "@ =~= fields
        + "Content-Length: "@);
    assert(r.response() =~= "HTTP/1.1 "@ + r.status() + "\r\n"@ + (r.extra() + fields)
        + "Content-Length: "@ + decimal(encode_utf8(r.body()).len())
        + "\r\nConnection: close\r\n\r\n"@ + r.body());
}

/// Only requests that used the protocol wrongly are reported as such.
pub proof fn law_only_misuse_is_reported(r: RejectionView)
    ensures
        r.misuse() is Some <==> r is HeadTooLarge || r is BadRequest || r is MethodNotAllowed,
{
}

/// A user name with a colon in it can never be presented.
pub proof fn law_names_with_colons_never_match(decoded: Seq<u8>, user: Seq<char>, pass: Seq<char>)
    requires
        encode_utf8(user).contains(0x3a),
    ensures
        !credentials_match(decoded, user, pass),
{
    let colon = find_byte(decoded, 0x3a);
    let name = encode_utf8(user);
    lemma_find_byte(decoded, 0x3a);
    if decoded.take(colon) == name {
        let i = choose|i: int| 0 <= i < name.len() && name[i] == 0x3a;
        assert(decoded.take(colon)[i] == decoded[i]);
    }
}

/// A header of another name, added at any place among the headers, changes
/// nothing.
pub proof fn law_other_headers_may_stand_anywhere(
    all: Seq<Seq<char>>,
    line: Seq<char>,
    at: int,
    end: int,
)
    requires
        headers_up_to(all, end),
        1 <= at <= end,
        other_header(line),
    ensures
        auth_from(all.insert(at, line), 1, None) == auth_from(all, 1, None),
{
    lemma_added_header(all, line, at, end, 1, None);
}

proof fn lemma_added_header(
    all: Seq<Seq<char>>,
    line: Seq<char>,
    at: int,
    end: int,
    i: int,
    seen: Option<Seq<char>>,
)
    requires
        headers_up_to(all, end),
        1 <= i <= at <= end,
        other_header(line),
    ensures
        auth_from(all.insert(at, line), i, seen) == auth_from(all, i, seen),
    decreases at - i,
{
    let more = all.insert(at, line);
    if i < at {
        assert(more[i] == all[i]);
        let colon = find(all[i], ':');
        let next = if lower(trim(all[i].take(colon))) == "proxy-authorization"@ {
            Some(trim(all[i].skip(colon + 1)))
        } else {
            seen
        };
        if all[i].len() > 0 && colon < all[i].len() {
            lemma_added_header(all, line, at, end, i + 1, next);
        }
    } else {
        assert(more[at] == line);
        let (name, value) = choose|name: Seq<char>, value: Seq<char>| #[trigger]
            is_header(line, name, value) && !names_credentials(name);
        lemma_header_colon(line, name, value);
        lemma_shifted(all, line, at, at, seen);
    }
}

proof fn lemma_shifted(all: Seq<Seq<char>>, line: Seq<char>, at: int, i: int, seen: Option<Seq<char>>)
    requires
        0 <= at <= i <= all.len(),
    ensures
        auth_from(all.insert(at, line), i + 1, seen) == auth_from(all, i, seen),
    decreases all.len() - i,
{
    let more = all.insert(at, line);
    if i < all.len() {
        assert(more[i + 1] == all[i]);
        let colon = find(all[i], ':');
        let next = if lower(trim(all[i].take(colon))) == "proxy-authorization"@ {
            Some(trim(all[i].skip(colon + 1)))
        } else {
            seen
        };
        if all[i].len() > 0 && colon < all[i].len() {
            lemma_shifted(all, line, at, i + 1, next);
        }
    }
}

} // verus!
