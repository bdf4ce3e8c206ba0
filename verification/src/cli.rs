//! What the command line asks for: the target, the configuration that follows
//! from the options, and the targets that an SSH client configuration offers.

use vstd::prelude::*;
use vstd::slice::{slice_subrange, slice_to_vec};

use crate::text::{
    chars_of, decimal, digit_value, find, find_char, is_space, law_decimal_round_trip,
    lemma_decimal, lemma_find_is, lemma_rfind, lower, lowered, parse_number,
    parse_u16, parsed, push_text, rfind, rfind_char, same_chars, space, split, split_chars,
    string_from_chars, texts, trim, trimmed,
};
use crate::tunnel::config::{
    strings, AuthMethod, Config, ConfigError, HelperConfig, HostKeyPolicy, ListenConfig,
    ReconnectConfig, Span, SshConfig, TunnelMode,
};

verus! {

/// Why a text names no target.
#[derive(Debug, Clone, Copy, PartialEq, Eq, Structural)]
pub enum TargetError {
    /// It has no `@`.
    NoAt,
    /// Nothing stands in front of the `@`.
    NoUser,
    /// A bracket is not closed.
    UnterminatedLiteral,
    /// Something other than a port follows the bracket.
    TrailingText,
    /// The port is no number of 16 bits.
    BadPort,
    /// The host is empty.
    NoHost,
}

impl TargetError {
    /// The error for people to read.
    pub open spec fn text(self) -> Seq<char> {
        match self {
            TargetError::NoAt => "SSH target must look like user@host[:port]"@,
            TargetError::NoUser => "SSH target is missing the user part"@,
            TargetError::UnterminatedLiteral => "unterminated IPv6 literal in SSH target"@,
            TargetError::TrailingText => "unexpected text after IPv6 literal in SSH target"@,
            TargetError::BadPort => "invalid port in SSH target"@,
            TargetError::NoHost => "SSH target is missing the host part"@,
        }
    }

    /// The error for people to read.
    pub fn message(&self) -> (r: &'static str)
        ensures
            r@ == self.text(),
    {
        match self {
            TargetError::NoAt => "SSH target must look like user@host[:port]",
            TargetError::NoUser => "SSH target is missing the user part",
            TargetError::UnterminatedLiteral => "unterminated IPv6 literal in SSH target",
            TargetError::TrailingText => "unexpected text after IPv6 literal in SSH target",
            TargetError::BadPort => "invalid port in SSH target",
            TargetError::NoHost => "SSH target is missing the host part",
        }
    }
}

/// The host and the port in `host`, `host:port`, `[host]` or `[host]:port`.
pub open spec fn host_and_port(s: Seq<char>) -> Result<(Seq<char>, u16), TargetError> {
    if s.len() > 0 && s[0] == '[' {
        let t = s.skip(1);
        let i = find(t, ']');
        let tail = t.skip(i + 1);
        if i >= t.len() {
            Err(TargetError::UnterminatedLiteral)
        } else if tail.len() == 0 {
            Ok((t.take(i), 22u16))
        } else if tail[0] == ':' {
            match parsed(tail.skip(1), 0xffff) {
                Some(n) => Ok((t.take(i), n as u16)),
                None => Err(TargetError::BadPort),
            }
        } else {
            Err(TargetError::TrailingText)
        }
    } else {
        let i = rfind(s, ':');
        if i < 0 {
            Ok((s, 22u16))
        } else {
            match parsed(s.skip(i + 1), 0xffff) {
                Some(n) => Ok((s.take(i), n as u16)),
                None => Err(TargetError::BadPort),
            }
        }
    }
}

/// The user, the host and the port that a target names.
pub open spec fn target_of(s: Seq<char>) -> Result<(Seq<char>, Seq<char>, u16), TargetError> {
    let at = find(s, '@');
    if at >= s.len() {
        Err(TargetError::NoAt)
    } else if at == 0 {
        Err(TargetError::NoUser)
    } else {
        match host_and_port(s.skip(at + 1)) {
            Ok((host, port)) => if host.len() == 0 {
                Err(TargetError::NoHost)
            } else {
                Ok((s.take(at), host, port))
            },
            Err(e) => Err(e),
        }
    }
}

fn split_host_port(s: &[char]) -> (r: Result<(Vec<char>, u16), TargetError>)
    ensures
        match r {
            Ok((host, port)) => host_and_port(s@) == Ok::<_, TargetError>((host@, port)),
            Err(e) => host_and_port(s@) == Err::<(Seq<char>, u16), _>(e),
        },
{
    if s.len() > 0 && s[0] == '[' {
        let t = slice_subrange(s, 1, s.len());
        assert(t@ =~= s@.skip(1));
        let i: usize = find_char(t, ']');
        if i >= t.len() {
            return Err(TargetError::UnterminatedLiteral);
        }
        let host = slice_subrange(t, 0, i);
        let tail = slice_subrange(t, i + 1, t.len());
        assert(host@ =~= t@.take(i as int));
        assert(tail@ =~= t@.skip(i + 1));
        if tail.len() == 0 {
            return Ok((slice_to_vec(host), 22));
        }
        if tail[0] != ':' {
            return Err(TargetError::TrailingText);
        }
        let port = slice_subrange(tail, 1, tail.len());
        assert(port@ =~= tail@.skip(1));
        match parse_u16(port) {
            Some(n) => Ok((slice_to_vec(host), n)),
            None => Err(TargetError::BadPort),
        }
    } else {
        match rfind_char(s, ':') {
            Some(i) => {
                let host = slice_subrange(s, 0, i);
                let port = slice_subrange(s, i + 1, s.len());
                assert(host@ =~= s@.take(i as int));
                assert(port@ =~= s@.skip(i + 1));
                match parse_u16(port) {
                    Some(n) => Ok((slice_to_vec(host), n)),
                    None => Err(TargetError::BadPort),
                }
            },
            None => Ok((slice_to_vec(s), 22)),
        }
    }
}

/// Reads `user@host[:port]`. An IPv6 address stands in brackets.
pub fn parse_target(s: &str) -> (r: Result<(String, String, u16), TargetError>)
    ensures
        match r {
            Ok((user, host, port)) => target_of(s@) == Ok::<_, TargetError>((user@, host@, port)),
            Err(e) => target_of(s@) == Err::<(Seq<char>, Seq<char>, u16), _>(e),
        },
{
    let chars = chars_of(s);
    let all = chars.as_slice();
    let at: usize = find_char(all, '@');
    if at >= all.len() {
        return Err(TargetError::NoAt);
    }
    if at == 0 {
        return Err(TargetError::NoUser);
    }
    let user = slice_subrange(all, 0, at);
    let rest = slice_subrange(all, at + 1, all.len());
    assert(user@ =~= s@.take(at as int));
    assert(rest@ =~= s@.skip(at + 1));
    match split_host_port(rest) {
        Ok((host, port)) => {
            if host.len() == 0 {
                return Err(TargetError::NoHost);
            }
            Ok((string_from_chars(slice_to_vec(user)), string_from_chars(host), port))
        },
        Err(e) => Err(e),
    }
}

proof fn lemma_user(user: Seq<char>, rest: Seq<char>)
    requires
        user.len() > 0,
        !user.contains('@'),
    ensures
        target_of(user + seq!['@'] + rest) == match host_and_port(rest) {
            Ok((host, port)) => if host.len() == 0 {
                Err(TargetError::NoHost)
            } else {
                Ok((user, host, port))
            },
            Err(e) => Err(e),
        },
{
    let s = user + seq!['@'] + rest;
    let at = user.len() as int;
    assert forall|j: int| 0 <= j < at implies s[j] != '@' by {
        assert(s[j] == user[j]);
    }
    lemma_find_is(s, '@', at);
    assert(s.take(at) =~= user);
    assert(s.skip(at + 1) =~= rest);
}

proof fn lemma_no_colon(n: nat)
    ensures
        forall|i: int| 0 <= i < decimal(n).len() ==> decimal(n)[i] != ':',
{
    lemma_decimal(n);
    assert forall|i: int| 0 <= i < decimal(n).len() implies decimal(n)[i] != ':' by {
        assert(digit_value(decimal(n)[i], 10) is Some);
    }
}

/// A target that is put together from a user, a host and a port is read back
/// as these.
pub proof fn law_target_round_trip(user: Seq<char>, host: Seq<char>, port: u16)
    requires
        user.len() > 0,
        !user.contains('@'),
        host.len() > 0,
        host[0] != '[',
    ensures
        target_of(user + seq!['@'] + (host + seq![':'] + decimal(port as nat))) == Ok::<
            _,
            TargetError,
        >((user, host, port)),
{
    let digits = decimal(port as nat);
    let rest = host + seq![':'] + digits;
    let i = host.len() as int;
    lemma_user(user, rest);
    lemma_no_colon(port as nat);
    lemma_rfind(rest, ':');
    assert(rest[i] == ':');
    assert forall|j: int| i < j < rest.len() implies rest[j] != ':' by {
        assert(rest[j] == digits[j - i - 1]);
    }
    assert(rfind(rest, ':') == i);
    assert(rest.take(i) =~= host);
    assert(rest.skip(i + 1) =~= digits);
    assert(rest[0] == host[0]);
    law_decimal_round_trip(port as nat, 0xffff);
}

/// So is one with an address in brackets, colons in it or not.
pub proof fn law_bracketed_target_round_trip(user: Seq<char>, host: Seq<char>, port: u16)
    requires
        user.len() > 0,
        !user.contains('@'),
        host.len() > 0,
        !host.contains(']'),
    ensures
        target_of(
            user + seq!['@'] + (seq!['['] + host + seq![']', ':'] + decimal(port as nat)),
        ) == Ok::<_, TargetError>((user, host, port)),
{
    let digits = decimal(port as nat);
    let rest = seq!['['] + host + seq![']', ':'] + digits;
    let t = rest.skip(1);
    let i = host.len() as int;
    lemma_user(user, rest);
    assert(t =~= host + seq![']', ':'] + digits);
    assert forall|j: int| 0 <= j < i implies t[j] != ']' by {
        assert(t[j] == host[j]);
    }
    lemma_find_is(t, ']', i);
    assert(t.take(i) =~= host);
    let tail = t.skip(i + 1);
    assert(tail =~= seq![':'] + digits);
    assert(tail.skip(1) =~= digits);
    law_decimal_round_trip(port as nat, 0xffff);
}

/// What an SSH client configuration says of one host.
#[verifier::ext_equal]
pub struct BlockView {
    pub host: Option<Seq<char>>,
    pub name: Option<Seq<char>>,
    pub user: Option<Seq<char>>,
    pub port: Option<Seq<char>>,
    /// An empty line or a comment stands in it.
    pub parted: bool,
}

impl BlockView {
    pub open spec fn empty() -> BlockView {
        BlockView { host: None, name: None, user: None, port: None, parted: false }
    }

    /// A setting after another value was given for it: the later one counts,
    /// but behind an empty line or a comment it only fills in what is missing.
    pub open spec fn set(self, old: Option<Seq<char>>, value: Seq<char>) -> Option<Seq<char>> {
        if self.parted && old is Some {
            old
        } else {
            Some(value)
        }
    }

    /// The target that the block offers: one with a host name of its own, and
    /// not for every host.
    pub open spec fn offer(self) -> Seq<Seq<char>> {
        match (self.host, self.name) {
            (Some(host), Some(name)) => if host != "*"@ && name.len() > 0 {
                let user = match self.user {
                    Some(u) => u,
                    None => "root"@,
                };
                let port = match self.port {
                    Some(p) => p,
                    None => "22"@,
                };
                if port == "22"@ {
                    seq![user + "@"@ + name]
                } else {
                    seq![user + "@"@ + name + ":"@ + port]
                }
            } else {
                seq![]
            },
            _ => seq![],
        }
    }
}

/// Where white space first stands, or the length.
pub open spec fn first_space(s: Seq<char>) -> int
    decreases s.len(),
{
    if s.len() == 0 || is_space(s[0]) {
        0
    } else {
        1 + first_space(s.drop_first())
    }
}

/// The first word of a line, in lower case.
pub open spec fn keyword(t: Seq<char>) -> Seq<char> {
    lower(t.take(first_space(t)))
}

/// What follows the first word of a line.
pub open spec fn argument(t: Seq<char>) -> Seq<char> {
    let i = first_space(t);
    if i >= t.len() {
        seq![]
    } else {
        trim(t.skip(i + 1))
    }
}

/// The offers of the blocks that have ended, and the block that has not.
pub open spec fn read_line(
    offers: Seq<Seq<char>>,
    block: BlockView,
    line: Seq<char>,
) -> (Seq<Seq<char>>, BlockView) {
    let t = trim(line);
    if t.len() == 0 || t[0] == '#' {
        (offers, BlockView { parted: true, ..block })
    } else if keyword(t) == "host"@ {
        (offers + block.offer(), BlockView { host: Some(argument(t)), ..BlockView::empty() })
    } else if keyword(t) == "match"@ && block.parted {
        (offers + block.offer(), BlockView::empty())
    } else if keyword(t) == "hostname"@ {
        (offers, BlockView { name: block.set(block.name, argument(t)), ..block })
    } else if keyword(t) == "user"@ {
        (offers, BlockView { user: block.set(block.user, argument(t)), ..block })
    } else if keyword(t) == "port"@ {
        (offers, BlockView { port: block.set(block.port, argument(t)), ..block })
    } else {
        (offers, block)
    }
}

/// The same for several lines.
pub open spec fn read_lines(lines: Seq<Seq<char>>) -> (Seq<Seq<char>>, BlockView)
    decreases lines.len(),
{
    if lines.len() == 0 {
        (seq![], BlockView::empty())
    } else {
        let before = read_lines(lines.drop_last());
        read_line(before.0, before.1, lines.last())
    }
}

/// The targets that an SSH client configuration offers, in order. A block ends
/// at the next one, and at a `Match` that an empty line or a comment parts from
/// the block's beginning.
pub open spec fn offered(content: Seq<char>) -> Seq<Seq<char>> {
    let end = read_lines(split(content, '\n'));
    end.0 + end.1.offer()
}

#[derive(Debug)]
struct Block {
    host: Option<Vec<char>>,
    name: Option<Vec<char>>,
    user: Option<Vec<char>>,
    port: Option<Vec<char>>,
    parted: bool,
}

spec fn opt_chars(o: Option<Vec<char>>) -> Option<Seq<char>> {
    match o {
        Some(v) => Some(v@),
        None => None,
    }
}

impl View for Block {
    type V = BlockView;

    closed spec fn view(&self) -> BlockView {
        BlockView {
            host: opt_chars(self.host),
            name: opt_chars(self.name),
            user: opt_chars(self.user),
            port: opt_chars(self.port),
            parted: self.parted,
        }
    }
}

fn is_text(s: &[char], t: &str) -> (r: bool)
    ensures
        r == (s@ == t@),
{
    let chars = chars_of(t);
    same_chars(s, chars.as_slice())
}

impl Block {
    fn empty() -> (r: Block)
        ensures
            r@ == BlockView::empty(),
    {
        Block { host: None, name: None, user: None, port: None, parted: false }
    }

    fn push_offer(&self, out: &mut Vec<String>)
        ensures
            strings(final(out)@) == strings(old(out)@) + self@.offer(),
    {
        match (&self.host, &self.name) {
            (Some(host), Some(name)) => {
                if !is_text(host.as_slice(), "*") && name.len() > 0 {
                    let mut t: Vec<char> = Vec::new();
                    match &self.user {
                        Some(u) => {
                            let mut v = slice_to_vec(u.as_slice());
                            t.append(&mut v);
                        },
                        None => push_text(&mut t, "root"),
                    }
                    push_text(&mut t, "@");
                    let mut n = slice_to_vec(name.as_slice());
                    t.append(&mut n);
                    match &self.port {
                        Some(p) => {
                            if !is_text(p.as_slice(), "22") {
                                push_text(&mut t, ":");
                                let mut v = slice_to_vec(p.as_slice());
                                t.append(&mut v);
                            }
                        },
                        None => {},
                    }
                    assert(t@ =~= self@.offer()[0]);
                    out.push(string_from_chars(t));
                }
            },
            _ => {},
        }
        assert(strings(out@) =~= strings(old(out)@) + self@.offer());
    }
}

fn find_space(s: &[char]) -> (r: usize)
    ensures
        r == first_space(s@),
        r <= s@.len(),
{
    let mut i: usize = 0;
    assert(s@.skip(0) =~= s@);
    while i < s.len()
        invariant
            i <= s@.len(),
            first_space(s@) == i + first_space(s@.skip(i as int)),
        decreases s@.len() - i,
    {
        if space(s[i]) {
            return i;
        }
        assert(s@.skip(i as int).drop_first() =~= s@.skip(i + 1));
        i = i + 1;
    }
    i
}

/// The targets that an SSH client configuration offers.
pub fn discover_ssh_hosts(content: &str) -> (r: Vec<String>)
    ensures
        strings(r@) == offered(content@),
{
    let chars = chars_of(content);
    let lines = split_chars(chars.as_slice(), '\n');
    let ghost all = texts(lines@);
    let mut out: Vec<String> = Vec::new();
    let mut block = Block::empty();
    let mut i: usize = 0;
    assert(all.take(0) =~= Seq::<Seq<char>>::empty());
    assert(strings(out@) =~= Seq::<Seq<char>>::empty());
    while i < lines.len()
        invariant
            i <= lines@.len(),
            all == texts(lines@),
            (strings(out@), block@) == read_lines(all.take(i as int)),
        decreases lines@.len() - i,
    {
        let line = lines[i].as_slice();
        assert(all.take(i + 1).drop_last() =~= all.take(i as int));
        assert(all.take(i + 1).last() == line@);
        let t = trimmed(line);
        if t.len() == 0 || t[0] == '#' {
            block.parted = true;
        } else {
            let n: usize = find_space(t);
            let word = slice_subrange(t, 0, n);
            assert(word@ =~= t@.take(n as int));
            let key = lowered(word);
            let value = if n < t.len() {
                let rest = slice_subrange(t, n + 1, t.len());
                assert(rest@ =~= t@.skip(n + 1));
                slice_to_vec(trimmed(rest))
            } else {
                Vec::new()
            };
            assert(value@ =~= argument(t@));
            if is_text(key.as_slice(), "host") {
                block.push_offer(&mut out);
                block = Block {
                    host: Some(value),
                    name: None,
                    user: None,
                    port: None,
                    parted: false,
                };
            } else if is_text(key.as_slice(), "match") && block.parted {
                block.push_offer(&mut out);
                block = Block::empty();
            } else if is_text(key.as_slice(), "hostname") {
                if !block.parted || block.name.is_none() {
                    block.name = Some(value);
                }
            } else if is_text(key.as_slice(), "user") {
                if !block.parted || block.user.is_none() {
                    block.user = Some(value);
                }
            } else if is_text(key.as_slice(), "port") {
                if !block.parted || block.port.is_none() {
                    block.port = Some(value);
                }
            }
        }
        i = i + 1;
    }
    assert(all.take(i as int) =~= all);
    block.push_offer(&mut out);
    out
}

/// What the answer to the list of offers comes to.
#[derive(Debug, Clone, PartialEq, Eq)]
pub enum SetupChoice {
    /// The target is still to be asked for.
    Ask,
    /// This is the target.
    Target(String),
    /// No offer has this number.
    BadNumber,
}

/// Whether a choice is what the answer comes to: the number of an offer, zero
/// or nothing to be asked, and anything else the target itself.
pub open spec fn is_choice(input: Seq<char>, offers: Seq<Seq<char>>, r: SetupChoice) -> bool {
    let t = trim(input);
    if t == "0"@ || t.len() == 0 {
        r is Ask
    } else {
        match parsed(t, usize::MAX as nat) {
            Some(n) => if 1 <= n <= offers.len() {
                r is Target && r->Target_0@ == offers[n - 1]
            } else {
                r is BadNumber
            },
            None => r is Target && r->Target_0@ == t,
        }
    }
}

/// What the answer to the list of offers comes to.
pub fn setup_choice(input: &str, offers: &[String]) -> (r: SetupChoice)
    ensures
        is_choice(input@, strings(offers@), r),
{
    let chars = chars_of(input);
    let t = trimmed(chars.as_slice());
    if is_text(t, "0") || t.len() == 0 {
        return SetupChoice::Ask;
    }
    match parse_number(t, usize::MAX as u64) {
        Some(n) => {
            if 1 <= n && n <= offers.len() as u64 {
                let i: usize = n as usize - 1;
                SetupChoice::Target(offers[i].clone())
            } else {
                SetupChoice::BadNumber
            }
        },
        None => SetupChoice::Target(string_from_chars(slice_to_vec(t))),
    }
}

/// A line that was typed in, without white space around it.
pub fn typed(line: &str) -> (r: String)
    ensures
        r@ == trim(line@),
{
    let chars = chars_of(line);
    string_from_chars(slice_to_vec(trimmed(chars.as_slice())))
}

/// Why a target cannot be set up.
#[derive(Debug, Clone, Copy, PartialEq, Eq, Structural)]
pub enum SetupError {
    /// There is none.
    Empty,
    /// It names no target.
    Malformed(TargetError),
}

/// The defaults file for a target, with a note on where it comes from where
/// the target was among some offers.
pub open spec fn defaults_file(target: Seq<char>, offered: bool) -> Seq<char> {
    (if offered {
        "# /etc/default/srp — 由 srp setup 自动生成\n"@
    } else {
        "# /etc/default/srp\n"@
    }) + "SRP_ARGS="@ + target + "\n"@
}

/// Checks a target and puts it into a defaults file.
pub fn setup_content(target: &str, offered: bool) -> (r: Result<String, SetupError>)
    ensures
        match r {
            Ok(text) => target@.len() > 0 && target_of(target@) is Ok && text@ == defaults_file(
                target@,
                offered,
            ),
            Err(SetupError::Empty) => target@.len() == 0,
            Err(SetupError::Malformed(e)) => target@.len() > 0 && target_of(target@) == Err::<
                (Seq<char>, Seq<char>, u16),
                _,
            >(e),
        },
{
    if target.is_empty() {
        return Err(SetupError::Empty);
    }
    if let Err(e) = parse_target(target) {
        return Err(SetupError::Malformed(e));
    }
    let mut out: Vec<char> = Vec::new();
    if offered {
        push_text(&mut out, "# /etc/default/srp — 由 srp setup 自动生成\n");
    } else {
        push_text(&mut out, "# /etc/default/srp\n");
    }
    push_text(&mut out, "SRP_ARGS=");
    push_text(&mut out, target);
    push_text(&mut out, "\n");
    assert(out@ =~= defaults_file(target@, offered));
    Ok(string_from_chars(out))
}

/// The steps that set a target up by hand.
pub fn manual_steps(target: &str) -> (r: String)
    ensures
        r@ == "  echo 'SRP_ARGS="@ + target@
            + "' | sudo tee /etc/default/srp\n  sudo systemctl daemon-reload\n  sudo systemctl restart srp\n"@,
{
    let mut out: Vec<char> = Vec::new();
    push_text(&mut out, "  echo 'SRP_ARGS=");
    push_text(&mut out, target);
    push_text(
        &mut out,
        "' | sudo tee /etc/default/srp\n  sudo systemctl daemon-reload\n  sudo systemctl restart srp\n",
    );
    assert(out@ =~= "  echo 'SRP_ARGS="@ + target@
        + "' | sudo tee /etc/default/srp\n  sudo systemctl daemon-reload\n  sudo systemctl restart srp\n"@);
    string_from_chars(out)
}

/// How the setup goes on.
#[derive(Debug, Clone, Copy, PartialEq, Eq, Structural)]
pub enum SetupMode {
    /// Print the steps to take by hand and end.
    ByHand,
    /// Ask for a target.
    Ask,
    /// Show the offers and ask for one.
    Choose,
}

/// How the setup goes on with a terminal or without one, and with so many
/// offers.
pub open spec fn mode_of(terminal: bool, offers: int) -> SetupMode {
    if !terminal {
        SetupMode::ByHand
    } else if offers == 0 {
        SetupMode::Ask
    } else {
        SetupMode::Choose
    }
}

/// How the setup goes on: nobody can be asked without a terminal.
pub fn setup_mode(terminal: bool, offers: usize) -> (r: SetupMode)
    ensures
        r == mode_of(terminal, offers as int),
{
    if !terminal {
        SetupMode::ByHand
    } else if offers == 0 {
        SetupMode::Ask
    } else {
        SetupMode::Choose
    }
}

/// What a path holds behind the home directory, where it starts there.
pub open spec fn below_home(raw: Seq<char>) -> Option<Seq<char>> {
    if raw == seq!['~'] {
        Some(seq![])
    } else if raw.len() >= 2 && raw[0] == '~' && raw[1] == '/' {
        Some(raw.skip(2))
    } else {
        None
    }
}

/// What a path that starts in the home directory holds behind it.
pub fn tilde_suffix(raw: &str) -> (r: Option<String>)
    ensures
        match r {
            Some(s) => below_home(raw@) == Some(s@),
            None => below_home(raw@) is None,
        },
{
    let chars = chars_of(raw);
    if chars.len() == 1 && chars[0] == '~' {
        assert(raw@ =~= seq!['~']);
        return Some(String::new());
    }
    if chars.len() >= 2 && chars[0] == '~' && chars[1] == '/' {
        let rest = slice_subrange(chars.as_slice(), 2, chars.len());
        assert(rest@ =~= raw@.skip(2));
        return Some(string_from_chars(slice_to_vec(rest)));
    }
    None
}

/// The names of the private keys that are looked for where none is named, in
/// order.
pub open spec fn identity_names() -> Seq<Seq<char>> {
    seq!["id_ed25519"@, "id_ecdsa"@, "id_rsa"@, "id_dsa"@]
}

/// Which of the private keys is taken, given which there are.
pub open spec fn found_identity(present: Seq<bool>) -> Option<Seq<char>> {
    if present[0] {
        Some(identity_names()[0])
    } else if present[1] {
        Some(identity_names()[1])
    } else if present[2] {
        Some(identity_names()[2])
    } else if present[3] {
        Some(identity_names()[3])
    } else {
        None
    }
}

/// The private keys that are looked for where none is named, in order. Given is
/// which of them there are.
pub fn default_identity(present: [bool; 4]) -> (r: Option<&'static str>)
    ensures
        match r {
            Some(name) => found_identity(present@) == Some(name@),
            None => found_identity(present@) is None,
        },
{
    if present[0] {
        Some("id_ed25519")
    } else if present[1] {
        Some("id_ecdsa")
    } else if present[2] {
        Some("id_rsa")
    } else if present[3] {
        Some("id_dsa")
    } else {
        None
    }
}

/// What the user is authenticated with.
pub open spec fn chosen_auth(
    agent: bool,
    password: Option<String>,
    identity: Option<std::path::PathBuf>,
    found: Option<std::path::PathBuf>,
    passphrase: Option<String>,
) -> AuthMethod {
    if agent {
        AuthMethod::Agent
    } else {
        match (password, identity, found) {
            (Some(password), _, _) => AuthMethod::Password { password },
            (None, Some(path), _) => AuthMethod::PublicKey { path, passphrase },
            (None, None, Some(path)) => AuthMethod::PublicKey { path, passphrase },
            (None, None, None) => AuthMethod::Agent,
        }
    }
}

/// How the user is authenticated: with the agent where that is asked for, else
/// with the password, else with the named key, else with one that was found,
/// else with the agent.
pub fn choose_auth(
    agent: bool,
    password: Option<String>,
    identity: Option<std::path::PathBuf>,
    found: Option<std::path::PathBuf>,
    passphrase: Option<String>,
) -> (r: AuthMethod)
    ensures
        r == chosen_auth(agent, password, identity, found, passphrase),
{
    if agent {
        return AuthMethod::Agent;
    }
    if let Some(password) = password {
        return AuthMethod::Password { password };
    }
    if let Some(path) = identity {
        return AuthMethod::PublicKey { path, passphrase };
    }
    if let Some(path) = found {
        return AuthMethod::PublicKey { path, passphrase };
    }
    AuthMethod::Agent
}

/// Whether a policy is the one that its name stands for. Any name but those of
/// the two others is a fingerprint to pin.
pub open spec fn is_policy(name: Seq<char>, r: HostKeyPolicy) -> bool {
    if name == "strict"@ {
        r is Strict
    } else if name == "accept-new"@ || name == "accept_new"@ {
        r is AcceptNew
    } else {
        r is Pinned && r->Pinned_0@ == name
    }
}

/// The policy that a name stands for.
pub fn parse_host_key(name: String) -> (r: HostKeyPolicy)
    ensures
        is_policy(name@, r),
{
    let chars = chars_of(name.as_str());
    if is_text(chars.as_slice(), "strict") {
        HostKeyPolicy::Strict
    } else if is_text(chars.as_slice(), "accept-new") || is_text(chars.as_slice(), "accept_new") {
        HostKeyPolicy::AcceptNew
    } else {
        HostKeyPolicy::Pinned(name)
    }
}

/// The options that describe the proxy, apart from those for authentication.
#[derive(Debug)]
pub struct ConnectArgs {
    pub target: Option<String>,
    pub socks5: String,
    pub http: Option<String>,
    pub no_socks5: bool,
    pub proxy_user: Option<String>,
    pub proxy_password: Option<String>,
    pub host_key: String,
    pub known_hosts: Option<std::path::PathBuf>,
    pub helper: bool,
    pub helper_path: String,
    pub allow: Vec<String>,
    /// In seconds.
    pub keepalive: u64,
    /// In seconds.
    pub dial_wait: u64,
}

/// Why no configuration follows from the options.
#[derive(Debug, Clone, PartialEq, Eq)]
pub enum BuildError {
    /// No target is given.
    NoTarget,
    Target(TargetError),
    Config(ConfigError),
}

/// What the user is told who gives no target.
pub fn no_target_hint() -> (r: &'static str)
    ensures
        r@
            == "未指定 SSH 目标。\n\n快速开始：\nsrp root@10.0.0.1\nsrp alice@gateway --helper\n\n交互式配置（自动检测 ~/.ssh/config）：\nsrp setup\n\n完整示例：srp example > srp.toml && srp --config srp.toml"@,
{
    "未指定 SSH 目标。\n\n快速开始：\nsrp root@10.0.0.1\nsrp alice@gateway --helper\n\n交互式配置（自动检测 ~/.ssh/config）：\nsrp setup\n\n完整示例：srp example > srp.toml && srp --config srp.toml"
}

/// So many seconds, and one at least.
pub open spec fn seconds(n: u64) -> Span {
    Span {
        secs: if n == 0 {
            1
        } else {
            n
        },
        nanos: 0,
    }
}

fn seconds_of(n: u64) -> (r: Span)
    ensures
        r == seconds(n),
{
    Span::from_secs(
        if n == 0 {
            1
        } else {
            n
        },
    )
}

/// Whether a configuration is the one that the options ask for.
pub open spec fn asked_for(a: ConnectArgs, auth: AuthMethod, c: Config) -> bool {
    &&& a.target is Some
    &&& target_of(a.target->0@) == Ok::<_, TargetError>((c.ssh.user@, c.ssh.host@, c.ssh.port))
    &&& c.ssh.auth == auth
    &&& is_policy(a.host_key@, c.ssh.host_key)
    &&& c.ssh.known_hosts == a.known_hosts
    &&& c.ssh.keepalive_interval == seconds(a.keepalive)
    &&& c.ssh.keepalive_max == 3
    &&& c.ssh.connect_timeout == (Span { secs: 20, nanos: 0 })
    &&& c.mode == (if a.helper {
        TunnelMode::Helper
    } else {
        TunnelMode::DirectTcpip
    })
    &&& c.listen.socks5 == (if a.no_socks5 {
        None
    } else {
        Some(a.socks5)
    })
    &&& c.listen.http == a.http
    &&& c.listen.username == a.proxy_user
    &&& c.listen.password == a.proxy_password
    &&& c.reconnect == (ReconnectConfig {
        enabled: true,
        initial_delay: Span { secs: 0, nanos: 250_000_000 },
        max_delay: Span { secs: 30, nanos: 0 },
        multiplier_below_one: false,
        jitter_out_of_range: false,
        dial_wait: seconds(a.dial_wait),
    })
    &&& c.helper.command is None
    &&& c.helper.remote_path == a.helper_path
    &&& c.helper.stream_window == crate::DEFAULT_STREAM_WINDOW
    &&& c.helper.allow == a.allow
}

/// The configuration that the options ask for, where it is a valid one.
pub fn build_config(a: ConnectArgs, auth: AuthMethod) -> (r: Result<Config, BuildError>)
    ensures
        match r {
            Ok(c) => asked_for(a, auth, c) && c.fault() is None,
            Err(BuildError::NoTarget) => a.target is None,
            Err(BuildError::Target(e)) => a.target matches Some(t) && target_of(t@) == Err::<
                (Seq<char>, Seq<char>, u16),
                _,
            >(e),
            Err(BuildError::Config(ConfigError::Invalid(what))) => exists|c: Config| #[trigger]
                asked_for(a, auth, c) && c.fault() == Some(what@),
        },
{
    let target = match &a.target {
        Some(t) => t.as_str(),
        None => return Err(BuildError::NoTarget),
    };
    let (user, host, port) = match parse_target(target) {
        Ok(parts) => parts,
        Err(e) => return Err(BuildError::Target(e)),
    };
    let ghost args = a;
    let cfg = Config {
        ssh: SshConfig {
            host,
            port,
            user,
            auth,
            host_key: parse_host_key(a.host_key),
            known_hosts: a.known_hosts,
            keepalive_interval: seconds_of(a.keepalive),
            keepalive_max: 3,
            connect_timeout: Span::from_secs(20),
        },
        mode: if a.helper {
            TunnelMode::Helper
        } else {
            TunnelMode::DirectTcpip
        },
        listen: ListenConfig {
            socks5: if a.no_socks5 {
                None
            } else {
                Some(a.socks5)
            },
            http: a.http,
            username: a.proxy_user,
            password: a.proxy_password,
        },
        reconnect: ReconnectConfig {
            dial_wait: seconds_of(a.dial_wait),
            ..ReconnectConfig::default()
        },
        helper: HelperConfig {
            remote_path: a.helper_path,
            allow: a.allow,
            command: None,
            stream_window: crate::DEFAULT_STREAM_WINDOW,
        },
    };
    assert(asked_for(args, auth, cfg));
    match cfg.validate() {
        Ok(()) => Ok(cfg),
        Err(e) => Err(BuildError::Config(e)),
    }
}

/// A target is the user in front of the first `@` and, behind it, the host and
/// perhaps a port. What has no `@`, no user or no host is refused.
pub proof fn law_targets_are_user_and_host(user: Seq<char>, rest: Seq<char>)
    requires
        !user.contains('@'),
    ensures
        target_of(user) == Err::<(Seq<char>, Seq<char>, u16), TargetError>(TargetError::NoAt),
        ({
            let r = target_of(user + seq!['@'] + rest);
            if user.len() == 0 {
                r == Err::<(Seq<char>, Seq<char>, u16), TargetError>(TargetError::NoUser)
            } else {
                match host_and_port(rest) {
                    Err(e) => r == Err::<(Seq<char>, Seq<char>, u16), TargetError>(e),
                    Ok((host, port)) => if host.len() == 0 {
                        r == Err::<(Seq<char>, Seq<char>, u16), TargetError>(TargetError::NoHost)
                    } else {
                        r == Ok::<(Seq<char>, Seq<char>, u16), TargetError>((user, host, port))
                    },
                }
            }
        }),
{
    let s = user + seq!['@'] + rest;
    crate::text::lemma_find(user, '@');
    if find(user, '@') < user.len() {
        assert(user.contains(user[find(user, '@')]));
    }
    assert forall|j: int| 0 <= j < user.len() implies s[j] != '@' by {
        assert(s[j] == user[j]);
    }
    lemma_find_is(s, '@', user.len() as int);
    assert(s.take(user.len() as int) =~= user);
    assert(s.skip(user.len() as int + 1) =~= rest);
}

/// The host and the port: the port behind the last colon, or 22 where there is
/// none; in brackets everything up to the closing one is the host. A port that
/// is no number, a bracket that is not closed and anything but a port behind it
/// are refused.
pub proof fn law_hosts_and_ports(host: Seq<char>, port: Seq<char>)
    requires
        !port.contains(':'),
        host.len() > 0 ==> host[0] != '[',
    ensures
        !host.contains(':') ==> host_and_port(host) == Ok::<(Seq<char>, u16), TargetError>(
            (host, 22u16),
        ),
        host_and_port(host + seq![':'] + port) == match parsed(port, 0xffff) {
            Some(n) => Ok::<(Seq<char>, u16), TargetError>((host, n as u16)),
            None => Err(TargetError::BadPort),
        },
        !host.contains(']') ==> {
            &&& host_and_port(seq!['['] + host) == Err::<(Seq<char>, u16), TargetError>(
                TargetError::UnterminatedLiteral,
            )
            &&& host_and_port(seq!['['] + host + seq![']']) == Ok::<(Seq<char>, u16), TargetError>(
                (host, 22u16),
            )
            &&& host_and_port(seq!['['] + host + seq![']', ':'] + port) == match parsed(
                port,
                0xffff,
            ) {
                Some(n) => Ok::<(Seq<char>, u16), TargetError>((host, n as u16)),
                None => Err(TargetError::BadPort),
            }
            &&& port.len() > 0 ==> host_and_port(seq!['['] + host + seq![']'] + port) == Err::<
                (Seq<char>, u16),
                TargetError,
            >(TargetError::TrailingText)
        },
{
    lemma_rfind(host, ':');
    if rfind(host, ':') >= 0 {
        assert(host.contains(host[rfind(host, ':')]));
    }
    lemma_host_before_port(host, port);
    if !host.contains(']') {
        lemma_open_bracket(host);
        lemma_bracketed_port(host, port);
        lemma_bracketed(host, port);
        if port.len() > 0 {
            assert(port.contains(port[0]));
        }
    }
}

proof fn lemma_host_before_port(host: Seq<char>, port: Seq<char>)
    requires
        !port.contains(':'),
        host.len() > 0 ==> host[0] != '[',
    ensures
        host_and_port(host + seq![':'] + port) == match parsed(port, 0xffff) {
            Some(n) => Ok::<(Seq<char>, u16), TargetError>((host, n as u16)),
            None => Err(TargetError::BadPort),
        },
{
    let s = host + seq![':'] + port;
    lemma_rfind(s, ':');
    assert(s[host.len() as int] == ':');
    let i = rfind(s, ':');
    if i > host.len() {
        assert(s[i] == port[i - host.len() - 1]);
    }
    assert(s.take(i) =~= host);
    assert(s.skip(i + 1) =~= port);
    if host.len() > 0 {
        assert(s[0] == host[0]);
    } else {
        assert(s[0] == ':');
    }
}

proof fn lemma_open_bracket(host: Seq<char>)
    requires
        !host.contains(']'),
    ensures
        host_and_port(seq!['['] + host) == Err::<(Seq<char>, u16), TargetError>(
            TargetError::UnterminatedLiteral,
        ),
{
    let q = seq!['['] + host;
    assert(q.skip(1) =~= host);
    crate::text::lemma_find(host, ']');
    if find(host, ']') < host.len() {
        assert(host.contains(host[find(host, ']')]));
    }
}

proof fn lemma_bracketed_port(host: Seq<char>, port: Seq<char>)
    requires
        !host.contains(']'),
    ensures
        host_and_port(seq!['['] + host + seq![']']) == Ok::<(Seq<char>, u16), TargetError>(
            (host, 22u16),
        ),
        host_and_port(seq!['['] + host + seq![']', ':'] + port) == match parsed(port, 0xffff) {
            Some(n) => Ok::<(Seq<char>, u16), TargetError>((host, n as u16)),
            None => Err(TargetError::BadPort),
        },
{
    lemma_bracketed(host, seq![]);
    assert(seq!['['] + host + seq![']'] + Seq::<char>::empty() =~= seq!['['] + host + seq![']']);
    lemma_bracketed(host, seq![':'] + port);
    assert(seq!['['] + host + seq![']'] + (seq![':'] + port) =~= seq!['['] + host + seq![']', ':']
        + port);
    assert((seq![':'] + port).skip(1) =~= port);
}

proof fn lemma_bracketed(host: Seq<char>, tail: Seq<char>)
    requires
        !host.contains(']'),
    ensures
        ({
            let s = seq!['['] + host + seq![']'] + tail;
            let t = s.skip(1);
            &&& s[0] == '['
            &&& find(t, ']') == host.len() < t.len()
            &&& t.take(host.len() as int) == host
            &&& t.skip(host.len() as int + 1) == tail
        }),
{
    let s = seq!['['] + host + seq![']'] + tail;
    let t = s.skip(1);
    assert(t =~= host + seq![']'] + tail);
    assert forall|j: int| 0 <= j < host.len() implies t[j] != ']' by {
        assert(t[j] == host[j]);
    }
    lemma_find_is(t, ']', host.len() as int);
    assert(t.take(host.len() as int) =~= host);
    assert(t.skip(host.len() as int + 1) =~= tail);
}

proof fn lemma_first_space(word: Seq<char>, rest: Seq<char>)
    requires
        forall|i: int| 0 <= i < word.len() ==> !is_space(#[trigger] word[i]),
    ensures
        first_space(word + seq![' '] + rest) == word.len(),
        first_space(word) == word.len(),
    decreases word.len(),
{
    let s = word + seq![' '] + rest;
    if word.len() > 0 {
        let tail = word.drop_first();
        assert(!is_space(word[0]));
        assert(s.drop_first() =~= tail + seq![' '] + rest);
        assert forall|i: int| 0 <= i < tail.len() implies !is_space(#[trigger] tail[i]) by {
            assert(tail[i] == word[i + 1]);
        }
        lemma_first_space(tail, rest);
    } else {
        assert(s[0] == ' ');
    }
}

/// Whether a text can stand on a line of a configuration as it is: it neither
/// begins nor ends with white space.
pub open spec fn snug(s: Seq<char>) -> bool {
    s.len() > 0 ==> !is_space(s[0]) && !is_space(s.last())
}

/// A line of a configuration, with white space around it, is a keyword, whose
/// case does not matter, and what stands behind it.
pub proof fn law_lines_are_keyword_and_value(
    before: Seq<char>,
    key: Seq<char>,
    value: Seq<char>,
    behind: Seq<char>,
)
    requires
        forall|i: int| 0 <= i < before.len() ==> is_space(#[trigger] before[i]),
        forall|i: int| 0 <= i < behind.len() ==> is_space(#[trigger] behind[i]),
        key.len() > 0,
        forall|i: int| 0 <= i < key.len() ==> !is_space(#[trigger] key[i]),
        value.len() > 0,
        snug(value),
    ensures
        ({
            let t = trim(before + (key + seq![' '] + value) + behind);
            &&& t.len() > 0
            &&& t[0] == key[0]
            &&& keyword(t) == lower(key)
            &&& argument(t) == value
        }),
{
    let s = key + seq![' '] + value;
    assert(s[0] == key[0]);
    assert(s.last() == value.last());
    assert(!is_space(key[0]));
    crate::text::law_trimming_leaves_the_text(before, s, behind);
    lemma_first_space(key, value);
    assert(s.take(key.len() as int) =~= key);
    assert(s.skip(key.len() as int + 1) =~= value);
    crate::text::law_trimming_leaves_the_text(seq![], value, seq![]);
    assert(Seq::<char>::empty() + value + Seq::<char>::empty() =~= value);
}

/// What a line does to the entry that it stands in: `Host` ends it and begins
/// another, and its settings are taken. An empty line or a comment leaves what
/// was said as it is, and behind one a setting only fills in what is missing.
pub proof fn law_what_lines_of_a_configuration_do(
    offers: Seq<Seq<char>>,
    block: BlockView,
    line: Seq<char>,
)
    ensures
        ({
            let t = trim(line);
            let (o, b) = read_line(offers, block, line);
            let word = keyword(t);
            let value = argument(t);
            let setting = t.len() > 0 && t[0] != '#';
            &&& !setting ==> o == offers && b == (BlockView { parted: true, ..block })
            &&& setting && word == "host"@ ==> {
                &&& o == offers + block.offer()
                &&& b.host == Some(value)
                &&& b.name is None && b.user is None && b.port is None && !b.parted
            }
            &&& setting && word == "match"@ && word != "host"@ && block.parted ==> {
                &&& o == offers + block.offer()
                &&& b.host is None && b.name is None && b.user is None && b.port is None
            }
            &&& setting && word == "match"@ && word != "host"@ && word != "hostname"@ && word
                != "user"@ && word != "port"@ && !block.parted ==> o == offers && b == block
            &&& setting && word != "host"@ && word != "match"@ && word != "hostname"@ && word
                != "user"@ && word != "port"@ ==> o == offers && b == block
            &&& setting && word == "hostname"@ && word != "host"@ && word != "match"@ ==> {
                &&& o == offers
                &&& b == (BlockView { name: b.name, ..block })
                &&& !block.parted || block.name is None ==> b.name == Some(value)
                &&& block.parted && block.name is Some ==> b.name == block.name
            }
            &&& setting && word == "user"@ && word != "host"@ && word != "match"@ && word
                != "hostname"@ ==> {
                &&& o == offers
                &&& b == (BlockView { user: b.user, ..block })
                &&& !block.parted || block.user is None ==> b.user == Some(value)
                &&& block.parted && block.user is Some ==> b.user == block.user
            }
            &&& setting && word == "port"@ && word != "host"@ && word != "match"@ && word
                != "hostname"@ && word != "user"@ ==> {
                &&& o == offers
                &&& b == (BlockView { port: b.port, ..block })
                &&& !block.parted || block.port is None ==> b.port == Some(value)
                &&& block.parted && block.port is Some ==> b.port == block.port
            }
        }),
{
}

/// The keywords are five different words.
pub proof fn law_keywords_differ()
    ensures
        "host"@ != "hostname"@,
        "host"@ != "user"@ && "host"@ != "port"@ && "host"@ != "match"@,
        "hostname"@ != "user"@ && "hostname"@ != "port"@ && "hostname"@ != "match"@,
        "user"@ != "port"@ && "user"@ != "match"@ && "port"@ != "match"@,
{
    reveal_strlit("host");
    reveal_strlit("hostname");
    reveal_strlit("user");
    reveal_strlit("port");
    reveal_strlit("match");
    assert("host"@[0] == 'h' && "host"@.len() == 4);
    assert("hostname"@.len() == 8);
    assert("user"@[0] == 'u' && "user"@.len() == 4);
    assert("port"@[0] == 'p' && "port"@.len() == 4);
    assert("match"@.len() == 5);
}

/// An entry is offered exactly when it is not for every host and has a host
/// name: as the user, or root, at that name, and with its port where that is
/// not the usual one.
pub proof fn law_what_an_entry_offers(b: BlockView)
    ensures
        ({
            let user = match b.user {
                Some(u) => u,
                None => "root"@,
            };
            let offers = b.host is Some && b.host->0 != "*"@ && b.name is Some && b.name->0.len()
                > 0;
            &&& !offers ==> b.offer().len() == 0
            &&& offers ==> b.offer().len() == 1
            &&& offers && (b.port is None || b.port->0 == "22"@) ==> b.offer()[0] == user + "@"@
                + b.name->0
            &&& offers && b.port is Some && b.port->0 != "22"@ ==> b.offer()[0] == user + "@"@
                + b.name->0 + ":"@ + b.port->0
        }),
{
}

/// The lines of a configuration act one after the other, and what the last
/// entry offers comes last.
pub proof fn law_entries_are_offered_in_order(lines: Seq<Seq<char>>, line: Seq<char>)
    ensures
        read_lines(lines.push(line)) == read_line(
            read_lines(lines).0,
            read_lines(lines).1,
            line,
        ),
        read_lines(seq![]).0.len() == 0,
        read_lines(seq![]).1.offer().len() == 0,
{
    assert(lines.push(line).drop_last() =~= lines);
}

/// A whole entry in one piece is offered behind everything that the lines in
/// front of it offer, whatever those are.
pub proof fn law_an_entry_is_offered(
    lines: Seq<Seq<char>>,
    host_key: Seq<char>,
    host: Seq<char>,
    name_key: Seq<char>,
    name: Seq<char>,
    user_key: Seq<char>,
    user: Seq<char>,
    comment: Seq<char>,
)
    requires
        lower(host_key) == "host"@,
        lower(name_key) == "hostname"@,
        lower(user_key) == "user"@,
        forall|i: int| 0 <= i < host_key.len() ==> !is_space(#[trigger] host_key[i]),
        forall|i: int| 0 <= i < name_key.len() ==> !is_space(#[trigger] name_key[i]),
        forall|i: int| 0 <= i < user_key.len() ==> !is_space(#[trigger] user_key[i]),
        host.len() > 0 && snug(host) && host != "*"@,
        name.len() > 0 && snug(name),
        user.len() > 0 && snug(user),
        trim(comment).len() == 0 || trim(comment)[0] == '#',
    ensures
        ({
            let all = lines.push(host_key + seq![' '] + host).push(comment).push(
                name_key + seq![' '] + name,
            ).push(user_key + seq![' '] + user);
            let before = read_lines(lines);
            let end = read_lines(all);
            end.0 + end.1.offer() =~= before.0 + before.1.offer() + seq![user + "@"@ + name]
        }),
{
    law_keywords_differ();
    reveal_strlit("host");
    reveal_strlit("hostname");
    reveal_strlit("user");
    assert(lower(host_key).len() == host_key.len());
    assert(lower(name_key).len() == name_key.len());
    assert(lower(user_key).len() == user_key.len());
    lemma_setting_line(host_key, host);
    lemma_setting_line(name_key, name);
    lemma_setting_line(user_key, user);
    let l1 = lines.push(host_key + seq![' '] + host);
    let l2 = l1.push(comment);
    let l3 = l2.push(name_key + seq![' '] + name);
    law_entries_are_offered_in_order(lines, host_key + seq![' '] + host);
    law_entries_are_offered_in_order(l1, comment);
    law_entries_are_offered_in_order(l2, name_key + seq![' '] + name);
    law_entries_are_offered_in_order(l3, user_key + seq![' '] + user);
}

proof fn lemma_setting_line(key: Seq<char>, value: Seq<char>)
    requires
        key.len() > 0,
        forall|i: int| 0 <= i < key.len() ==> !is_space(#[trigger] key[i]),
        value.len() > 0 && snug(value),
        'a' <= lower(key)[0] <= 'z',
    ensures
        ({
            let t = trim(key + seq![' '] + value);
            t.len() > 0 && t[0] != '#' && keyword(t) == lower(key) && argument(t) == value
        }),
{
    law_lines_are_keyword_and_value(seq![], key, value, seq![]);
    assert(Seq::<char>::empty() + (key + seq![' '] + value) + Seq::<char>::empty() =~= key
        + seq![' '] + value);
    crate::text::law_lower_case(key, 0);
}

/// The answer to a list of offers: the number of one takes it, a number of none
/// is refused, zero and nothing ask again, and anything that is no number is
/// the target itself. White space around it does not matter.
pub proof fn law_what_an_answer_chooses(
    n: nat,
    offers: Seq<Seq<char>>,
    text: Seq<char>,
    r: SetupChoice,
)
    requires
        n <= usize::MAX,
    ensures
        n > 0 && is_choice(decimal(n), offers, r) ==> if n <= offers.len() {
            r is Target && r->Target_0@ == offers[n - 1]
        } else {
            r is BadNumber
        },
        is_choice(decimal(0), offers, r) ==> r is Ask,
        is_choice(seq![], offers, r) ==> r is Ask,
        text.len() > 0 && snug(text) && parsed(text, usize::MAX as nat) is None && is_choice(
            text,
            offers,
            r,
        ) ==> r is Target && r->Target_0@ == text,
{
    reveal_strlit("0");
    let d = decimal(n);
    lemma_decimal(n);
    lemma_decimal(0);
    law_decimal_round_trip(n, usize::MAX as nat);
    law_decimal_round_trip(0, usize::MAX as nat);
    assert forall|i: int| 0 <= i < d.len() implies !is_space(#[trigger] d[i]) by {
        assert(digit_value(d[i], 10) is Some);
    }
    assert(!is_space(d[0]));
    assert(!is_space(d[d.len() - 1]));
    lemma_snug(d);
    assert(decimal(0) =~= seq!['0']);
    assert("0"@ =~= seq!['0']);
    lemma_snug(decimal(0));
    if d == "0"@ {
        assert(parsed(d, usize::MAX as nat) == parsed(decimal(0), usize::MAX as nat));
    }
    lemma_snug(text);
    assert(parsed("0"@, usize::MAX as nat) == Some(0nat));
    crate::text::law_trimming_leaves_the_text(seq![], seq![], seq![]);
    assert(Seq::<char>::empty() + Seq::<char>::empty() + Seq::<char>::empty() =~= Seq::<
        char,
    >::empty());
}

proof fn lemma_snug(s: Seq<char>)
    ensures
        s.len() > 0 && snug(s) ==> trim(s) == s,
{
    if s.len() > 0 && snug(s) {
        crate::text::law_trimming_leaves_the_text(seq![], s, seq![]);
        assert(Seq::<char>::empty() + s + Seq::<char>::empty() =~= s);
    }
}

/// A defaults file ends with the line that names the target, and all else in it
/// is a comment.
pub proof fn law_defaults_files_name_the_target(target: Seq<char>, offered: bool)
    ensures
        exists|note: Seq<char>|
            note.len() > 0 && note[0] == '#' && note.last() == '\n' && defaults_file(target, offered)
                == #[trigger] (note + "SRP_ARGS="@) + target + "\n"@,
{
    reveal_strlit("# /etc/default/srp — 由 srp setup 自动生成\n");
    reveal_strlit("# /etc/default/srp\n");
    let note = if offered {
        "# /etc/default/srp — 由 srp setup 自动生成\n"@
    } else {
        "# /etc/default/srp\n"@
    };
    assert(note.len() > 0 && note[0] == '#' && note.last() == '\n');
    assert(defaults_file(target, offered) == (note + "SRP_ARGS="@) + target + "\n"@);
}

/// The names of the policies, and that anything else is a key to pin.
pub proof fn law_what_policies_are_called(name: Seq<char>, r: HostKeyPolicy)
    requires
        is_policy(name, r),
    ensures
        r is Strict <==> name == "strict"@,
        r is AcceptNew <==> name == "accept-new"@ || name == "accept_new"@,
        r matches HostKeyPolicy::Pinned(pin) ==> pin@ == name,
{
    reveal_strlit("strict");
    reveal_strlit("accept-new");
    reveal_strlit("accept_new");
    assert("strict"@.len() == 6);
    assert("accept-new"@.len() == 10);
    assert("accept_new"@.len() == 10);
}

/// The options reach the configuration: the target, the listeners, the
/// credentials, the mode and the helper as they were given, and times of at
/// least a second.
pub proof fn law_options_reach_the_configuration(a: ConnectArgs, auth: AuthMethod, c: Config)
    requires
        asked_for(a, auth, c),
    ensures
        a.target is Some,
        target_of(a.target->0@) == Ok::<(Seq<char>, Seq<char>, u16), TargetError>(
            (c.ssh.user@, c.ssh.host@, c.ssh.port),
        ),
        c.ssh.auth == auth,
        is_policy(a.host_key@, c.ssh.host_key),
        c.ssh.known_hosts == a.known_hosts,
        c.mode == TunnelMode::Helper <==> a.helper,
        a.no_socks5 ==> c.listen.socks5 is None,
        !a.no_socks5 ==> c.listen.socks5 == Some(a.socks5),
        c.listen.http == a.http,
        c.listen.username == a.proxy_user,
        c.listen.password == a.proxy_password,
        c.helper.remote_path == a.helper_path,
        c.helper.allow == a.allow,
        c.helper.command is None,
        c.helper.stream_window == 4 * 1024 * 1024,
        c.reconnect.enabled,
        a.keepalive > 0 ==> c.ssh.keepalive_interval.total() == a.keepalive * 1_000_000_000,
        a.keepalive == 0 ==> c.ssh.keepalive_interval.total() == 1_000_000_000,
        a.dial_wait > 0 ==> c.reconnect.dial_wait.total() == a.dial_wait * 1_000_000_000,
        a.dial_wait == 0 ==> c.reconnect.dial_wait.total() == 1_000_000_000,
        c.ssh.keepalive_max == 3,
        c.ssh.connect_timeout.total() == 20 * 1_000_000_000,
        c.reconnect.initial_delay.total() == 250_000_000,
        c.reconnect.max_delay.total() == 30 * 1_000_000_000,
        !c.reconnect.multiplier_below_one && !c.reconnect.jitter_out_of_range,
{
}

/// A configuration is read line by line, and what the last entry offers comes
/// last.
pub proof fn law_configurations_are_read_line_by_line(lines: Seq<Seq<char>>)
    requires
        lines.len() > 0,
        forall|i: int| 0 <= i < lines.len() ==> !(#[trigger] lines[i]).contains('\n'),
    ensures
        offered(crate::text::joined_with(lines, '\n')) == read_lines(lines).0 + read_lines(
            lines,
        ).1.offer(),
{
    crate::text::law_the_whole_has_its_parts(lines, '\n');
}

/// What was asked for on the command line beats what was found. The agent, if
/// asked for, beats everything; a password beats a key; a key that was named
/// beats one that was found; and where there is nothing else, it is the agent.
/// The passphrase goes with the key.
pub proof fn law_what_is_asked_for_beats_what_is_found(
    password: String,
    named: std::path::PathBuf,
    lying: std::path::PathBuf,
    p: Option<String>,
    i: Option<std::path::PathBuf>,
    f: Option<std::path::PathBuf>,
    phrase: Option<String>,
)
    ensures
        chosen_auth(true, p, i, f, phrase) is Agent,
        chosen_auth(false, Some(password), i, f, phrase) == (AuthMethod::Password { password }),
        chosen_auth(false, None, Some(named), f, phrase) == (AuthMethod::PublicKey {
            path: named,
            passphrase: phrase,
        }),
        chosen_auth(false, None, None, Some(lying), phrase) == (AuthMethod::PublicKey {
            path: lying,
            passphrase: phrase,
        }),
        chosen_auth(false, None, None, None, phrase) is Agent,
{
}

/// Nobody is asked anything without a terminal, and nobody is asked to choose
/// among nothing.
pub proof fn law_nobody_chooses_among_nothing(terminal: bool, offers: int)
    requires
        0 <= offers,
    ensures
        mode_of(terminal, offers) == SetupMode::ByHand <==> !terminal,
        mode_of(terminal, offers) == SetupMode::Choose <==> terminal && offers > 0,
        mode_of(terminal, offers) == SetupMode::Ask <==> terminal && offers == 0,
{
}

/// Only a tilde alone or in front of a slash stands for the home directory, and
/// what comes behind the slash stays as it is.
pub proof fn law_paths_below_the_home_directory(raw: Seq<char>, rest: Seq<char>)
    ensures
        below_home(seq!['~', '/'] + rest) == Some(rest),
        below_home(seq!['~']) == Some(Seq::<char>::empty()),
        below_home(raw) is Some ==> raw == seq!['~'] || raw == seq!['~', '/'] + below_home(raw)->0,
        rest.len() > 0 && rest[0] != '/' ==> below_home(seq!['~'] + rest) is None,
{
    assert((seq!['~', '/'] + rest).skip(2) =~= rest);
    assert((seq!['~', '/'] + rest).len() != seq!['~'].len());
    if below_home(raw) is Some && raw != seq!['~'] {
        assert(raw =~= seq!['~', '/'] + raw.skip(2));
    }
    if rest.len() > 0 {
        assert((seq!['~'] + rest)[1] == rest[0]);
        assert((seq!['~'] + rest).len() != seq!['~'].len());
    }
}

/// The key that is taken is there, and none of those before it is.
pub proof fn law_the_first_key_there_is_taken(present: Seq<bool>, k: int)
    requires
        present.len() == 4,
        0 <= k < 4,
        forall|i: int| 0 <= i < k ==> !present[i],
    ensures
        present[k] ==> found_identity(present) == Some(
            seq!["id_ed25519"@, "id_ecdsa"@, "id_rsa"@, "id_dsa"@][k],
        ),
        k == 3 && !present[k] ==> found_identity(present) is None,
{
    if k > 0 {
        assert(!present[0]);
    }
    if k > 1 {
        assert(!present[1]);
    }
    if k > 2 {
        assert(!present[2]);
    }
}

} // verus!
