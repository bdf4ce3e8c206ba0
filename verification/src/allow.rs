//! The helper's allow list: which targets it connects to.
//!
//! A rule is `host:port`, `host` for any port, or `*:port` for any host. A
//! host may be `*.parent` for the subdomains of `parent`, or `address/bits` for
//! the network of the addresses that share so many leading bits, and an IPv6
//! address with a port stands in brackets. Names are compared without regard to
//! case and to dots at their end.

use vstd::prelude::*;
use vstd::slice::{slice_subrange, slice_to_vec};

use crate::addr::AddrView;
use crate::ip::{
    ip_char, ip_of, ipv4_text, law_ipv4_round_trip, law_ipv6_round_trip, lemma_ipv4_chars, parse_ip,
    Ip, IpView,
};
use crate::text::{
    chars_of, decimal, find, find_char, lower, lower_char, lowered, parse_number, parse_u16, parsed, rfind,
    rfind_char, same_chars, trim, trimmed,
};
use crate::TargetAddr;

verus! {

/// Which hosts a rule is about.
#[derive(Debug)]
pub enum HostRule {
    /// All of them.
    Any,
    /// The host of that name.
    Exact(Vec<char>),
    /// The subdomains of that name, but not the name itself.
    Suffix(Vec<char>),
    /// The host of that address, however it is written.
    Ip(Ip),
    /// The hosts whose addresses start with the same bits, so many of them.
    Net(Ip, u8),
}

/// One rule.
#[derive(Debug)]
pub struct AllowRule {
    host: HostRule,
    port: Option<u16>,
}

/// The targets that are permitted. With no rules all are.
#[derive(Debug)]
pub struct AllowList {
    rules: Vec<AllowRule>,
}

/// Why a pattern is no rule.
#[derive(Debug, Clone, Copy, PartialEq, Eq, Structural)]
pub enum AllowError {
    /// It is empty.
    Empty,
    /// Its host is empty.
    EmptyHost,
    /// What follows `*.` is no name.
    InvalidWildcard,
    /// A `*` stands where none may.
    MisplacedStar,
    /// A bracket is not closed.
    UnclosedBracket,
    /// Something other than a port follows the bracket.
    TrailingJunk,
    /// The port is no number of 16 bits.
    InvalidPort,
}

/// What the host of a rule stands for.
#[verifier::ext_equal]
pub enum HostView {
    Any,
    Exact(Seq<char>),
    Suffix(Seq<char>),
    Ip(IpView),
    Net(IpView, nat),
}

impl View for HostRule {
    type V = HostView;

    open spec fn view(&self) -> HostView {
        match self {
            HostRule::Any => HostView::Any,
            HostRule::Exact(h) => HostView::Exact(h@),
            HostRule::Suffix(p) => HostView::Suffix(p@),
            HostRule::Ip(ip) => HostView::Ip(ip@),
            HostRule::Net(ip, bits) => HostView::Net(ip@, *bits as nat),
        }
    }
}

/// What a rule stands for.
#[verifier::ext_equal]
pub struct RuleView {
    pub host: HostView,
    /// `None` for any port.
    pub port: Option<u16>,
}

impl View for AllowRule {
    type V = RuleView;

    closed spec fn view(&self) -> RuleView {
        RuleView { host: self.host@, port: self.port }
    }
}

impl View for AllowList {
    type V = Seq<RuleView>;

    closed spec fn view(&self) -> Seq<RuleView> {
        self.rules@.map_values(|r: AllowRule| r@)
    }
}

/// A text without dots at its end.
pub open spec fn strip_dots(s: Seq<char>) -> Seq<char>
    decreases s.len(),
{
    if s.len() > 0 && s.last() == '.' {
        strip_dots(s.drop_last())
    } else {
        s
    }
}

/// A host name in the form in which names are compared.
pub open spec fn normalized(host: Seq<char>) -> Seq<char> {
    lower(strip_dots(host))
}

/// The host name of a target, in the form in which names are compared.
pub open spec fn host_key(addr: AddrView) -> Seq<char> {
    match addr {
        AddrView::Domain(d, _) => normalized(d),
        _ => addr.host_text(),
    }
}

/// The IP address of a target, where it has one.
pub open spec fn target_ip(addr: AddrView) -> Option<IpView> {
    match addr {
        AddrView::V4(o, _) => Some(IpView::V4(o)),
        AddrView::V6(o, _) => Some(IpView::V6(o)),
        AddrView::Domain(d, _) => ip_of(d),
    }
}

/// Whether a name is a subdomain of another: something, a dot and the parent.
pub open spec fn is_subdomain(name: Seq<char>, parent: Seq<char>) -> bool {
    let n = name.len() - parent.len();
    n > 1 && name.skip(n) == parent && name[n - 1] == '.'
}

/// A bit of a byte, the most significant one first.
pub open spec fn bit(b: u8, i: int) -> bool {
    (b >> ((7 - i) as u8)) & 1 == 1
}

/// Whether two byte strings start with the same bits, so many of them.
pub open spec fn same_bits(a: Seq<u8>, b: Seq<u8>, bits: nat) -> bool {
    forall|i: int|
        0 <= i < bits ==> #[trigger] bit(a[i / 8], i % 8) == bit(b[i / 8], i % 8)
}

/// Whether an address lies in a network.
pub open spec fn in_network(ip: IpView, net: IpView, bits: nat) -> bool {
    match (ip, net) {
        (IpView::V4(a), IpView::V4(b)) => bits <= 32 && same_bits(a, b, bits),
        (IpView::V6(a), IpView::V6(b)) => bits <= 128 && same_bits(a, b, bits),
        _ => false,
    }
}

impl HostView {
    /// Whether the rule is about the host of a target.
    pub open spec fn covers(self, addr: AddrView) -> bool {
        match self {
            HostView::Any => true,
            HostView::Exact(name) => host_key(addr) == name,
            HostView::Suffix(parent) => is_subdomain(host_key(addr), parent),
            HostView::Ip(ip) => target_ip(addr) == Some(ip),
            HostView::Net(net, bits) => target_ip(addr) matches Some(ip) && in_network(
                ip,
                net,
                bits,
            ),
        }
    }
}

impl RuleView {
    /// Whether the rule permits a target.
    pub open spec fn permits(self, addr: AddrView) -> bool {
        (self.port matches Some(p) ==> p == addr.port()) && self.host.covers(addr)
    }
}

/// Whether a list of rules permits a target.
pub open spec fn permitted(rules: Seq<RuleView>, addr: AddrView) -> bool {
    rules.len() == 0 || exists|i: int| 0 <= i < rules.len() && (#[trigger] rules[i]).permits(addr)
}

/// The host and the port of a pattern.
pub open spec fn split_pattern(p: Seq<char>) -> Result<(Seq<char>, Option<u16>), AllowError> {
    if p.len() > 0 && p[0] == '[' {
        let rest = p.skip(1);
        let end = find(rest, ']');
        if end >= rest.len() {
            Err(AllowError::UnclosedBracket)
        } else {
            let tail = rest.skip(end + 1);
            if tail.len() == 0 {
                Ok((rest.take(end), None))
            } else if tail[0] != ':' {
                Err(AllowError::TrailingJunk)
            } else {
                match parsed(tail.skip(1), 0xffff) {
                    Some(port) => Ok((rest.take(end), Some(port as u16))),
                    None => Err(AllowError::InvalidPort),
                }
            }
        }
    } else {
        let i = rfind(p, ':');
        if i >= 0 && !p.take(i).contains(':') {
            match parsed(p.skip(i + 1), 0xffff) {
                Some(port) => Ok((p.take(i), Some(port as u16))),
                None => Err(AllowError::InvalidPort),
            }
        } else {
            Ok((p, None))
        }
    }
}

/// How many bits an address has.
pub open spec fn width(ip: IpView) -> nat {
    match ip {
        IpView::V4(_) => 32,
        IpView::V6(_) => 128,
    }
}

/// The network that a text denotes: an address, a slash and a number of bits.
pub open spec fn network_of(s: Seq<char>) -> Option<(IpView, nat)> {
    let i = find(s, '/');
    if i >= s.len() {
        None
    } else {
        match ip_of(s.take(i)) {
            Some(ip) => match parsed(s.skip(i + 1), width(ip)) {
                Some(bits) => Some((ip, bits)),
                None => None,
            },
            None => None,
        }
    }
}

/// The hosts that the host part of a pattern is about.
pub open spec fn host_of(host: Seq<char>) -> Result<HostView, AllowError> {
    if host.len() == 0 {
        Err(AllowError::EmptyHost)
    } else if host == seq!['*'] {
        Ok(HostView::Any)
    } else if host.len() >= 2 && host[0] == '*' && host[1] == '.' {
        let parent = normalized(host.skip(2));
        if parent.len() == 0 || parent.contains('*') {
            Err(AllowError::InvalidWildcard)
        } else {
            Ok(HostView::Suffix(parent))
        }
    } else if ip_of(host) is Some {
        Ok(HostView::Ip(ip_of(host)->0))
    } else if let Some((ip, bits)) = network_of(host) {
        Ok(HostView::Net(ip, bits))
    } else if normalized(host).contains('*') {
        Err(AllowError::MisplacedStar)
    } else {
        Ok(HostView::Exact(normalized(host)))
    }
}

/// The rule that a pattern means.
pub open spec fn rule_of(pattern: Seq<char>) -> Result<RuleView, AllowError> {
    let p = trim(pattern);
    if p.len() == 0 {
        Err(AllowError::Empty)
    } else {
        match split_pattern(p) {
            Ok((host, port)) => match host_of(host) {
                Ok(host) => Ok(RuleView { host, port }),
                Err(e) => Err(e),
            },
            Err(e) => Err(e),
        }
    }
}

fn contains_char(s: &[char], c: char) -> (r: bool)
    ensures
        r == s@.contains(c),
{
    let i: usize = find_char(s, c);
    proof {
        crate::text::lemma_find(s@, c);
        if i < s@.len() {
            assert(s@[i as int] == c);
        }
    }
    i < s.len()
}

fn normalize_host(host: &[char]) -> (r: Vec<char>)
    ensures
        r@ == normalized(host@),
{
    let mut n: usize = host.len();
    assert(host@.take(n as int) =~= host@);
    while n > 0 && host[n - 1] == '.'
        invariant
            n <= host@.len(),
            strip_dots(host@.take(n as int)) == strip_dots(host@),
        decreases n,
    {
        assert(host@.take(n as int).drop_last() =~= host@.take(n - 1));
        n = n - 1;
    }
    let kept = slice_subrange(host, 0, n);
    assert(kept@ =~= host@.take(n as int));
    lowered(kept)
}

fn split_host_port(p: &[char]) -> (r: Result<(Vec<char>, Option<u16>), AllowError>)
    ensures
        match r {
            Ok((host, port)) => split_pattern(p@) == Ok::<_, AllowError>((host@, port)),
            Err(e) => split_pattern(p@) == Err::<(Seq<char>, Option<u16>), _>(e),
        },
{
    if p.len() > 0 && p[0] == '[' {
        let rest = slice_subrange(p, 1, p.len());
        assert(rest@ =~= p@.skip(1));
        let end: usize = find_char(rest, ']');
        if end >= rest.len() {
            return Err(AllowError::UnclosedBracket);
        }
        let host = slice_to_vec(slice_subrange(rest, 0, end));
        assert(host@ =~= rest@.take(end as int));
        let tail = slice_subrange(rest, end + 1, rest.len());
        assert(tail@ =~= rest@.skip(end + 1));
        if tail.len() == 0 {
            return Ok((host, None));
        }
        if tail[0] != ':' {
            return Err(AllowError::TrailingJunk);
        }
        let port = slice_subrange(tail, 1, tail.len());
        assert(port@ =~= tail@.skip(1));
        return match parse_u16(port) {
            Some(n) => Ok((host, Some(n))),
            None => Err(AllowError::InvalidPort),
        };
    }
    match rfind_char(p, ':') {
        Some(i) => {
            let host = slice_subrange(p, 0, i);
            assert(host@ =~= p@.take(i as int));
            if !contains_char(host, ':') {
                let port = slice_subrange(p, i + 1, p.len());
                assert(port@ =~= p@.skip(i + 1));
                return match parse_u16(port) {
                    Some(n) => Ok((slice_to_vec(host), Some(n))),
                    None => Err(AllowError::InvalidPort),
                };
            }
        },
        None => {},
    }
    Ok((slice_to_vec(p), None))
}

fn parse_network(s: &[char]) -> (r: Option<(Ip, u8)>)
    ensures
        match r {
            Some((ip, bits)) => network_of(s@) == Some((ip@, bits as nat)),
            None => network_of(s@) is None,
        },
{
    let i: usize = find_char(s, '/');
    if i >= s.len() {
        return None;
    }
    let addr = slice_subrange(s, 0, i);
    assert(addr@ =~= s@.take(i as int));
    let count = slice_subrange(s, i + 1, s.len());
    assert(count@ =~= s@.skip(i + 1));
    let ip = match parse_ip(addr) {
        Some(ip) => ip,
        None => return None,
    };
    let most: u64 = match ip {
        Ip::V4(_) => 32,
        Ip::V6(_) => 128,
    };
    match parse_number(count, most) {
        Some(bits) => Some((ip, bits as u8)),
        None => None,
    }
}

fn parse_host(host: &[char]) -> (r: Result<HostRule, AllowError>)
    ensures
        match r {
            Ok(h) => host_of(host@) == Ok::<_, AllowError>(h@),
            Err(e) => host_of(host@) == Err::<HostView, _>(e),
        },
{
    if host.len() == 0 {
        return Err(AllowError::EmptyHost);
    }
    if host.len() == 1 && host[0] == '*' {
        assert(host@ =~= seq!['*']);
        return Ok(HostRule::Any);
    }
    assert(host@ != seq!['*']) by {
        if host@ == seq!['*'] {
            assert(host@[0] == '*');
            assert(host@.len() == 1);
        }
    }
    if host.len() >= 2 && host[0] == '*' && host[1] == '.' {
        let rest = slice_subrange(host, 2, host.len());
        assert(rest@ =~= host@.skip(2));
        let parent = normalize_host(rest);
        if parent.len() == 0 || contains_char(parent.as_slice(), '*') {
            return Err(AllowError::InvalidWildcard);
        }
        return Ok(HostRule::Suffix(parent));
    }
    if let Some(ip) = parse_ip(host) {
        return Ok(HostRule::Ip(ip));
    }
    if let Some((ip, bits)) = parse_network(host) {
        return Ok(HostRule::Net(ip, bits));
    }
    let name = normalize_host(host);
    if contains_char(name.as_slice(), '*') {
        return Err(AllowError::MisplacedStar);
    }
    Ok(HostRule::Exact(name))
}

fn parse_rule(pattern: &str) -> (r: Result<AllowRule, AllowError>)
    ensures
        match r {
            Ok(rule) => rule_of(pattern@) == Ok::<_, AllowError>(rule@),
            Err(e) => rule_of(pattern@) == Err::<RuleView, _>(e),
        },
{
    let chars = chars_of(pattern);
    let p = trimmed(chars.as_slice());
    if p.len() == 0 {
        return Err(AllowError::Empty);
    }
    match split_host_port(p) {
        Ok((host, port)) => match parse_host(host.as_slice()) {
            Ok(host) => Ok(AllowRule { host, port }),
            Err(e) => Err(e),
        },
        Err(e) => Err(e),
    }
}

fn ip_of_target(addr: &TargetAddr) -> (r: Option<Ip>)
    ensures
        match r {
            Some(ip) => target_ip(addr@) == Some(ip@),
            None => target_ip(addr@) is None,
        },
{
    match addr {
        TargetAddr::V4(o, _) => Some(Ip::V4(*o)),
        TargetAddr::V6(o, _) => Some(Ip::V6(*o)),
        TargetAddr::Domain(d, _) => parse_ip(chars_of(d.as_str()).as_slice()),
    }
}

fn host_key_of(addr: &TargetAddr) -> (r: Vec<char>)
    ensures
        r@ == host_key(addr@),
{
    match addr {
        TargetAddr::Domain(d, _) => normalize_host(chars_of(d.as_str()).as_slice()),
        _ => addr.host_chars(),
    }
}

fn same_ip(a: &Ip, b: &Ip) -> (r: bool)
    ensures
        r == (a@ == b@),
{
    match (a, b) {
        (Ip::V4(x), Ip::V4(y)) => {
            assert(x@ =~= y@ <==> (x@[0] == y@[0] && x@[1] == y@[1] && x@[2] == y@[2] && x@[3]
                == y@[3]));
            x[0] == y[0] && x[1] == y[1] && x[2] == y[2] && x[3] == y[3]
        },
        (Ip::V6(x), Ip::V6(y)) => {
            let mut i: usize = 0;
            while i < 16
                invariant
                    i <= 16,
                    x@.len() == 16,
                    y@.len() == 16,
                    a@ == IpView::V6(x@),
                    b@ == IpView::V6(y@),
                    forall|k: int| 0 <= k < i ==> x@[k] == y@[k],
                decreases 16 - i,
            {
                if x[i] != y[i] {
                    assert(x@[i as int] != y@[i as int]);
                    return false;
                }
                i = i + 1;
            }
            assert(x@ =~= y@);
            true
        },
        _ => false,
    }
}

fn share_bits(a: &[u8], b: &[u8], bits: u8) -> (r: bool)
    requires
        bits <= 8 * a@.len(),
        bits <= 8 * b@.len(),
    ensures
        r == same_bits(a@, b@, bits as nat),
{
    let mut i: u8 = 0;
    while i < bits
        invariant
            i <= bits,
            bits <= 8 * a@.len(),
            bits <= 8 * b@.len(),
            same_bits(a@, b@, i as nat),
        decreases bits - i,
    {
        let at: usize = (i / 8) as usize;
        let down: u8 = 7 - i % 8;
        let x: bool = (a[at] >> down) & 1 == 1;
        let y: bool = (b[at] >> down) & 1 == 1;
        assert(x == bit(a@[i as int / 8], i as int % 8));
        assert(y == bit(b@[i as int / 8], i as int % 8));
        if x != y {
            return false;
        }
        i = i + 1;
    }
    true
}

fn lies_in(ip: &Ip, net: &Ip, bits: u8) -> (r: bool)
    ensures
        r == in_network(ip@, net@, bits as nat),
{
    match (ip, net) {
        (Ip::V4(a), Ip::V4(b)) => bits <= 32 && share_bits(a.as_slice(), b.as_slice(), bits),
        (Ip::V6(a), Ip::V6(b)) => bits <= 128 && share_bits(a.as_slice(), b.as_slice(), bits),
        _ => false,
    }
}

fn subdomain(name: &[char], parent: &[char]) -> (r: bool)
    ensures
        r == is_subdomain(name@, parent@),
{
    if name.len() < parent.len() || name.len() - parent.len() <= 1 {
        return false;
    }
    let n: usize = name.len() - parent.len();
    let tail = slice_subrange(name, n, name.len());
    assert(tail@ =~= name@.skip(n as int));
    same_chars(tail, parent) && name[n - 1] == '.'
}

impl AllowRule {
    fn matches(&self, addr: &TargetAddr) -> (r: bool)
        ensures
            r == self@.permits(addr@),
    {
        match self.port {
            Some(p) => {
                if p != addr.port() {
                    return false;
                }
            },
            None => {},
        }
        match &self.host {
            HostRule::Any => true,
            HostRule::Ip(want) => match ip_of_target(addr) {
                Some(ip) => same_ip(&ip, want),
                None => false,
            },
            HostRule::Net(net, bits) => match ip_of_target(addr) {
                Some(ip) => lies_in(&ip, net, *bits),
                None => false,
            },
            HostRule::Exact(want) => same_chars(host_key_of(addr).as_slice(), want.as_slice()),
            HostRule::Suffix(parent) => subdomain(host_key_of(addr).as_slice(), parent.as_slice()),
        }
    }
}

impl Default for AllowList {
    fn default() -> (r: AllowList)
        ensures
            r@.len() == 0,
    {
        AllowList { rules: Vec::new() }
    }
}

impl AllowList {
    /// Reads a list of patterns. One that is no rule makes the whole list an
    /// error: leaving it out would permit more than was asked for.
    pub fn parse(patterns: &[&str]) -> (r: Result<AllowList, AllowError>)
        ensures
            match r {
                Ok(list) => list@.len() == patterns@.len() && forall|i: int|
                    0 <= i < patterns@.len() ==> rule_of(#[trigger] patterns@[i]@) == Ok::<
                        _,
                        AllowError,
                    >(list@[i]),
                Err(e) => exists|i: int|
                    {
                        &&& 0 <= i < patterns@.len()
                        &&& rule_of(#[trigger] patterns@[i]@) == Err::<RuleView, _>(e)
                        &&& forall|j: int|
                            0 <= j < i ==> rule_of(#[trigger] patterns@[j]@) is Ok
                    },
            },
    {
        let mut rules: Vec<AllowRule> = Vec::new();
        let mut i: usize = 0;
        while i < patterns.len()
            invariant
                i <= patterns@.len(),
                rules@.len() == i,
                forall|j: int|
                    0 <= j < i ==> rule_of(#[trigger] patterns@[j]@) == Ok::<_, AllowError>(
                        rules@[j]@,
                    ),
            decreases patterns@.len() - i,
        {
            match parse_rule(patterns[i]) {
                Ok(rule) => {
                    rules.push(rule);
                },
                Err(e) => {
                    assert(rule_of(patterns@[i as int]@) == Err::<RuleView, _>(e));
                    return Err(e);
                },
            }
            i = i + 1;
        }
        Ok(AllowList { rules })
    }

    /// Whether there are no rules.
    pub fn is_empty(&self) -> (r: bool)
        ensures
            r == (self@.len() == 0),
    {
        self.rules.len() == 0
    }

    /// Whether a target is permitted.
    pub fn permits(&self, addr: &TargetAddr) -> (r: bool)
        ensures
            r == permitted(self@, addr@),
    {
        if self.rules.len() == 0 {
            return true;
        }
        let mut i: usize = 0;
        while i < self.rules.len()
            invariant
                i <= self.rules@.len(),
                forall|j: int| 0 <= j < i ==> !(#[trigger] self@[j]).permits(addr@),
            decreases self.rules@.len() - i,
        {
            assert(self@[i as int] == self.rules@[i as int]@);
            if self.rules[i].matches(addr) {
                assert(self@[i as int].permits(addr@));
                return true;
            }
            i = i + 1;
        }
        false
    }
}

/// An empty list permits every target.
pub proof fn law_empty_list_permits_everything(addr: AddrView)
    ensures
        permitted(seq![], addr),
{
}

/// A further rule takes nothing back.
pub proof fn law_rules_only_add(rules: Seq<RuleView>, rule: RuleView, addr: AddrView)
    requires
        rules.len() > 0,
        permitted(rules, addr),
    ensures
        permitted(rules.push(rule), addr),
{
    let i = choose|i: int| 0 <= i < rules.len() && (#[trigger] rules[i]).permits(addr);
    assert(rules.push(rule)[i] == rules[i]);
}

/// A wildcard covers what has a name and a dot in front of the parent, and
/// neither the parent itself nor a name that merely ends like it.
pub proof fn law_wildcard_covers_proper_subdomains_only(parent: Seq<char>, label: Seq<char>)
    ensures
        label.len() > 0 ==> is_subdomain(label + seq!['.'] + parent, parent),
        !is_subdomain(parent, parent),
        label.len() > 0 && label.last() != '.' ==> !is_subdomain(label + parent, parent),
{
    let name = label + seq!['.'] + parent;
    if label.len() > 0 {
        assert(name.skip(name.len() - parent.len()) =~= parent);
        assert((label + parent)[label.len() - 1] == label.last());
    }
}

/// A rule for a network covers its own address, and together with an address
/// every other that starts with the same bits, however the target is written. One
/// of no bits has every address of its kind.
pub proof fn law_network_goes_by_its_leading_bits(
    net: IpView,
    bits: nat,
    a: AddrView,
    b: AddrView,
)
    requires
        bits <= width(net),
        target_ip(a) is Some,
        target_ip(b) is Some,
        in_network(target_ip(a)->0, target_ip(b)->0, bits),
    ensures
        target_ip(a) == Some(net) ==> HostView::Net(net, bits).covers(a),
        HostView::Net(net, bits).covers(a) == HostView::Net(net, bits).covers(b),
        HostView::Net(net, 0).covers(a) == (target_ip(a)->0 is V4 == net is V4),
{
    let (x, y) = (target_ip(a)->0, target_ip(b)->0);
    let (p, q) = match (x, y) {
        (IpView::V4(p), IpView::V4(q)) => (p, q),
        (IpView::V6(p), IpView::V6(q)) => (p, q),
        _ => (seq![], seq![]),
    };
    let n = match net {
        IpView::V4(n) => n,
        IpView::V6(n) => n,
    };
    assert(same_bits(p, q, bits));
    if same_bits(p, n, bits) {
        assert forall|i: int| 0 <= i < bits implies #[trigger] bit(q[i / 8], i % 8) == bit(
            n[i / 8],
            i % 8,
        ) by {
            assert(bit(p[i / 8], i % 8) == bit(q[i / 8], i % 8));
        }
    }
    if same_bits(q, n, bits) {
        assert forall|i: int| 0 <= i < bits implies #[trigger] bit(p[i / 8], i % 8) == bit(
            n[i / 8],
            i % 8,
        ) by {
            assert(bit(q[i / 8], i % 8) == bit(n[i / 8], i % 8));
        }
    }
}

proof fn lemma_strip_dots_of_lower(s: Seq<char>)
    ensures
        strip_dots(lower(s)) == lower(strip_dots(s)),
    decreases s.len(),
{
    if s.len() > 0 {
        assert(lower(s).last() == lower_char(s.last()));
        assert(lower(s).drop_last() =~= lower(s.drop_last()));
        if s.last() == '.' {
            lemma_strip_dots_of_lower(s.drop_last());
        }
    }
}

/// Names are compared without regard to case and to dots at their end: two
/// names that differ in nothing else are permitted or not together. Addresses
/// are left out, which are compared as numbers where they are written as such.
pub proof fn law_case_and_end_dots_do_not_matter(
    rules: Seq<RuleView>,
    a: Seq<char>,
    b: Seq<char>,
    port: u16,
)
    requires
        ip_of(a) is None,
        ip_of(b) is None,
    ensures
        normalized(a.push('.')) == normalized(a),
        normalized(lower(a)) == normalized(a),
        normalized(a) == normalized(b) ==> permitted(rules, AddrView::Domain(a, port))
            == permitted(rules, AddrView::Domain(b, port)),
{
    assert(a.push('.').drop_last() =~= a);
    lemma_strip_dots_of_lower(a);
    assert(lower(lower(strip_dots(a))) =~= lower(strip_dots(a)));
    let x = AddrView::Domain(a, port);
    let y = AddrView::Domain(b, port);
    if normalized(a) == normalized(b) {
        assert forall|i: int| 0 <= i < rules.len() implies (#[trigger] rules[i]).permits(x)
            == rules[i].permits(y) by {
            assert(host_key(x) == host_key(y));
        }
    }
}

/// Whether a target is permitted does not depend on whether it is given as an
/// address or as the text of that address.
pub proof fn law_address_or_its_text(rules: Seq<RuleView>, addr: AddrView)
    requires
        addr.encodable(),
        !(addr is Domain),
    ensures
        permitted(rules, addr) == permitted(
            rules,
            AddrView::Domain(addr.host_text(), addr.port()),
        ),
{
    let text = addr.host_text();
    let named = AddrView::Domain(text, addr.port());
    match addr {
        AddrView::V4(o, _) => {
            law_ipv4_round_trip(o);
            lemma_ipv4_chars(o);
        },
        AddrView::V6(o, _) => law_ipv6_round_trip(o),
        _ => {},
    }
    assert forall|i: int| 0 <= i < text.len() implies lower_char(#[trigger] text[i]) == text[i] by {
        assert(ip_char(text[i]));
    }
    assert(lower(text) =~= text);
    assert(host_key(named) == host_key(addr));
    assert(target_ip(named) == target_ip(addr));
    assert forall|i: int| 0 <= i < rules.len() implies (#[trigger] rules[i]).permits(addr)
        == rules[i].permits(named) by {}
}

/// A rule for one address covers exactly the targets that have it, as an
/// address or as its text. One that is not about an address asks for the name.
pub proof fn law_address_rules_cover_one_address(ip: IpView, addr: AddrView)
    ensures
        HostView::Ip(ip).covers(addr) <==> target_ip(addr) == Some(ip),
        match addr {
            AddrView::V4(o, _) => HostView::Ip(ip).covers(addr) <==> ip == IpView::V4(o),
            AddrView::V6(o, _) => HostView::Ip(ip).covers(addr) <==> ip == IpView::V6(o),
            AddrView::Domain(d, _) => HostView::Ip(ip).covers(addr) <==> ip_of(d) == Some(ip),
        },
{
}

proof fn lemma_trim_ends(s: Seq<char>)
    requires
        s.len() > 0,
        !crate::text::is_space(s[0]),
        !crate::text::is_space(s.last()),
    ensures
        trim(s) == s,
{
    assert(Seq::<char>::empty() + s + Seq::<char>::empty() =~= s);
    crate::text::law_trimming_leaves_the_text(seq![], s, seq![]);
}

/// A port in text is read back, holds no colon and begins and ends visibly.
proof fn lemma_port_text(port: u16)
    ensures
        parsed(decimal(port as nat), 0xffff) == Some(port as nat),
        !decimal(port as nat).contains(':'),
        decimal(port as nat).len() > 0,
        !crate::text::is_space(decimal(port as nat)[0]),
        !crate::text::is_space(decimal(port as nat).last()),
{
    let s = decimal(port as nat);
    crate::text::law_decimal_round_trip(port as nat, 0xffff);
    crate::text::lemma_decimal(port as nat);
    assert forall|i: int| 0 <= i < s.len() implies '0' <= #[trigger] s[i] <= '9' by {
        assert(crate::text::digit_value(s[i], 10) is Some);
    }
    assert('0' <= s[0] <= '9');
    assert('0' <= s[s.len() - 1] <= '9');
}

/// A pattern of a host without colons, a colon and a port is taken apart there.
proof fn lemma_split_host_port(host: Seq<char>, port: u16)
    requires
        host.len() > 0,
        host[0] != '[',
        !host.contains(':'),
    ensures
        split_pattern(host + seq![':'] + decimal(port as nat)) == Ok::<
            (Seq<char>, Option<u16>),
            AllowError,
        >((host, Some(port))),
        split_pattern(host) == Ok::<(Seq<char>, Option<u16>), AllowError>((host, None)),
{
    let digits = decimal(port as nat);
    let p = host + seq![':'] + digits;
    lemma_port_text(port);
    crate::text::lemma_rfind(p, ':');
    crate::text::lemma_rfind(host, ':');
    let i = rfind(p, ':');
    assert(p[0] == host[0]);
    assert(p[host.len() as int] == ':');
    if i > host.len() {
        assert(p[i] == digits[i - host.len() - 1]);
    }
    assert(i == host.len());
    assert(p.take(i) =~= host);
    assert(p.skip(i + 1) =~= digits);
    if rfind(host, ':') >= 0 {
        assert(host.contains(host[rfind(host, ':')]));
    }
}

proof fn lemma_split_bracketed(host: Seq<char>, port: u16)
    requires
        !host.contains(']'),
    ensures
        split_pattern(seq!['['] + host + seq![']', ':'] + decimal(port as nat)) == Ok::<
            (Seq<char>, Option<u16>),
            AllowError,
        >((host, Some(port))),
        split_pattern(seq!['['] + host + seq![']']) == Ok::<
            (Seq<char>, Option<u16>),
            AllowError,
        >((host, None)),
{
    let digits = decimal(port as nat);
    lemma_port_text(port);
    let p = seq!['['] + host + seq![']', ':'] + digits;
    let rest = p.skip(1);
    assert(rest =~= host + seq![']', ':'] + digits);
    assert forall|j: int| 0 <= j < host.len() implies rest[j] != ']' by {
        assert(rest[j] == host[j]);
    }
    crate::text::lemma_find_is(rest, ']', host.len() as int);
    assert(rest.take(host.len() as int) =~= host);
    let tail = rest.skip(host.len() as int + 1);
    assert(tail =~= seq![':'] + digits);
    assert(tail.skip(1) =~= digits);
    let q = seq!['['] + host + seq![']'];
    let rest2 = q.skip(1);
    assert(rest2 =~= host + seq![']']);
    assert forall|j: int| 0 <= j < host.len() implies rest2[j] != ']' by {
        assert(rest2[j] == host[j]);
    }
    crate::text::lemma_find_is(rest2, ']', host.len() as int);
    assert(rest2.take(host.len() as int) =~= host);
    assert(rest2.skip(host.len() as int + 1).len() == 0);
}

proof fn lemma_address_is_no_wildcard(host: Seq<char>)
    requires
        host.len() > 0,
        ip_char(host[0]),
        ip_of(host) is Some,
    ensures
        host_of(host) == Ok::<HostView, AllowError>(HostView::Ip(ip_of(host)->0)),
{
    if host == seq!['*'] {
        assert(host[0] == '*');
    }
}

/// A pattern that is an address permits that address on every port, and with a
/// port behind it on that port only. No other address is permitted by it.
pub proof fn law_a_written_address_permits_itself_only(a: AddrView, b: AddrView)
    requires
        a.encodable(),
        !(a is Domain),
    ensures
        ({
            let bare = match a {
                AddrView::V6(..) => seq!['['] + a.host_text() + seq![']'],
                _ => a.host_text(),
            };
            &&& rule_of(a.text()) is Ok
            &&& rule_of(bare) is Ok
            &&& rule_of(a.text())->Ok_0.permits(b) <==> b.port() == a.port() && target_ip(b)
                == target_ip(a)
            &&& rule_of(bare)->Ok_0.permits(b) <==> target_ip(b) == target_ip(a)
            &&& !(b is Domain) ==> (rule_of(a.text())->Ok_0.permits(b) <==> b == a)
        }),
{
    let host = a.host_text();
    lemma_port_text(a.port());
    let digits = decimal(a.port() as nat);
    match a {
        AddrView::V4(o, port) => {
            law_ipv4_round_trip(o);
            lemma_ipv4_chars(o);
            assert(ip_char(host[0]));
            assert(ip_char(host[host.len() - 1]));
            let p = host + seq![':'] + digits;
            assert(a.text() =~= p);
            lemma_split_host_port(host, port);
            assert(p[0] == host[0]);
            assert(p.last() == digits.last());
            lemma_trim_ends(p);
            lemma_trim_ends(host);
            lemma_address_is_no_wildcard(host);
        },
        AddrView::V6(o, port) => {
            law_ipv6_round_trip(o);
            assert(ip_char(host[0]));
            assert(!host.contains(']')) by {
                if host.contains(']') {
                    let i = choose|i: int| 0 <= i < host.len() && host[i] == ']';
                    assert(ip_char(host[i]));
                }
            }
            let p = seq!['['] + host + seq![']', ':'] + digits;
            assert(a.text() =~= p);
            lemma_split_bracketed(host, port);
            assert(p[0] == '[');
            assert(p.last() == digits.last());
            lemma_trim_ends(p);
            let q = seq!['['] + host + seq![']'];
            assert(q[0] == '[');
            assert(q.last() == ']');
            lemma_trim_ends(q);
            lemma_address_is_no_wildcard(host);
        },
        _ => {},
    }
}

/// Whether a text is a plain host name: visible at both ends, without the
/// characters that mean something in a pattern, and no address.
pub open spec fn plain_name(s: Seq<char>) -> bool {
    &&& s.len() > 0
    &&& !crate::text::is_space(s[0])
    &&& !crate::text::is_space(s.last())
    &&& s[0] != '['
    &&& !s.contains(':')
    &&& !s.contains('*')
    &&& !s.contains('/')
    &&& ip_of(s) is None
}

proof fn lemma_no_star_in_normalized(s: Seq<char>)
    requires
        !s.contains('*'),
    ensures
        !normalized(s).contains('*'),
{
    let t = strip_dots(s);
    lemma_strip_dots_is_prefix(s);
    if lower(t).contains('*') {
        let i = choose|i: int| 0 <= i < lower(t).len() && lower(t)[i] == '*';
        assert(lower_char(t[i]) == '*');
        assert(t[i] == s[i]);
        assert(s.contains(s[i]));
    }
}

proof fn lemma_strip_dots_is_prefix(s: Seq<char>)
    ensures
        strip_dots(s).len() <= s.len(),
        strip_dots(s) == s.take(strip_dots(s).len() as int),
        forall|i: int| strip_dots(s).len() <= i < s.len() ==> s[i] == '.',
        strip_dots(s).len() > 0 ==> strip_dots(s).last() != '.',
    decreases s.len(),
{
    if s.len() > 0 && s.last() == '.' {
        lemma_strip_dots_is_prefix(s.drop_last());
        let n = strip_dots(s).len() as int;
        assert(s.drop_last().take(n) =~= s.take(n));
        assert forall|i: int| n <= i < s.len() implies s[i] == '.' by {
            if i < s.len() - 1 {
                assert(s[i] == s.drop_last()[i]);
            }
        }
    } else {
        assert(s.take(s.len() as int) =~= s);
    }
}

/// The form in which names are compared: the name in lower case without the
/// dots at its end, of which there may be any number.
pub proof fn law_names_are_compared_without_end_dots(s: Seq<char>, dots: nat)
    requires
        s.len() > 0 ==> s.last() != '.',
    ensures
        normalized(s + Seq::new(dots, |i: int| '.')) == lower(s),
    decreases dots,
{
    let t = s + Seq::new(dots, |i: int| '.');
    if dots > 0 {
        assert(t.drop_last() =~= s + Seq::new((dots - 1) as nat, |i: int| '.'));
        law_names_are_compared_without_end_dots(s, (dots - 1) as nat);
    } else {
        assert(t =~= s);
    }
}

/// A pattern that is a plain name permits the targets of that name, on every
/// port or on the one that is given, and no others.
pub proof fn law_a_name_permits_itself_only(name: Seq<char>, port: u16, d: Seq<char>, to: u16)
    requires
        plain_name(name),
    ensures
        ({
            let any = rule_of(name);
            let one = rule_of(name + seq![':'] + decimal(port as nat));
            let b = AddrView::Domain(d, to);
            &&& any is Ok
            &&& one is Ok
            &&& any->Ok_0.permits(b) <==> normalized(d) == normalized(name)
            &&& one->Ok_0.permits(b) <==> to == port && normalized(d) == normalized(name)
        }),
{
    let digits = decimal(port as nat);
    let p = name + seq![':'] + digits;
    lemma_port_text(port);
    lemma_split_host_port(name, port);
    assert(p[0] == name[0]);
    assert(p.last() == digits.last());
    lemma_trim_ends(p);
    lemma_trim_ends(name);
    assert(name[0] != '*') by {
        assert(name.contains(name[0]));
    }
    crate::text::lemma_find(name, '/');
    if find(name, '/') < name.len() {
        assert(name.contains(name[find(name, '/')]));
    }
    lemma_no_star_in_normalized(name);
    if name == seq!['*'] {
        assert(name[0] == '*');
    }
}

/// Whether a name is something, a dot and the parent.
pub proof fn law_subdomains_have_a_label_in_front(name: Seq<char>, parent: Seq<char>)
    ensures
        is_subdomain(name, parent) <==> exists|label: Seq<char>|
            label.len() > 0 && name == #[trigger] (label + seq!['.']) + parent,
{
    if is_subdomain(name, parent) {
        let n = name.len() - parent.len();
        let label = name.take(n - 1);
        assert(name =~= (label + seq!['.']) + parent);
    }
    if exists|label: Seq<char>| label.len() > 0 && name == #[trigger] (label + seq!['.']) + parent {
        let label = choose|label: Seq<char>|
            label.len() > 0 && name == #[trigger] (label + seq!['.']) + parent;
        assert(name.skip(name.len() - parent.len()) =~= parent);
    }
}

/// A pattern of `*.` and a plain name permits the subdomains of that name, on
/// every port or on the one that is given, and neither the name itself nor any
/// other.
pub proof fn law_a_wildcard_permits_subdomains_only(
    parent: Seq<char>,
    port: u16,
    d: Seq<char>,
    to: u16,
)
    requires
        plain_name(parent),
        parent.last() != '.',
    ensures
        ({
            let host = seq!['*', '.'] + parent;
            let any = rule_of(host);
            let one = rule_of(host + seq![':'] + decimal(port as nat));
            let b = AddrView::Domain(d, to);
            let below = exists|label: Seq<char>|
                label.len() > 0 && normalized(d) == #[trigger] (label + seq!['.']) + lower(parent);
            &&& any is Ok
            &&& one is Ok
            &&& any->Ok_0.permits(b) <==> below
            &&& one->Ok_0.permits(b) <==> to == port && below
        }),
{
    let host = seq!['*', '.'] + parent;
    let digits = decimal(port as nat);
    let p = host + seq![':'] + digits;
    lemma_port_text(port);
    assert(!host.contains(':')) by {
        if host.contains(':') {
            let i = choose|i: int| 0 <= i < host.len() && host[i] == ':';
            assert(parent[i - 2] == ':');
            assert(parent.contains(parent[i - 2]));
        }
    }
    lemma_split_host_port(host, port);
    assert(p[0] == '*');
    assert(p.last() == digits.last());
    assert(host.last() == parent.last());
    lemma_trim_ends(p);
    lemma_trim_ends(host);
    assert(host.skip(2) =~= parent);
    assert(host.len() > 1);
    lemma_no_star_in_normalized(parent);
    law_names_are_compared_without_end_dots(parent, 0);
    assert(parent + Seq::new(0, |i: int| '.') =~= parent);
    law_subdomains_have_a_label_in_front(normalized(d), lower(parent));
}

/// A star permits every host, on every port or on the one that is given.
pub proof fn law_a_star_permits_every_host(port: u16, b: AddrView)
    ensures
        rule_of(seq!['*']) is Ok,
        rule_of(seq!['*'])->Ok_0.permits(b),
        rule_of(seq!['*', ':'] + decimal(port as nat)) is Ok,
        rule_of(seq!['*', ':'] + decimal(port as nat))->Ok_0.permits(b) <==> b.port() == port,
{
    let host = seq!['*'];
    let p = host + seq![':'] + decimal(port as nat);
    assert(p =~= seq!['*', ':'] + decimal(port as nat));
    lemma_port_text(port);
    assert(!host.contains(':'));
    lemma_split_host_port(host, port);
    assert(p[0] == '*');
    assert(p.last() == decimal(port as nat).last());
    lemma_trim_ends(p);
    lemma_trim_ends(host);
}

/// Patterns that are no rules: nothing at all, a host that is nothing, a star
/// that is neither the host nor its first label, a port that is no number.
pub proof fn law_bad_patterns_are_refused(s: Seq<char>, port: Seq<char>)
    ensures
        (forall|i: int| 0 <= i < s.len() ==> crate::text::is_space(#[trigger] s[i])) ==> rule_of(s)
            == Err::<RuleView, AllowError>(AllowError::Empty),
        s.len() > 0 && s[0] != '*' && ip_of(s) is None && !s.contains('/') && normalized(
            s,
        ).contains('*') ==> host_of(s) == Err::<HostView, AllowError>(AllowError::MisplacedStar),
        host_of(seq![]) == Err::<HostView, AllowError>(AllowError::EmptyHost),
        host_of(seq!['*', '.']) == Err::<HostView, AllowError>(AllowError::InvalidWildcard),
        s.len() > 0 && s[0] != '[' && !s.contains(':') && !port.contains(':') && parsed(
            port,
            0xffff,
        ) is None ==> split_pattern(s + seq![':'] + port) == Err::<
            (Seq<char>, Option<u16>),
            AllowError,
        >(AllowError::InvalidPort),
        !s.contains(']') ==> split_pattern(seq!['['] + s) == Err::<
            (Seq<char>, Option<u16>),
            AllowError,
        >(AllowError::UnclosedBracket),
{
    if forall|i: int| 0 <= i < s.len() ==> crate::text::is_space(#[trigger] s[i]) {
        crate::text::law_trimming_leaves_the_text(s, seq![], seq![]);
        assert(s + Seq::<char>::empty() + Seq::<char>::empty() =~= s);
    }
    crate::text::lemma_find(s, '/');
    if find(s, '/') < s.len() {
        assert(s.contains(s[find(s, '/')]));
    }
    if s == seq!['*'] {
        assert(s[0] == '*');
    }
    assert(seq!['*', '.'].skip(2) =~= Seq::<char>::empty());
    assert(normalized(Seq::<char>::empty()).len() == 0);
    assert(seq!['*', '.'].len() == 2);
    let p = s + seq![':'] + port;
    if s.len() > 0 && s[0] != '[' && !s.contains(':') && !port.contains(':') {
        crate::text::lemma_rfind(p, ':');
        assert(p[0] == s[0]);
        assert(p[s.len() as int] == ':');
        let i = rfind(p, ':');
        if i > s.len() {
            assert(p[i] == port[i - s.len() - 1]);
        }
        assert(p.take(i) =~= s);
        assert(p.skip(i + 1) =~= port);
    }
    let q = seq!['['] + s;
    assert(q.skip(1) =~= s);
    crate::text::lemma_find(s, ']');
    if find(s, ']') < s.len() {
        assert(s.contains(s[find(s, ']')]));
    }
}

/// A list that is not empty permits exactly what one of its rules permits, and
/// a rule nothing on another port than its own.
pub proof fn law_a_rule_is_needed(rules: Seq<RuleView>, addr: AddrView, i: int)
    requires
        0 <= i < rules.len(),
    ensures
        rules[i].permits(addr) ==> permitted(rules, addr),
        permitted(rules, addr) ==> exists|k: int|
            0 <= k < rules.len() && (#[trigger] rules[k]).permits(addr),
        rules[i].port matches Some(p) && p != addr.port() ==> !rules[i].permits(addr),
        rules[i].port is None ==> (rules[i].permits(addr) <==> rules[i].host.covers(addr)),
        rules[i].port == Some(addr.port()) ==> (rules[i].permits(addr)
            <==> rules[i].host.covers(addr)),
{
}

/// Two addresses share their first bits exactly when their whole bytes among
/// those are the same, and so is what the rest of them leaves of the next byte.
pub proof fn law_networks_are_prefixes(a: Seq<u8>, b: Seq<u8>, whole: nat, rest: u8)
    requires
        rest < 8,
        a.len() == b.len(),
        whole + (if rest > 0 {
            1int
        } else {
            0
        }) <= a.len(),
    ensures
        same_bits(a, b, 8 * whole + rest as nat) <==> {
            &&& a.take(whole as int) =~= b.take(whole as int)
            &&& rest > 0 ==> a[whole as int] >> ((8 - rest) as u8) == b[whole as int] >> ((8
                - rest) as u8)
        },
{
    let bits = 8 * whole + rest as nat;
    if same_bits(a, b, bits) {
        assert forall|k: int| 0 <= k < whole implies a[k] == b[k] by {
            assert forall|j: int| 0 <= j < 8 implies bit(a[k], j) == bit(b[k], j) by {
                let i = 8 * k + j;
                assert(i / 8 == k && i % 8 == j);
                assert(bit(a[i / 8], i % 8) == bit(b[i / 8], i % 8));
            }
            lemma_top_bits(a[k], b[k], 8);
        }
        if rest > 0 {
            let k = whole as int;
            assert forall|j: int| 0 <= j < rest implies bit(a[k], j) == bit(b[k], j) by {
                let i = 8 * k + j;
                assert(i / 8 == k && i % 8 == j);
                assert(bit(a[i / 8], i % 8) == bit(b[i / 8], i % 8));
            }
            lemma_top_bits(a[k], b[k], rest);
        }
    }
    if a.take(whole as int) =~= b.take(whole as int) && (rest > 0 ==> a[whole as int] >> ((8
        - rest) as u8) == b[whole as int] >> ((8 - rest) as u8)) {
        if rest > 0 {
            lemma_top_bits(a[whole as int], b[whole as int], rest);
        }
        assert forall|i: int| 0 <= i < bits implies #[trigger] bit(a[i / 8], i % 8) == bit(
            b[i / 8],
            i % 8,
        ) by {
            if i / 8 < whole {
                assert(a.take(whole as int)[i / 8] == b.take(whole as int)[i / 8]);
            } else {
                assert(i / 8 == whole);
                assert(i % 8 < rest);
            }
        }
    }
}

proof fn lemma_top_bits(x: u8, y: u8, n: u8)
    requires
        1 <= n <= 8,
    ensures
        (forall|j: int| 0 <= j < n ==> #[trigger] bit(x, j) == bit(y, j)) <==> x >> ((8 - n) as u8)
            == y >> ((8 - n) as u8),
        n == 8 ==> (x >> ((8 - n) as u8) == y >> ((8 - n) as u8) <==> x == y),
{
    assert(x >> 0u8 == x && y >> 0u8 == y) by (bit_vector);
    assert(x >> 7u8 == y >> 7u8 <==> ((x >> 7u8) & 1 == 1) == ((y >> 7u8) & 1 == 1)) by (bit_vector);
    assert(x >> 6u8 == y >> 6u8 <==> x >> 7u8 == y >> 7u8 && ((x >> 6u8) & 1 == 1) == ((y >> 6u8) & 1
        == 1)) by (bit_vector);
    assert(x >> 5u8 == y >> 5u8 <==> x >> 6u8 == y >> 6u8 && ((x >> 5u8) & 1 == 1) == ((y >> 5u8) & 1
        == 1)) by (bit_vector);
    assert(x >> 4u8 == y >> 4u8 <==> x >> 5u8 == y >> 5u8 && ((x >> 4u8) & 1 == 1) == ((y >> 4u8) & 1
        == 1)) by (bit_vector);
    assert(x >> 3u8 == y >> 3u8 <==> x >> 4u8 == y >> 4u8 && ((x >> 3u8) & 1 == 1) == ((y >> 3u8) & 1
        == 1)) by (bit_vector);
    assert(x >> 2u8 == y >> 2u8 <==> x >> 3u8 == y >> 3u8 && ((x >> 2u8) & 1 == 1) == ((y >> 2u8) & 1
        == 1)) by (bit_vector);
    assert(x >> 1u8 == y >> 1u8 <==> x >> 2u8 == y >> 2u8 && ((x >> 1u8) & 1 == 1) == ((y >> 1u8) & 1
        == 1)) by (bit_vector);
    assert(x >> 0u8 == y >> 0u8 <==> x >> 1u8 == y >> 1u8 && ((x >> 0u8) & 1 == 1) == ((y >> 0u8) & 1
        == 1)) by (bit_vector);
    assert(bit(x, 0) == ((x >> 7u8) & 1 == 1) && bit(y, 0) == ((y >> 7u8) & 1 == 1));
    assert(bit(x, 1) == ((x >> 6u8) & 1 == 1) && bit(y, 1) == ((y >> 6u8) & 1 == 1));
    assert(bit(x, 2) == ((x >> 5u8) & 1 == 1) && bit(y, 2) == ((y >> 5u8) & 1 == 1));
    assert(bit(x, 3) == ((x >> 4u8) & 1 == 1) && bit(y, 3) == ((y >> 4u8) & 1 == 1));
    assert(bit(x, 4) == ((x >> 3u8) & 1 == 1) && bit(y, 4) == ((y >> 3u8) & 1 == 1));
    assert(bit(x, 5) == ((x >> 2u8) & 1 == 1) && bit(y, 5) == ((y >> 2u8) & 1 == 1));
    assert(bit(x, 6) == ((x >> 1u8) & 1 == 1) && bit(y, 6) == ((y >> 1u8) & 1 == 1));
    assert(bit(x, 7) == ((x >> 0u8) & 1 == 1) && bit(y, 7) == ((y >> 0u8) & 1 == 1));
}

/// A pattern of an IPv4 address, a slash and a number of bits permits exactly
/// the addresses of the same kind that begin with those bits.
pub proof fn law_a_written_network_permits_its_addresses(o: Seq<u8>, bits: nat, b: AddrView)
    requires
        o.len() == 4,
        bits <= 32,
    ensures
        ({
            let p = ipv4_text(o) + seq!['/'] + decimal(bits);
            &&& rule_of(p) is Ok
            &&& rule_of(p)->Ok_0.permits(b) <==> (target_ip(b) matches Some(IpView::V4(x))
                && same_bits(x, o, bits))
        }),
{
    let text = ipv4_text(o);
    let digits = decimal(bits);
    let p = text + seq!['/'] + digits;
    law_ipv4_round_trip(o);
    lemma_ipv4_chars(o);
    crate::text::law_decimal_round_trip(bits, 32);
    crate::text::lemma_decimal(bits);
    assert forall|i: int| 0 <= i < digits.len() implies '0' <= #[trigger] digits[i] <= '9' by {
        assert(crate::text::digit_value(digits[i], 10) is Some);
    }
    assert(!p.contains(':')) by {
        if p.contains(':') {
            let i = choose|i: int| 0 <= i < p.len() && p[i] == ':';
            if i < text.len() {
                assert(text.contains(text[i]));
            } else if i > text.len() {
                assert(p[i] == digits[i - text.len() - 1]);
            }
        }
    }
    assert(p[0] == text[0]);
    assert(ip_char(text[0]));
    assert(p.last() == digits[digits.len() - 1]);
    lemma_trim_ends(p);
    lemma_split_host_port(p, 0);
    assert forall|j: int| 0 <= j < text.len() implies p[j] != '/' by {
        assert(ip_char(text[j]));
        assert(p[j] == text[j]);
    }
    crate::text::lemma_find_is(p, '/', text.len() as int);
    assert(p.take(text.len() as int) =~= text);
    assert(p.skip(text.len() as int + 1) =~= digits);
    if ip_of(p) is Some {
        crate::ip::law_addresses_hold_nothing_else(p, text.len() as int);
    }
    assert(p.len() > 1);
}

} // verus!
