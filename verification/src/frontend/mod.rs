//! The entry protocols, SOCKS5 and HTTP CONNECT, and what they share. They
//! know nothing of how a tunnel is built.

use vstd::prelude::*;
use vstd::utf8::encode_utf8;

use crate::addr::{law_addr_round_trip, parse_addr, AddrView};
use crate::ProtoError;

pub mod http;
pub mod socks5;

verus! {

/// How an I/O operation failed, as far as the proxy tells failures apart.
#[derive(Debug, Clone, Copy, PartialEq, Eq, Structural)]
pub enum IoFailure {
    ConnectionRefused,
    TimedOut,
    HostUnreachable,
    NetworkUnreachable,
    NetworkDown,
    PermissionDenied,
    ConnectionReset,
    BrokenPipe,
    NotConnected,
    UnexpectedEof,
    Other,
}

/// Why no upstream connection could be had.
#[derive(Debug, Clone, Copy, PartialEq, Eq, Structural)]
pub enum DialError {
    /// The target cannot be reached, or its name not be looked up.
    HostUnreachable,
    /// The target refused.
    ConnectionRefused,
    /// The tunnel as a whole is down.
    NetworkUnreachable,
    /// It took too long.
    TimedOut,
    /// A rule forbids it.
    Forbidden,
    /// Anything else.
    Internal,
}

impl DialError {
    /// The reason for people to read.
    pub open spec fn text(self) -> Seq<char> {
        match self {
            DialError::HostUnreachable => "host unreachable"@,
            DialError::ConnectionRefused => "connection refused"@,
            DialError::NetworkUnreachable => "network unreachable"@,
            DialError::TimedOut => "timed out"@,
            DialError::Forbidden => "forbidden by policy"@,
            DialError::Internal => "internal error"@,
        }
    }

    /// The reason behind a local failure.
    pub open spec fn behind(err: IoFailure) -> DialError {
        match err {
            IoFailure::ConnectionRefused => DialError::ConnectionRefused,
            IoFailure::TimedOut => DialError::TimedOut,
            IoFailure::HostUnreachable => DialError::HostUnreachable,
            IoFailure::NetworkUnreachable => DialError::NetworkUnreachable,
            IoFailure::NetworkDown => DialError::NetworkUnreachable,
            IoFailure::PermissionDenied => DialError::Forbidden,
            _ => DialError::Internal,
        }
    }

    /// The reason for people to read.
    pub fn as_str(self) -> (r: &'static str)
        ensures
            r@ == self.text(),
    {
        match self {
            DialError::HostUnreachable => "host unreachable",
            DialError::ConnectionRefused => "connection refused",
            DialError::NetworkUnreachable => "network unreachable",
            DialError::TimedOut => "timed out",
            DialError::Forbidden => "forbidden by policy",
            DialError::Internal => "internal error",
        }
    }

    /// The reason behind a local failure. Every dialer asks here, so that one
    /// failure looks the same through each entry protocol.
    pub fn from_io(err: &IoFailure) -> (r: DialError)
        ensures
            r == DialError::behind(*err),
    {
        match err {
            IoFailure::ConnectionRefused => DialError::ConnectionRefused,
            IoFailure::TimedOut => DialError::TimedOut,
            IoFailure::HostUnreachable => DialError::HostUnreachable,
            IoFailure::NetworkUnreachable => DialError::NetworkUnreachable,
            IoFailure::NetworkDown => DialError::NetworkUnreachable,
            IoFailure::PermissionDenied => DialError::Forbidden,
            _ => DialError::Internal,
        }
    }
}

/// What is wrong with a host name, if anything is.
pub open spec fn domain_fault(host: Seq<char>) -> Option<Seq<char>> {
    let bytes = encode_utf8(host);
    if host.len() == 0 {
        Some("empty host name"@)
    } else if bytes.len() > 255 {
        Some("host name longer than 255 bytes"@)
    } else if exists|i: int| 0 <= i < bytes.len() && !printable(#[trigger] bytes[i]) {
        Some("host name contains control characters"@)
    } else {
        None
    }
}

/// Whether a byte is neither a blank nor a control character.
pub open spec fn printable(b: u8) -> bool {
    b > 0x20 && b != 0x7f
}

/// A name without fault reaches the other end of the tunnel as it is.
pub proof fn law_accepted_names_survive_the_wire(host: Seq<char>, port: u16, rest: Seq<u8>)
    requires
        domain_fault(host) is None,
    ensures
        parse_addr(AddrView::Domain(host, port).wire() + rest) == Ok::<AddrView, ProtoError>(
            AddrView::Domain(host, port),
        ),
{
    if encode_utf8(host).len() == 0 {
        vstd::utf8::encode_utf8_decode_utf8(host);
        vstd::utf8::encode_utf8_decode_utf8(seq![]);
        assert(encode_utf8(host) =~= encode_utf8(seq![]));
    }
    law_addr_round_trip(AddrView::Domain(host, port), rest);
}

/// Refuses host names that cannot be passed on as they are: a name longer than
/// 255 bytes would be cut to another name on the wire.
pub fn validate_domain(host: &str) -> (r: Result<(), &'static str>)
    ensures
        match domain_fault(host@) {
            None => r is Ok,
            Some(text) => r matches Err(e) && e@ == text,
        },
{
    if host.is_empty() {
        return Err("empty host name");
    }
    let bytes = host.as_bytes();
    if bytes.len() > 255 {
        return Err("host name longer than 255 bytes");
    }
    let mut i: usize = 0;
    while i < bytes.len()
        invariant
            i <= bytes@.len(),
            bytes@ == encode_utf8(host@),
            0 < host@.len(),
            bytes@.len() <= 255,
            forall|k: int| 0 <= k < i ==> printable(#[trigger] bytes@[k]),
        decreases bytes@.len() - i,
    {
        if bytes[i] <= 0x20 || bytes[i] == 0x7f {
            assert(!printable(bytes@[i as int]));
            return Err("host name contains control characters");
        }
        i = i + 1;
    }
    Ok(())
}

/// Whether two byte strings are the same. Every byte is looked at, whatever
/// those before it were.
pub fn ct_eq(a: &[u8], b: &[u8]) -> (r: bool)
    ensures
        r == (a@ == b@),
{
    if a.len() != b.len() {
        return false;
    }
    let mut diff: u8 = 0;
    let mut i: usize = 0;
    assert(a@.take(0) =~= b@.take(0));
    while i < a.len()
        invariant
            i <= a@.len() == b@.len(),
            diff == 0 <==> a@.take(i as int) == b@.take(i as int),
        decreases a@.len() - i,
    {
        let x: u8 = a[i];
        let y: u8 = b[i];
        proof {
            assert((diff | (x ^ y)) == 0 <==> diff == 0 && x == y) by (bit_vector);
            assert(a@.take(i + 1) =~= a@.take(i as int).push(x));
            assert(b@.take(i + 1) =~= b@.take(i as int).push(y));
            if a@.take(i + 1) == b@.take(i + 1) {
                assert(a@.take(i as int) =~= a@.take(i + 1).drop_last());
                assert(b@.take(i as int) =~= b@.take(i + 1).drop_last());
                assert(a@.take(i + 1)[i as int] == x);
                assert(b@.take(i + 1)[i as int] == y);
            }
        }
        diff = diff | (x ^ y);
        i = i + 1;
    }
    assert(a@.take(i as int) =~= a@);
    assert(b@.take(i as int) =~= b@);
    diff == 0
}

/// What the copying between two streams came to. A peer that simply goes away
/// is the ordinary case and no failure.
pub open spec fn relayed(copied: Result<(u64, u64), IoFailure>) -> Result<(u64, u64), IoFailure> {
    match copied {
        Err(IoFailure::ConnectionReset) => Ok((0, 0)),
        Err(IoFailure::BrokenPipe) => Ok((0, 0)),
        Err(IoFailure::NotConnected) => Ok((0, 0)),
        other => other,
    }
}

/// What the copying between two streams came to.
pub fn relay_outcome(copied: Result<(u64, u64), IoFailure>) -> (r: Result<(u64, u64), IoFailure>)
    ensures
        r == relayed(copied),
{
    match copied {
        Ok(counts) => Ok(counts),
        Err(IoFailure::ConnectionReset) => Ok((0, 0)),
        Err(IoFailure::BrokenPipe) => Ok((0, 0)),
        Err(IoFailure::NotConnected) => Ok((0, 0)),
        Err(e) => Err(e),
    }
}

/// The pause after so many failures in a row, in milliseconds: it doubles from
/// 100 up to a limit of two seconds.
pub open spec fn accept_pause(failures: nat) -> nat
    decreases failures,
{
    if failures == 0 {
        50
    } else if failures > 6 || 2 * accept_pause((failures - 1) as nat) > 2000 {
        2000
    } else {
        2 * accept_pause((failures - 1) as nat)
    }
}

/// The failures of a listener to accept a connection.
#[derive(Debug)]
pub struct AcceptFailures {
    in_a_row: u32,
}

impl AcceptFailures {
    /// How many there were since the last success, as far as they are counted.
    pub closed spec fn count(self) -> nat {
        self.in_a_row as nat
    }

    pub fn new() -> (r: AcceptFailures)
        ensures
            r.count() == 0,
    {
        AcceptFailures { in_a_row: 0 }
    }

    /// Takes in that a connection was accepted.
    pub fn on_accept(&mut self)
        ensures
            final(self).count() == 0,
    {
        self.in_a_row = 0;
    }

    /// Takes in a failure. Returns how many milliseconds to wait.
    pub fn on_failure(&mut self) -> (r: u64)
        ensures
            final(self).count() == vstd::math::min(old(self).count() as int + 1, u32::MAX as int),
            r == accept_pause(final(self).count()),
    {
        if self.in_a_row < u32::MAX {
            self.in_a_row = self.in_a_row + 1;
        }
        let mut pause: u64 = 50;
        let mut i: u32 = 0;
        while i < self.in_a_row && i < 6
            invariant
                i <= self.in_a_row,
                i <= 6,
                self.in_a_row >= 1,
                self.in_a_row == vstd::math::min(old(self).count() as int + 1, u32::MAX as int),
                pause == accept_pause(i as nat),
                pause <= 2000,
            decreases 6 - i,
        {
            pause = pause * 2;
            if pause > 2000 {
                pause = 2000;
            }
            i = i + 1;
        }
        proof {
            reveal_with_fuel(accept_pause, 8);
        }
        pause
    }
}

/// A host name is passed on exactly when it is not empty, has at most 255
/// bytes, and none of them is a blank or a control character.
pub proof fn law_which_names_are_passed_on(host: Seq<char>)
    ensures
        domain_fault(host) is None <==> {
            &&& host.len() > 0
            &&& encode_utf8(host).len() <= 255
            &&& forall|i: int|
                0 <= i < encode_utf8(host).len() ==> 0x20 < #[trigger] encode_utf8(host)[i]
                    && encode_utf8(host)[i] != 0x7f
        },
{
    let bytes = encode_utf8(host);
    if exists|i: int| 0 <= i < bytes.len() && !printable(#[trigger] bytes[i]) {
        let i = choose|i: int| 0 <= i < bytes.len() && !printable(#[trigger] bytes[i]);
        assert(!(0x20 < bytes[i] && bytes[i] != 0x7f));
    } else {
        assert forall|i: int| 0 <= i < bytes.len() implies 0x20 < #[trigger] bytes[i] && bytes[i]
            != 0x7f by {
            assert(printable(bytes[i]));
        }
    }
}

/// Each failure that has a meaning to the client keeps it: only those without
/// one become an internal error.
pub proof fn law_failures_keep_their_meaning(e: IoFailure)
    ensures
        e is ConnectionRefused <==> DialError::behind(e) == DialError::ConnectionRefused,
        e is TimedOut <==> DialError::behind(e) == DialError::TimedOut,
        e is HostUnreachable <==> DialError::behind(e) == DialError::HostUnreachable,
        e is NetworkUnreachable || e is NetworkDown <==> DialError::behind(e)
            == DialError::NetworkUnreachable,
        e is PermissionDenied <==> DialError::behind(e) == DialError::Forbidden,
{
}

/// A relay fails exactly where something other than the peer's going away
/// ended it, and a success keeps its counts.
pub proof fn law_going_away_is_no_failure(copied: Result<(u64, u64), IoFailure>)
    ensures
        copied is Ok ==> relayed(copied) == copied,
        copied matches Err(e) ==> {
            if e is ConnectionReset || e is BrokenPipe || e is NotConnected {
                relayed(copied) is Ok
            } else {
                relayed(copied) == copied
            }
        },
{
}

/// The pause after a failed accept starts at a tenth of a second, doubles with
/// each further failure, and stays at two seconds.
pub proof fn law_pauses_double_up_to_two_seconds(n: nat)
    requires
        n >= 1,
    ensures
        accept_pause(1) == 100,
        accept_pause(n) <= 2000,
        accept_pause(n + 1) == if 2 * accept_pause(n) > 2000 {
            2000
        } else {
            2 * accept_pause(n)
        },
    decreases n,
{
    reveal_with_fuel(accept_pause, 3);
    if n > 1 {
        law_pauses_double_up_to_two_seconds((n - 1) as nat);
    }
    if n >= 6 {
        lemma_pause_is_full(n);
    }
}

proof fn lemma_pause_is_full(n: nat)
    requires
        n >= 6,
    ensures
        accept_pause(n) == 2000,
{
    reveal_with_fuel(accept_pause, 8);
}

} // verus!
