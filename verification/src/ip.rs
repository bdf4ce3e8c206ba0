//! IP addresses in text form.

use vstd::prelude::*;
use vstd::slice::slice_subrange;

use crate::addr::first_16;
use crate::bigendian::be;
use crate::text::{
    all_digits, decimal, digit_char, digit_value, find, joined_with, law_the_whole_has_its_parts,
    lemma_find, lemma_split_first, lemma_split_last, lemma_split_whole, number, number_of, numeral,
    push_decimal, push_numeral, push_text, split, split_chars, texts,
};

verus! {

/// An IP address.
#[derive(Debug, Clone, Copy, PartialEq, Eq)]
pub enum Ip {
    V4([u8; 4]),
    V6([u8; 16]),
}

/// What an IP address stands for: its bytes, most significant first.
#[verifier::ext_equal]
pub enum IpView {
    V4(Seq<u8>),
    V6(Seq<u8>),
}

impl View for Ip {
    type V = IpView;

    open spec fn view(&self) -> IpView {
        match self {
            Ip::V4(o) => IpView::V4(o@),
            Ip::V6(o) => IpView::V6(o@),
        }
    }
}

/// Whether a text is one part of a dotted address: one to three digits, no
/// leading zero, at most 255.
pub open spec fn is_octet(p: Seq<char>) -> bool {
    &&& 1 <= p.len() <= 3
    &&& p.len() > 1 ==> p[0] != '0'
    &&& all_digits(p, 10)
    &&& number(p, 10) <= 255
}

/// The address that a dotted text denotes.
pub open spec fn ipv4_of(s: Seq<char>) -> Option<Seq<u8>> {
    let p = split(s, '.');
    if p.len() == 4 && is_octet(p[0]) && is_octet(p[1]) && is_octet(p[2]) && is_octet(p[3]) {
        Some(
            seq![
                number(p[0], 10) as u8,
                number(p[1], 10) as u8,
                number(p[2], 10) as u8,
                number(p[3], 10) as u8,
            ],
        )
    } else {
        None
    }
}

/// Whether a text is one part of a colon-separated address: one to four
/// hexadecimal digits.
pub open spec fn is_group(p: Seq<char>) -> bool {
    1 <= p.len() <= 4 && all_digits(p, 16)
}

/// The bytes of several groups, two for each.
pub open spec fn group_bytes(parts: Seq<Seq<char>>) -> Seq<u8>
    decreases parts.len(),
{
    if parts.len() == 0 {
        seq![]
    } else {
        group_bytes(parts.drop_last()) + be(number(parts.last(), 16), 2)
    }
}

/// Whether all parts are groups.
pub open spec fn all_groups(parts: Seq<Seq<char>>) -> bool {
    forall|i: int| 0 <= i < parts.len() ==> is_group(#[trigger] parts[i])
}

/// The bytes of a run of groups with single colons between them, the last of
/// which may be a dotted address where that is permitted.
pub open spec fn run_of(s: Seq<char>, dotted_last: bool) -> Option<Seq<u8>> {
    let p = split(s, ':');
    if s.len() == 0 {
        Some(seq![])
    } else if dotted_last && ipv4_of(p.last()) is Some && all_groups(p.drop_last()) {
        Some(group_bytes(p.drop_last()) + ipv4_of(p.last())->0)
    } else if all_groups(p) {
        Some(group_bytes(p))
    } else {
        None
    }
}

/// Where two colons first stand side by side, or the length.
pub open spec fn double_colon(s: Seq<char>) -> int
    decreases s.len(),
{
    if s.len() < 2 {
        s.len() as int
    } else if s[0] == ':' && s[1] == ':' {
        0
    } else {
        1 + double_colon(s.drop_first())
    }
}

/// The address that a colon-separated text denotes. Two colons side by side
/// stand for one group of zeros or more.
pub open spec fn ipv6_of(s: Seq<char>) -> Option<Seq<u8>> {
    let i = double_colon(s);
    if i >= s.len() {
        match run_of(s, true) {
            Some(b) => if b.len() == 16 {
                Some(b)
            } else {
                None
            },
            None => None,
        }
    } else {
        match (run_of(s.take(i), false), run_of(s.skip(i + 2), true)) {
            (Some(head), Some(tail)) => if head.len() + tail.len() <= 14 {
                Some(head + Seq::new((16 - head.len() - tail.len()) as nat, |k: int| 0u8) + tail)
            } else {
                None
            },
            _ => None,
        }
    }
}

/// The address that a text denotes, in either form.
pub open spec fn ip_of(s: Seq<char>) -> Option<IpView> {
    match ipv4_of(s) {
        Some(o) => Some(IpView::V4(o)),
        None => match ipv6_of(s) {
            Some(o) => Some(IpView::V6(o)),
            None => None,
        },
    }
}

fn octet(p: &[char]) -> (r: Option<u8>)
    ensures
        match r {
            Some(n) => is_octet(p@) && n == number(p@, 10),
            None => !is_octet(p@),
        },
{
    if p.len() < 1 || p.len() > 3 {
        return None;
    }
    if p.len() > 1 && p[0] == '0' {
        return None;
    }
    match number_of(p, 10, 255) {
        Some(n) => Some(n as u8),
        None => None,
    }
}

/// Reads a dotted address.
pub fn parse_ipv4(s: &[char]) -> (r: Option<[u8; 4]>)
    ensures
        match r {
            Some(o) => ipv4_of(s@) == Some(o@),
            None => ipv4_of(s@) is None,
        },
{
    let p = split_chars(s, '.');
    if p.len() != 4 {
        return None;
    }
    match (
        octet(p[0].as_slice()),
        octet(p[1].as_slice()),
        octet(p[2].as_slice()),
        octet(p[3].as_slice()),
    ) {
        (Some(a), Some(b), Some(c), Some(d)) => {
            let o: [u8; 4] = [a, b, c, d];
            assert(o@ =~= seq![a, b, c, d]);
            Some(o)
        },
        _ => None,
    }
}

proof fn lemma_group_bound(p: Seq<char>)
    requires
        is_group(p),
    ensures
        number(p, 16) < 0x1_0000,
{
    reveal_with_fuel(number, 5);
    assert forall|i: int| 0 <= i < p.len() implies crate::text::digit_value(p[i], 16)->0 < 16 by {
        assert(crate::text::digit_value(p[i], 16) is Some);
    }
    if p.len() > 1 {
        assert(p.drop_last().last() == p[p.len() - 2]);
    }
    if p.len() > 2 {
        assert(p.drop_last().drop_last().last() == p[p.len() - 3]);
    }
    if p.len() > 3 {
        assert(p.drop_last().drop_last().drop_last().last() == p[p.len() - 4]);
    }
}

/// The bytes of the first `n` parts, where they are groups.
fn groups(parts: &Vec<Vec<char>>, n: usize) -> (r: Option<Vec<u8>>)
    requires
        n <= parts@.len(),
    ensures
        match r {
            Some(b) => all_groups(texts(parts@).take(n as int)) && b@ == group_bytes(
                texts(parts@).take(n as int),
            ),
            None => !all_groups(texts(parts@).take(n as int)),
        },
{
    let mut out: Vec<u8> = Vec::new();
    let mut i: usize = 0;
    let ghost all = texts(parts@);
    assert(all.take(0) =~= Seq::<Seq<char>>::empty());
    while i < n
        invariant
            i <= n <= parts@.len(),
            all == texts(parts@),
            all_groups(all.take(i as int)),
            out@ == group_bytes(all.take(i as int)),
        decreases n - i,
    {
        let p = parts[i].as_slice();
        assert(p@ == all[i as int]);
        assert(all.take(n as int)[i as int] == all[i as int]);
        if p.len() < 1 || p.len() > 4 {
            return None;
        }
        match number_of(p, 16, 0xffff) {
            None => {
                proof {
                    if is_group(p@) {
                        lemma_group_bound(p@);
                    }
                }
                return None;
            },
            Some(v) => {
                let ghost before = out@;
                out.push((v / 256) as u8);
                out.push((v % 256) as u8);
                proof {
                    reveal_with_fuel(be, 3);
                    assert(be(v as nat, 2) =~= seq![(v / 256) as u8, (v % 256) as u8]);
                    assert(all.take(i + 1).drop_last() =~= all.take(i as int));
                    assert(out@ =~= before + be(v as nat, 2));
                    assert forall|k: int| 0 <= k < i + 1 implies is_group(
                        #[trigger] all.take(i + 1)[k],
                    ) by {
                        if k < i {
                            assert(is_group(all.take(i as int)[k]));
                        }
                    }
                }
            },
        }
        i = i + 1;
    }
    Some(out)
}

fn run(s: &[char], dotted_last: bool) -> (r: Option<Vec<u8>>)
    ensures
        match r {
            Some(b) => run_of(s@, dotted_last) == Some(b@),
            None => run_of(s@, dotted_last) is None,
        },
{
    if s.len() == 0 {
        return Some(Vec::new());
    }
    let p = split_chars(s, ':');
    let ghost all = texts(p@);
    proof {
        lemma_split_nonempty(s@, ':');
        assert(all.take(all.len() as int) =~= all);
        assert(all.take(all.len() - 1) =~= all.drop_last());
    }
    let n: usize = p.len();
    if dotted_last {
        match (parse_ipv4(p[n - 1].as_slice()), groups(&p, n - 1)) {
            (Some(o), Some(mut b)) => {
                let ghost head = b@;
                b.extend_from_slice(o.as_slice());
                assert(b@ =~= head + o@);
                return Some(b);
            },
            _ => {},
        }
    }
    groups(&p, n)
}

proof fn lemma_split_nonempty(s: Seq<char>, sep: char)
    ensures
        split(s, sep).len() >= 1,
{
}

proof fn lemma_double_colon(s: Seq<char>)
    ensures
        0 <= double_colon(s) <= s.len(),
        double_colon(s) < s.len() ==> double_colon(s) + 2 <= s.len(),
    decreases s.len(),
{
    if s.len() >= 2 && !(s[0] == ':' && s[1] == ':') {
        lemma_double_colon(s.drop_first());
    }
}

fn find_double_colon(s: &[char]) -> (r: usize)
    ensures
        r == double_colon(s@),
{
    let mut i: usize = 0;
    let n: usize = s.len();
    assert(s@.skip(0) =~= s@);
    while i < n && n - i >= 2
        invariant
            i <= n == s@.len(),
            double_colon(s@) == i + double_colon(s@.skip(i as int)),
        decreases s@.len() - i,
    {
        assert(s@.skip(i as int)[0] == s@[i as int]);
        assert(s@.skip(i as int)[1] == s@[i + 1]);
        if s[i] == ':' && s[i + 1] == ':' {
            return i;
        }
        assert(s@.skip(i as int).drop_first() =~= s@.skip(i + 1));
        i = i + 1;
    }
    n
}

/// Reads a colon-separated address.
pub fn parse_ipv6(s: &[char]) -> (r: Option<[u8; 16]>)
    ensures
        match r {
            Some(o) => ipv6_of(s@) == Some(o@),
            None => ipv6_of(s@) is None,
        },
{
    let i: usize = find_double_colon(s);
    proof {
        lemma_double_colon(s@);
    }
    if i >= s.len() {
        match run(s, true) {
            Some(b) => {
                if b.len() == 16 {
                    assert(b@.take(16) =~= b@);
                    Some(first_16(b.as_slice()))
                } else {
                    None
                }
            },
            None => None,
        }
    } else {
        let front = slice_subrange(s, 0, i);
        let back = slice_subrange(s, i + 2, s.len());
        assert(front@ =~= s@.take(i as int));
        assert(back@ =~= s@.skip(i + 2));
        match (run(front, false), run(back, true)) {
            (Some(mut head), Some(tail)) => {
                let ghost h = head@;
                if head.len() > 14 || tail.len() > 14 - head.len() {
                    return None;
                }
                let fill: usize = 16 - tail.len();
                while head.len() < fill
                    invariant
                        h.len() <= head@.len() <= fill,
                        fill == 16 - tail@.len(),
                        head@ =~= h + Seq::new((head@.len() - h.len()) as nat, |k: int| 0u8),
                    decreases fill - head@.len(),
                {
                    head.push(0);
                }
                head.extend_from_slice(tail.as_slice());
                assert(head@ =~= h + Seq::new((16 - h.len() - tail@.len()) as nat, |k: int| 0u8)
                    + tail@);
                assert(head@.take(16) =~= head@);
                Some(first_16(head.as_slice()))
            },
            _ => None,
        }
    }
}

/// Reads an address in either form.
pub fn parse_ip(s: &[char]) -> (r: Option<Ip>)
    ensures
        match r {
            Some(ip) => ip_of(s@) == Some(ip@),
            None => ip_of(s@) is None,
        },
{
    match parse_ipv4(s) {
        Some(o) => Some(Ip::V4(o)),
        None => match parse_ipv6(s) {
            Some(o) => Some(Ip::V6(o)),
            None => None,
        },
    }
}

/// A dotted address.
pub open spec fn ipv4_text(o: Seq<u8>) -> Seq<char> {
    decimal(o[0] as nat) + seq!['.'] + decimal(o[1] as nat) + seq!['.'] + decimal(o[2] as nat)
        + seq!['.'] + decimal(o[3] as nat)
}

/// Group `i` of a colon-separated address.
pub open spec fn segment(o: Seq<u8>, i: int) -> nat {
    (o[2 * i] * 256 + o[2 * i + 1]) as nat
}

/// How many groups of zeros stand side by side from group `i` on.
pub open spec fn zero_run(o: Seq<u8>, i: int) -> nat
    decreases 8 - i,
{
    if i < 0 || i >= 8 || segment(o, i) != 0 {
        0
    } else {
        1 + zero_run(o, i + 1)
    }
}

/// Where the longest run of zero groups starts among the first `n` groups,
/// the first of them where there are several.
pub open spec fn longest_run(o: Seq<u8>, n: int) -> int
    decreases n,
{
    if n <= 1 {
        0
    } else if zero_run(o, n - 1) > zero_run(o, longest_run(o, n - 1)) {
        n - 1
    } else {
        longest_run(o, n - 1)
    }
}

/// The groups `from..to` in hexadecimal with colons between them.
pub open spec fn hex_groups(o: Seq<u8>, from: int, to: int) -> Seq<char>
    decreases to - from,
{
    if from >= to {
        seq![]
    } else if from == to - 1 {
        numeral(segment(o, from), 16)
    } else {
        hex_groups(o, from, to - 1) + seq![':'] + numeral(segment(o, to - 1), 16)
    }
}

/// Whether the address stands for an IPv4 address.
pub open spec fn is_mapped(o: Seq<u8>) -> bool {
    &&& forall|i: int| 0 <= i < 10 ==> #[trigger] o[i] == 0
    &&& o[10] == 0xff
    &&& o[11] == 0xff
}

/// A colon-separated address: the longest run of zero groups, if it has more
/// than one, as two colons, and an IPv4 address in its dotted form.
pub open spec fn ipv6_text(o: Seq<u8>) -> Seq<char> {
    let at = longest_run(o, 8);
    let n = zero_run(o, at);
    if is_mapped(o) {
        "::ffff:"@ + ipv4_text(o.skip(12))
    } else if n > 1 {
        hex_groups(o, 0, at) + "::"@ + hex_groups(o, at + n, 8)
    } else {
        hex_groups(o, 0, 8)
    }
}

/// Appends a dotted address.
pub(crate) fn push_ipv4(out: &mut Vec<char>, o: &[u8])
    requires
        o@.len() >= 4,
    ensures
        final(out)@ == old(out)@ + ipv4_text(o@),
{
    push_decimal(out, o[0] as u64);
    out.push('.');
    push_decimal(out, o[1] as u64);
    out.push('.');
    push_decimal(out, o[2] as u64);
    out.push('.');
    push_decimal(out, o[3] as u64);
    assert(out@ =~= old(out)@ + ipv4_text(o@));
}

fn segment_of(o: &[u8; 16], i: usize) -> (r: u64)
    requires
        i < 8,
    ensures
        r == segment(o@, i as int),
{
    o[2 * i] as u64 * 256 + o[2 * i + 1] as u64
}

fn zero_run_of(o: &[u8; 16], i: usize) -> (r: usize)
    requires
        i <= 8,
    ensures
        r == zero_run(o@, i as int),
        i + r <= 8,
    decreases 8 - i,
{
    if i >= 8 || segment_of(o, i) != 0 {
        0
    } else {
        1 + zero_run_of(o, i + 1)
    }
}

fn push_groups(out: &mut Vec<char>, o: &[u8; 16], from: usize, to: usize)
    requires
        from <= to <= 8,
    ensures
        final(out)@ == old(out)@ + hex_groups(o@, from as int, to as int),
{
    let mut i: usize = from;
    assert(out@ =~= old(out)@ + hex_groups(o@, from as int, from as int));
    while i < to
        invariant
            from <= i <= to <= 8,
            out@ == old(out)@ + hex_groups(o@, from as int, i as int),
        decreases to - i,
    {
        if i > from {
            out.push(':');
        }
        push_numeral(out, segment_of(o, i), 16);
        assert(out@ =~= old(out)@ + hex_groups(o@, from as int, i + 1));
        i = i + 1;
    }
}

fn mapped(o: &[u8; 16]) -> (r: bool)
    ensures
        r == is_mapped(o@),
{
    let mut i: usize = 0;
    while i < 10
        invariant
            i <= 10,
            forall|k: int| 0 <= k < i ==> #[trigger] o@[k] == 0,
        decreases 10 - i,
    {
        if o[i] != 0 {
            assert(o@[i as int] != 0);
            return false;
        }
        i = i + 1;
    }
    o[10] == 0xff && o[11] == 0xff
}

/// Appends a colon-separated address.
pub(crate) fn push_ipv6(out: &mut Vec<char>, o: &[u8; 16])
    ensures
        final(out)@ == old(out)@ + ipv6_text(o@),
{
    if mapped(o) {
        push_text(out, "::ffff:");
        let tail = slice_subrange(o.as_slice(), 12, 16);
        assert(tail@ =~= o@.skip(12));
        push_ipv4(out, tail);
        assert(out@ =~= old(out)@ + ipv6_text(o@));
        return ;
    }
    let mut at: usize = 0;
    let mut n: usize = zero_run_of(o, 0);
    let mut i: usize = 1;
    while i < 8
        invariant
            1 <= i <= 8,
            at == longest_run(o@, i as int),
            n == zero_run(o@, at as int),
            at + n <= 8,
        decreases 8 - i,
    {
        let m: usize = zero_run_of(o, i);
        if m > n {
            at = i;
            n = m;
        }
        i = i + 1;
    }
    if n > 1 {
        push_groups(out, o, 0, at);
        push_text(out, "::");
        push_groups(out, o, at + n, 8);
    } else {
        push_groups(out, o, 0, 8);
    }
    assert(out@ =~= old(out)@ + ipv6_text(o@));
}

/// The characters of which addresses in text are made.
pub open spec fn ip_char(c: char) -> bool {
    '0' <= c <= '9' || 'a' <= c <= 'f' || c == ':' || c == '.'
}

/// What a number of at most 16 bits looks like in either radix.
proof fn lemma_short_numeral(n: nat, radix: nat)
    requires
        radix == 10 && n < 256 || radix == 16 && n < 0x1_0000,
    ensures
        ({
            let s = numeral(n, radix);
            &&& 1 <= s.len() <= 4
            &&& radix == 10 ==> s.len() <= 3
            &&& s.len() > 1 ==> s[0] != '0'
            &&& all_digits(s, radix)
            &&& number(s, radix) == n
            &&& !s.contains('.')
            &&& !s.contains(':')
            &&& forall|i: int| 0 <= i < s.len() ==> ip_char(#[trigger] s[i])
        }),
    decreases n,
{
    let s = numeral(n, radix);
    if n < radix {
        assert(s.drop_last() =~= Seq::<char>::empty());
        reveal_with_fuel(number, 2);
    } else {
        let head = numeral(n / radix, radix);
        if radix == 10 {
            assert(n / 10 < 26);
            reveal_with_fuel(numeral, 3);
        } else {
            reveal_with_fuel(numeral, 4);
        }
        lemma_short_numeral(n / radix, radix);
        assert(s == head.push(digit_char(n % radix)));
        assert(s.drop_last() =~= head);
        assert(s[0] == head[0]);
        if n / radix < radix {
            assert(head =~= seq![digit_char(n / radix)]);
        }
        assert forall|i: int| 0 <= i < s.len() implies (#[trigger] digit_value(s[i], radix)) is Some
            && ip_char(s[i]) && s[i] != '.' && s[i] != ':' by {
            if i < head.len() {
                assert(s[i] == head[i]);
                assert(head.contains(head[i]));
            }
        }
        assert(number(s, radix) == number(head, radix) * radix + n % radix);
        assert(n / radix * radix + n % radix == n) by (nonlinear_arith)
            requires
                radix > 0,
        ;
    }
}

/// A dotted address that is printed and read again is the same address.
pub proof fn law_ipv4_round_trip(o: Seq<u8>)
    requires
        o.len() == 4,
    ensures
        ipv4_of(ipv4_text(o)) == Some(o),
        ip_of(ipv4_text(o)) == Some(IpView::V4(o)),
{
    let a = decimal(o[0] as nat);
    let b = decimal(o[1] as nat);
    let c = decimal(o[2] as nat);
    let d = decimal(o[3] as nat);
    lemma_short_numeral(o[0] as nat, 10);
    lemma_short_numeral(o[1] as nat, 10);
    lemma_short_numeral(o[2] as nat, 10);
    lemma_short_numeral(o[3] as nat, 10);
    let dot = seq!['.'];
    lemma_split_whole(d, '.');
    lemma_split_first(c, d, '.');
    lemma_split_first(b, c + dot + d, '.');
    lemma_split_first(a, b + dot + (c + dot + d), '.');
    assert(ipv4_text(o) =~= a + dot + (b + dot + (c + dot + d)));
    let parts = split(ipv4_text(o), '.');
    assert(parts =~= seq![a, b, c, d]);
    assert(seq![
        number(a, 10) as u8,
        number(b, 10) as u8,
        number(c, 10) as u8,
        number(d, 10) as u8,
    ] =~= o);
}

/// The groups `from..to` in hexadecimal, one by one.
spec fn hex_parts(o: Seq<u8>, from: int, to: int) -> Seq<Seq<char>>
    decreases to - from,
{
    if from >= to {
        seq![]
    } else {
        hex_parts(o, from, to - 1).push(numeral(segment(o, to - 1), 16))
    }
}

/// Whether two colons stand side by side at `i`.
spec fn pair_at(s: Seq<char>, i: int) -> bool {
    0 <= i < s.len() - 1 && s[i] == ':' && s[i + 1] == ':'
}

proof fn lemma_double_colon_is(s: Seq<char>, at: int)
    requires
        0 <= at <= s.len(),
        at < s.len() ==> pair_at(s, at),
        forall|i: int| 0 <= i < at ==> !pair_at(s, i),
    ensures
        double_colon(s) == at,
    decreases s.len(),
{
    if s.len() >= 2 {
        if at == 0 {
            assert(pair_at(s, 0));
        } else {
            assert(!pair_at(s, 0));
            let t = s.drop_first();
            assert forall|i: int| 0 <= i < at - 1 implies !pair_at(t, i) by {
                assert(!pair_at(s, i + 1));
            }
            if at < s.len() {
                assert(pair_at(s, at));
            }
            lemma_double_colon_is(t, at - 1);
        }
    }
}

/// What several groups look like, and how they are read.
proof fn lemma_hex_groups(o: Seq<u8>, from: int, to: int, dotted_last: bool)
    requires
        o.len() == 16,
        0 <= from <= to <= 8,
    ensures
        ({
            let s = hex_groups(o, from, to);
            &&& run_of(s, dotted_last) == Some(o.subrange(2 * from, 2 * to))
            &&& from < to ==> s.len() > 0 && s[0] != ':' && s.last() != ':'
            &&& from == to ==> s.len() == 0
            &&& !s.contains('.')
            &&& forall|i: int| !pair_at(s, i)
            &&& forall|i: int| 0 <= i < s.len() ==> ip_char(#[trigger] s[i])
        }),
{
    let s = hex_groups(o, from, to);
    lemma_hex_parts(o, from, to);
    if from == to {
        assert(o.subrange(2 * from, 2 * to) =~= Seq::<u8>::empty());
    } else {
        let last = numeral(segment(o, to - 1), 16);
        lemma_short_numeral(segment(o, to - 1), 16);
        assert(split(s, ':').last() == last);
        lemma_split_whole(last, '.');
        assert(ipv4_of(last) is None);
    }
}

proof fn lemma_hex_parts(o: Seq<u8>, from: int, to: int)
    requires
        o.len() == 16,
        0 <= from <= to <= 8,
    ensures
        ({
            let s = hex_groups(o, from, to);
            &&& from < to ==> split(s, ':') == hex_parts(o, from, to)
            &&& hex_parts(o, from, to).len() == to - from
            &&& all_groups(hex_parts(o, from, to))
            &&& group_bytes(hex_parts(o, from, to)) == o.subrange(2 * from, 2 * to)
            &&& from < to ==> s.len() > 0 && s[0] != ':' && s.last() != ':'
            &&& !s.contains('.')
            &&& forall|i: int| !pair_at(s, i)
            &&& forall|i: int| 0 <= i < s.len() ==> ip_char(#[trigger] s[i])
        }),
    decreases to - from,
{
    let s = hex_groups(o, from, to);
    let parts = hex_parts(o, from, to);
    if from == to {
        assert(o.subrange(2 * from, 2 * to) =~= Seq::<u8>::empty());
    } else {
        let head = hex_groups(o, from, to - 1);
        let last = numeral(segment(o, to - 1), 16);
        let before = hex_parts(o, from, to - 1);
        lemma_hex_parts(o, from, to - 1);
        lemma_short_numeral(segment(o, to - 1), 16);
        assert forall|i: int| 0 <= i < last.len() implies last[i] != ':' && last[i] != '.' by {
            assert(last.contains(last[i]));
        }
        if from == to - 1 {
            assert(s == last);
            lemma_split_whole(last, ':');
            assert(parts =~= seq![last]);
        } else {
            assert(s == head + seq![':'] + last);
            lemma_split_last(head, last, ':');
        }
        assert forall|i: int| 0 <= i < s.len() implies s[i] != '.' && ip_char(#[trigger] s[i]) by {
            if from < to - 1 && i < head.len() {
                assert(s[i] == head[i]);
                assert(head.contains(head[i]));
            } else if from < to - 1 && i > head.len() {
                assert(s[i] == last[i - head.len() - 1]);
            }
        }
        assert forall|i: int| !pair_at(s, i) by {
            if from < to - 1 && pair_at(s, i) {
                if i + 1 < head.len() {
                    assert(pair_at(head, i));
                } else if i + 1 == head.len() {
                    assert(s[i] == head.last());
                } else if i == head.len() {
                    assert(s[i + 1] == last[0]);
                } else {
                    assert(s[i] == last[i - head.len() - 1]);
                }
            }
        }
        assert forall|i: int| 0 <= i < parts.len() implies is_group(#[trigger] parts[i]) by {
            if i < parts.len() - 1 {
                assert(parts[i] == before[i]);
            }
        }
        assert(parts.drop_last() =~= before);
        let k = to - 1;
        lemma_segment_bytes(o, k);
        assert(o.subrange(2 * from, 2 * to) =~= o.subrange(2 * from, 2 * k) + seq![
            o[2 * k],
            o[2 * k + 1],
        ]);
    }
}

proof fn lemma_segment_bytes(o: Seq<u8>, i: int)
    ensures
        be(segment(o, i), 2) == seq![o[2 * i], o[2 * i + 1]],
{
    reveal_with_fuel(be, 3);
    assert(be(segment(o, i), 2) =~= seq![o[2 * i], o[2 * i + 1]]);
}

proof fn lemma_zero_run(o: Seq<u8>, i: int)
    requires
        o.len() == 16,
        0 <= i <= 8,
    ensures
        i + zero_run(o, i) <= 8,
        forall|k: int|
            2 * i <= k < 2 * (i + zero_run(o, i)) ==> #[trigger] o[k] == 0,
    decreases 8 - i,
{
    if i < 8 && segment(o, i) == 0 {
        lemma_zero_run(o, i + 1);
        assert(o[2 * i] == 0 && o[2 * i + 1] == 0);
    }
}

proof fn lemma_longest_run(o: Seq<u8>, n: int)
    requires
        0 <= n <= 8,
    ensures
        0 <= longest_run(o, n) < 8,
    decreases n,
{
    if n > 1 {
        lemma_longest_run(o, n - 1);
    }
}

/// A colon-separated address that is printed and read again is the same
/// address.
pub proof fn law_ipv6_round_trip(o: Seq<u8>)
    requires
        o.len() == 16,
    ensures
        ipv6_of(ipv6_text(o)) == Some(o),
        ip_of(ipv6_text(o)) == Some(IpView::V6(o)),
        forall|i: int|
            0 <= i < ipv6_text(o).len() ==> ip_char(#[trigger] ipv6_text(o)[i]),
        ipv6_text(o).len() > 0,
        ipv6_text(o).last() != '.',
{
    let s = ipv6_text(o);
    let at = longest_run(o, 8);
    let n = zero_run(o, at);
    lemma_longest_run(o, 8);
    lemma_zero_run(o, at);
    if is_mapped(o) {
        lemma_mapped_round_trip(o);
        lemma_mapped_text(o);
    } else if n > 1 {
        let a = hex_groups(o, 0, at);
        let b = hex_groups(o, at + n, 8);
        lemma_hex_groups(o, 0, at, false);
        lemma_hex_groups(o, at + n, 8, true);
        reveal_strlit("::");
        assert(s == a + "::"@ + b);
        assert(pair_at(s, a.len() as int));
        assert forall|i: int| 0 <= i < a.len() implies !pair_at(s, i) by {
            if i + 1 < a.len() {
                assert(!pair_at(a, i));
            } else {
                assert(s[i] == a.last());
            }
        }
        lemma_double_colon_is(s, a.len() as int);
        assert(s.take(a.len() as int) =~= a);
        assert(s.skip(a.len() as int + 2) =~= b);
        let head = o.subrange(0, 2 * at);
        let tail = o.subrange(2 * (at + n), 16);
        assert(head + Seq::new((16 - head.len() - tail.len()) as nat, |k: int| 0u8) + tail =~= o);
        assert forall|i: int| 0 <= i < s.len() implies ip_char(#[trigger] s[i]) && s[i]
            != '.' by {
            if i < a.len() {
                assert(s[i] == a[i]);
                assert(a.contains(a[i]));
            } else if i >= a.len() + 2 {
                assert(s[i] == b[i - a.len() - 2]);
                assert(b.contains(b[i - a.len() - 2]));
            }
        }
        lemma_split_whole(s, '.');
    } else {
        lemma_hex_groups(o, 0, 8, true);
        lemma_double_colon_is(s, s.len() as int);
        assert(o.subrange(0, 16) =~= o);
        assert(s.contains(s.last()));
        lemma_split_whole(s, '.');
    }
}

proof fn lemma_ffff(ffff: Seq<char>)
    requires
        ffff == seq!['f', 'f', 'f', 'f'],
    ensures
        is_group(ffff),
        group_bytes(seq![ffff]) == seq![0xffu8, 0xffu8],
{
    reveal_with_fuel(number, 5);
    assert(ffff.drop_last() =~= seq!['f', 'f', 'f']);
    assert(seq!['f', 'f', 'f'].drop_last() =~= seq!['f', 'f']);
    assert(seq!['f', 'f'].drop_last() =~= seq!['f']);
    assert(seq!['f'].drop_last() =~= Seq::<char>::empty());
    assert(number(ffff, 16) == 0xffff);
    assert(seq![ffff].drop_last() =~= Seq::<Seq<char>>::empty());
    reveal_with_fuel(group_bytes, 2);
    reveal_with_fuel(be, 3);
    assert(be(0xffff, 2) =~= seq![0xffu8, 0xffu8]);
    assert(group_bytes(seq![ffff]) =~= seq![0xffu8, 0xffu8]);
}

proof fn lemma_mapped_text(o: Seq<u8>)
    requires
        o.len() == 16,
        is_mapped(o),
    ensures
        ipv4_of(ipv6_text(o)) is None,
        forall|i: int|
            0 <= i < ipv6_text(o).len() ==> ip_char(#[trigger] ipv6_text(o)[i]),
        ipv6_text(o).len() > 0,
        ipv6_text(o).last() != '.',
{
    let s = ipv6_text(o);
    let v4 = o.skip(12);
    let dotted = ipv4_text(v4);
    reveal_strlit("::ffff:");
    lemma_ipv4_chars(v4);
    let a = decimal(v4[0] as nat);
    let rest = decimal(v4[1] as nat) + seq!['.'] + decimal(v4[2] as nat) + seq!['.'] + decimal(
        v4[3] as nat,
    );
    lemma_short_numeral(v4[0] as nat, 10);
    let first = "::ffff:"@ + a;
    assert(s =~= first + seq!['.'] + rest);
    assert forall|i: int| 0 <= i < first.len() implies first[i] != '.' by {
        if i >= 7 {
            assert(a.contains(a[i - 7]));
        }
    }
    lemma_split_first(first, rest, '.');
    assert(split(s, '.')[0] == first);
    assert(!is_octet(first));
    assert forall|i: int| 0 <= i < s.len() implies ip_char(#[trigger] s[i]) by {
        if i >= 7 {
            assert(s[i] == dotted[i - 7]);
        }
    }
    assert(s.last() == dotted.last());
}

proof fn lemma_mapped_round_trip(o: Seq<u8>)
    requires
        o.len() == 16,
        is_mapped(o),
    ensures
        ipv6_of(ipv6_text(o)) == Some(o),
{
    let s = ipv6_text(o);
    let v4 = o.skip(12);
    let dotted = ipv4_text(v4);
    reveal_strlit("::ffff:");
    law_ipv4_round_trip(v4);
    lemma_ipv4_chars(v4);
    assert(pair_at(s, 0));
    lemma_double_colon_is(s, 0);
    assert(s.take(0) =~= Seq::<char>::empty());
    let ffff = seq!['f', 'f', 'f', 'f'];
    assert(s.skip(2) =~= ffff + seq![':'] + dotted);
    lemma_split_whole(dotted, ':');
    lemma_split_first(ffff, dotted, ':');
    let p = split(s.skip(2), ':');
    assert(p =~= seq![ffff, dotted]);
    assert(p.drop_last() =~= seq![ffff]);
    lemma_ffff(ffff);
    assert(all_groups(seq![ffff]));
    let head = Seq::<u8>::empty();
    let tail = seq![0xffu8, 0xffu8] + v4;
    assert(run_of(s.skip(2), true) == Some(tail));
    assert(run_of(s.take(0), false) == Some(head));
    assert(head + Seq::new((16 - head.len() - tail.len()) as nat, |k: int| 0u8) + tail =~= o);
}

/// Of which characters a dotted address is made.
pub proof fn lemma_ipv4_chars(o: Seq<u8>)
    ensures
        ipv4_text(o).len() > 0,
        ipv4_text(o).last() != '.',
        !ipv4_text(o).contains(':'),
        forall|i: int|
            0 <= i < ipv4_text(o).len() ==> ip_char(#[trigger] ipv4_text(o)[i]),
{
    let s = ipv4_text(o);
    let a = decimal(o[0] as nat);
    let b = decimal(o[1] as nat);
    let c = decimal(o[2] as nat);
    let d = decimal(o[3] as nat);
    lemma_short_numeral(o[0] as nat, 10);
    lemma_short_numeral(o[1] as nat, 10);
    lemma_short_numeral(o[2] as nat, 10);
    lemma_short_numeral(o[3] as nat, 10);
    assert(s.last() == d.last());
    assert(d.contains(d.last()));
    assert forall|i: int| 0 <= i < s.len() implies ip_char(#[trigger] s[i]) && s[i]
        != ':' by {
        let j = a.len() as int;
        let k = j + 1 + b.len();
        let l = k + 1 + c.len();
        if i < j {
            assert(s[i] == a[i] && a.contains(a[i]));
        } else if j < i < k {
            assert(s[i] == b[i - j - 1] && b.contains(b[i - j - 1]));
        } else if k < i < l {
            assert(s[i] == c[i - k - 1] && c.contains(c[i - k - 1]));
        } else if l < i {
            assert(s[i] == d[i - l - 1] && d.contains(d[i - l - 1]));
        }
    }
}

proof fn lemma_char_in_parts(s: Seq<char>, sep: char, i: int)
    requires
        0 <= i < s.len(),
        s[i] != sep,
    ensures
        exists|k: int|
            0 <= k < split(s, sep).len() && (#[trigger] split(s, sep)[k]).contains(s[i]),
    decreases s.len(),
{
    lemma_find(s, sep);
    let at = find(s, sep);
    let parts = split(s, sep);
    if at >= s.len() {
        assert(parts[0] == s);
        assert(parts[0].contains(s[i]));
    } else if i < at {
        assert(parts[0] == s.take(at));
        assert(parts[0][i] == s[i]);
        assert(parts[0].contains(s[i]));
    } else {
        let rest = s.skip(at + 1);
        assert(rest[i - at - 1] == s[i]);
        lemma_char_in_parts(rest, sep, i - at - 1);
        let k = choose|k: int|
            0 <= k < split(rest, sep).len() && (#[trigger] split(rest, sep)[k]).contains(s[i]);
        assert(parts[k + 1] == split(rest, sep)[k]);
    }
}

/// The characters that an address may hold: hexadecimal digits, colons and
/// dots.
pub open spec fn address_char(c: char) -> bool {
    '0' <= c <= '9' || 'a' <= c <= 'f' || 'A' <= c <= 'F' || c == ':' || c == '.'
}

proof fn lemma_digits_are_address_chars(p: Seq<char>, radix: nat, c: char)
    requires
        all_digits(p, radix),
        radix <= 16,
        p.contains(c),
    ensures
        address_char(c),
{
    let j = choose|j: int| 0 <= j < p.len() && p[j] == c;
    assert(digit_value(p[j], radix) is Some);
}

proof fn lemma_ipv4_of_chars(s: Seq<char>, i: int)
    requires
        ipv4_of(s) is Some,
        0 <= i < s.len(),
    ensures
        address_char(s[i]),
{
    if s[i] != '.' {
        lemma_char_in_parts(s, '.', i);
        let k = choose|k: int|
            0 <= k < split(s, '.').len() && (#[trigger] split(s, '.')[k]).contains(s[i]);
        lemma_digits_are_address_chars(split(s, '.')[k], 10, s[i]);
    }
}

proof fn lemma_run_chars(s: Seq<char>, dotted_last: bool, i: int)
    requires
        run_of(s, dotted_last) is Some,
        0 <= i < s.len(),
    ensures
        address_char(s[i]),
{
    if s[i] != ':' {
        let p = split(s, ':');
        lemma_char_in_parts(s, ':', i);
        let k = choose|k: int| 0 <= k < p.len() && (#[trigger] p[k]).contains(s[i]);
        if k == p.len() - 1 && dotted_last && ipv4_of(p.last()) is Some {
            let j = choose|j: int| 0 <= j < p[k].len() && p[k][j] == s[i];
            lemma_ipv4_of_chars(p[k], j);
        } else {
            if dotted_last && ipv4_of(p.last()) is Some && all_groups(p.drop_last()) {
                assert(p.drop_last()[k] == p[k]);
                assert(is_group(p.drop_last()[k]));
            } else {
                assert(is_group(p[k]));
            }
            lemma_digits_are_address_chars(p[k], 16, s[i]);
        }
    }
}

proof fn lemma_double_colon_stands(s: Seq<char>)
    ensures
        double_colon(s) < s.len() ==> 0 <= double_colon(s) && double_colon(s) + 1 < s.len()
            && s[double_colon(s)] == ':' && s[double_colon(s) + 1] == ':',
    decreases s.len(),
{
    if s.len() >= 2 && !(s[0] == ':' && s[1] == ':') {
        lemma_double_colon_stands(s.drop_first());
    }
}

/// A text that is an address holds nothing but hexadecimal digits, colons and
/// dots.
pub proof fn law_addresses_hold_nothing_else(s: Seq<char>, i: int)
    requires
        ip_of(s) is Some,
        0 <= i < s.len(),
    ensures
        address_char(s[i]),
{
    if ipv4_of(s) is Some {
        lemma_ipv4_of_chars(s, i);
    } else {
        lemma_double_colon_stands(s);
        let at = double_colon(s);
        if at >= s.len() {
            lemma_run_chars(s, true, i);
        } else if i < at {
            assert(s.take(at)[i] == s[i]);
            lemma_run_chars(s.take(at), false, i);
        } else if i >= at + 2 {
            assert(s.skip(at + 2)[i - at - 2] == s[i]);
            lemma_run_chars(s.skip(at + 2), true, i - at - 2);
        }
    }
}

proof fn lemma_digits_without_leading_zero(p: Seq<char>)
    requires
        p.len() >= 1,
        p.len() > 1 ==> p[0] != '0',
        all_digits(p, 10),
    ensures
        decimal(number(p, 10)) == p,
        p[0] != '0' ==> number(p, 10) > 0,
    decreases p.len(),
{
    let d = digit_value(p.last(), 10)->0;
    assert(digit_value(p[p.len() - 1], 10) is Some);
    reveal_with_fuel(number, 2);
    if p.len() == 1 {
        assert(p.drop_last() =~= Seq::<char>::empty());
        assert(number(p, 10) == d);
        assert(decimal(d) =~= p);
    } else {
        let q = p.drop_last();
        assert forall|i: int| 0 <= i < q.len() implies (#[trigger] digit_value(q[i], 10)) is Some by {
            assert(digit_value(p[i], 10) is Some);
        }
        lemma_digits_without_leading_zero(q);
        let n = number(q, 10);
        assert(number(p, 10) == 10 * n + d);
        crate::text::law_decimal_is_written_digit_by_digit(n, d);
        assert(decimal(d) =~= seq![p.last()]);
        assert(q + seq![p.last()] =~= p);
    }
}

/// A dotted text denotes an address exactly when it is how that address is
/// written: four numbers of a byte each, without zeros in front.
pub proof fn law_ipv4_has_one_text(s: Seq<char>, o: Seq<u8>)
    requires
        o.len() == 4,
    ensures
        ipv4_of(s) == Some(o) <==> s == decimal(o[0] as nat) + seq!['.'] + decimal(o[1] as nat)
            + seq!['.'] + decimal(o[2] as nat) + seq!['.'] + decimal(o[3] as nat),
{
    law_ipv4_round_trip(o);
    let text = decimal(o[0] as nat) + seq!['.'] + decimal(o[1] as nat) + seq!['.'] + decimal(
        o[2] as nat,
    ) + seq!['.'] + decimal(o[3] as nat);
    assert(ipv4_text(o) =~= text);
    if ipv4_of(s) == Some(o) {
        let p = split(s, '.');
        crate::text::law_parts_make_the_whole(s, '.', 0);
        reveal_with_fuel(crate::text::joined_with, 5);
        assert(p.drop_first()[0] == p[1]);
        assert(p.drop_first().drop_first()[0] == p[2]);
        assert(p.drop_first().drop_first().drop_first()[0] == p[3]);
        lemma_digits_without_leading_zero(p[0]);
        lemma_digits_without_leading_zero(p[1]);
        lemma_digits_without_leading_zero(p[2]);
        lemma_digits_without_leading_zero(p[3]);
        assert(o[0] == number(p[0], 10));
        assert(o[1] == number(p[1], 10));
        assert(o[2] == number(p[2], 10));
        assert(o[3] == number(p[3], 10));
        assert(s =~= text);
    }
}

proof fn lemma_groups_hold_no_colon(groups: Seq<Seq<char>>)
    requires
        all_groups(groups),
    ensures
        forall|i: int| 0 <= i < groups.len() ==> !(#[trigger] groups[i]).contains(':'),
        forall|i: int| 0 <= i < groups.len() ==> !(#[trigger] groups[i]).contains('.'),
{
    assert forall|i: int| 0 <= i < groups.len() implies !(#[trigger] groups[i]).contains(':')
        && !groups[i].contains('.') by {
        let p = groups[i];
        assert(is_group(p));
        assert forall|j: int| 0 <= j < p.len() implies p[j] != ':' && p[j] != '.' by {
            assert(digit_value(p[j], 16) is Some);
        }
    }
}

proof fn lemma_joined_groups(groups: Seq<Seq<char>>)
    requires
        all_groups(groups),
        groups.len() > 0,
    ensures
        ({
            let s = joined_with(groups, ':');
            &&& s.len() > 0
            &&& s[0] != ':'
            &&& s.last() != ':'
            &&& forall|i: int| !pair_at(s, i)
            &&& !s.contains('.')
        }),
    decreases groups.len(),
{
    let s = joined_with(groups, ':');
    let p = groups[0];
    assert(is_group(p));
    lemma_groups_hold_no_colon(groups);
    assert forall|j: int| 0 <= j < p.len() implies p[j] != ':' && p[j] != '.' by {
        assert(p.contains(p[j]));
    }
    if groups.len() > 1 {
        let rest = groups.drop_first();
        assert forall|i: int| 0 <= i < rest.len() implies is_group(#[trigger] rest[i]) by {
            assert(is_group(groups[i + 1]));
        }
        lemma_joined_groups(rest);
        let t = joined_with(rest, ':');
        assert(s == p + seq![':'] + t);
        assert(s.last() == t.last());
        assert forall|i: int| !pair_at(s, i) by {
            if pair_at(s, i) {
                if i < p.len() {
                    assert(s[i] == p[i]);
                } else if i == p.len() {
                    assert(s[i + 1] == t[0]);
                } else {
                    assert(pair_at(t, i - p.len() - 1));
                }
            }
        }
        assert forall|i: int| 0 <= i < s.len() implies s[i] != '.' by {
            if i < p.len() {
                assert(s[i] == p[i]);
            } else if i > p.len() {
                assert(s[i] == t[i - p.len() - 1]);
                assert(t.contains(t[i - p.len() - 1]));
            }
        }
    }
}

proof fn lemma_run_of_groups(groups: Seq<Seq<char>>, dotted_last: bool)
    requires
        all_groups(groups),
    ensures
        run_of(joined_with(groups, ':'), dotted_last) == Some(group_bytes(groups)),
{
    let s = joined_with(groups, ':');
    if groups.len() == 0 {
        assert(s.len() == 0);
    } else {
        lemma_groups_hold_no_colon(groups);
        law_the_whole_has_its_parts(groups, ':');
        lemma_joined_groups(groups);
        assert(split(s, ':') == groups);
        let last = groups.last();
        assert(!groups[groups.len() - 1].contains('.'));
        lemma_split_whole(last, '.');
        assert(ipv4_of(last) is None);
    }
}

/// The bytes of several groups: two for each, the high one first.
pub proof fn law_groups_are_two_bytes_each(groups: Seq<Seq<char>>, i: int)
    requires
        all_groups(groups),
        0 <= i < groups.len(),
    ensures
        group_bytes(groups).len() == 2 * groups.len(),
        group_bytes(groups)[2 * i] * 256 + group_bytes(groups)[2 * i + 1] == number(groups[i], 16),
    decreases groups.len(),
{
    broadcast use crate::bigendian::lemma_be_len;

    let before = groups.drop_last();
    let last = groups.last();
    assert(is_group(groups[groups.len() - 1]));
    lemma_group_bound(last);
    crate::bigendian::law_two_bytes(number(last, 16), 0, 0);
    lemma_group_bytes_len(before);
    assert forall|k: int| 0 <= k < before.len() implies is_group(#[trigger] before[k]) by {
        assert(is_group(groups[k]));
    }
    if i < before.len() {
        law_groups_are_two_bytes_each(before, i);
        assert(before[i] == groups[i]);
    }
}

proof fn lemma_group_bytes_len(groups: Seq<Seq<char>>)
    ensures
        group_bytes(groups).len() == 2 * groups.len(),
    decreases groups.len(),
{
    broadcast use crate::bigendian::lemma_be_len;

    if groups.len() > 0 {
        lemma_group_bytes_len(groups.drop_last());
    }
}

/// Eight groups of hexadecimal digits with colons between them are an address.
/// Two colons side by side stand for as many groups of zeros as are missing,
/// one at least. Fewer groups without them, or more than fit, are none.
pub proof fn law_ipv6_is_read_by_its_groups(heads: Seq<Seq<char>>, tails: Seq<Seq<char>>)
    requires
        all_groups(heads),
        all_groups(tails),
    ensures
        ({
            let a = joined_with(heads, ':');
            let s = a + seq![':', ':'] + joined_with(tails, ':');
            let zeros = 16 - 2 * heads.len() - 2 * tails.len();
            &&& heads.len() == 8 ==> ipv6_of(a) == Some(group_bytes(heads))
            &&& heads.len() > 0 && heads.len() != 8 ==> ipv6_of(a) is None
            &&& zeros >= 2 ==> ipv6_of(s) == Some(
                group_bytes(heads) + Seq::new(zeros as nat, |k: int| 0u8) + group_bytes(tails),
            )
            &&& zeros < 2 ==> ipv6_of(s) is None
        }),
{
    let a = joined_with(heads, ':');
    let b = joined_with(tails, ':');
    let s = a + seq![':', ':'] + b;
    lemma_run_of_groups(heads, true);
    lemma_run_of_groups(heads, false);
    lemma_run_of_groups(tails, true);
    lemma_group_bytes_len(heads);
    lemma_group_bytes_len(tails);
    if heads.len() > 0 {
        lemma_joined_groups(heads);
        lemma_double_colon_is(a, a.len() as int);
    }
    assert(pair_at(s, a.len() as int));
    assert forall|i: int| 0 <= i < a.len() implies !pair_at(s, i) by {
        if i + 1 < a.len() {
            assert(!pair_at(a, i));
        } else {
            assert(s[i] == a.last());
        }
    }
    lemma_double_colon_is(s, a.len() as int);
    assert(s.take(a.len() as int) =~= a);
    assert(s.skip(a.len() as int + 2) =~= b);
}

proof fn lemma_zero_run_is(o: Seq<u8>, i: int, k: int)
    requires
        o.len() == 16,
        0 <= i,
        0 <= k,
        i + k <= 8,
        forall|j: int| i <= j < i + k ==> #[trigger] segment(o, j) == 0,
    ensures
        zero_run(o, i) >= k,
    decreases k,
{
    if k > 0 {
        assert(segment(o, i) == 0);
        lemma_zero_run_is(o, i + 1, k - 1);
    }
}

proof fn lemma_longest_run_is_longest(o: Seq<u8>, n: int, i: int)
    requires
        0 <= i < n <= 8,
    ensures
        longest_run(o, n) < n,
        zero_run(o, i) <= zero_run(o, longest_run(o, n)),
        i < longest_run(o, n) ==> zero_run(o, i) < zero_run(o, longest_run(o, n)),
    decreases n,
{
    if n > 1 {
        lemma_longest_run_is_longest(o, n - 1, 0);
        if i < n - 1 {
            lemma_longest_run_is_longest(o, n - 1, i);
        }
    }
}

proof fn lemma_run_segments(o: Seq<u8>, i: int, j: int)
    requires
        0 <= i <= j < i + zero_run(o, i),
        i + zero_run(o, i) <= 8,
    ensures
        segment(o, j) == 0,
    decreases j - i,
{
    if i < j {
        lemma_run_segments(o, i + 1, j);
    }
}

/// How an address of eight groups is written: the longest run of at least two
/// zero groups, the first of them where several are as long, as two colons, and
/// all other groups in between single colons. Where there is no such run all
/// groups are written. Addresses that stand for dotted ones are left out.
pub proof fn law_ipv6_is_written_short(o: Seq<u8>, b: int, k: int)
    requires
        o.len() == 16,
        !is_mapped(o),
        0 <= b,
        2 <= k,
        b + k <= 8,
    ensures
        ({
            let at = longest_run(o, 8);
            let n = zero_run(o, at);
            let zeros = forall|j: int| b <= j < b + k ==> #[trigger] segment(o, j) == 0;
            &&& zeros ==> {
                &&& n >= k
                &&& b < at ==> n > k
                &&& at + n <= 8
                &&& forall|j: int| at <= j < at + n ==> #[trigger] segment(o, j) == 0
                &&& ipv6_text(o) =~= hex_groups(o, 0, at) + seq![':', ':'] + hex_groups(
                    o,
                    at + n,
                    8,
                )
            }
            &&& n < 2 ==> ipv6_text(o) == hex_groups(o, 0, 8)
        }),
{
    reveal_strlit("::");
    let at = longest_run(o, 8);
    let n = zero_run(o, at);
    lemma_longest_run(o, 8);
    lemma_zero_run(o, at);
    if forall|j: int| b <= j < b + k ==> #[trigger] segment(o, j) == 0 {
        lemma_zero_run_is(o, b, k);
        lemma_longest_run_is_longest(o, 8, b);
        assert("::"@ =~= seq![':', ':']);
        assert forall|j: int| at <= j < at + n implies #[trigger] segment(o, j) == 0 by {
            lemma_run_segments(o, at, j);
        }
    }
}

/// Groups are written in hexadecimal with single colons between them, and an
/// address that stands for a dotted one ends with that.
pub proof fn law_groups_are_written_in_order(o: Seq<u8>, from: int, to: int)
    requires
        0 <= from < to <= 8,
    ensures
        hex_groups(o, from, from + 1) == numeral((o[2 * from] * 256 + o[2 * from + 1]) as nat, 16),
        from + 1 < to ==> hex_groups(o, from, to) == hex_groups(o, from, to - 1) + seq![':']
            + hex_groups(o, to - 1, to),
        is_mapped(o) ==> ipv6_text(o) == "::ffff:"@ + ipv4_text(o.skip(12)),
        is_mapped(o) <==> o[10] == 0xff && o[11] == 0xff && forall|i: int|
            0 <= i < 10 ==> #[trigger] o[i] == 0,
{
}

} // verus!
