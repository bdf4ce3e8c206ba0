//! Text as sequences of characters: the conversions from and to `str` and
//! `String`, and the numerals that the library reads and prints.

use vstd::prelude::*;
use vstd::slice::{slice_subrange, slice_to_vec};
use vstd::utf8::{decode_utf8, valid_utf8};

verus! {

/// The text that `String::from_utf8_lossy` gives for some bytes.
pub uninterp spec fn utf8_lossy(bytes: Seq<u8>) -> Seq<char>;

/// `String::from_utf8` accepts exactly the valid UTF-8 sequences, and gives
/// the text that they encode.
#[verifier::external_body]
pub(crate) fn string_from_utf8(bytes: Vec<u8>) -> (r: Option<String>)
    ensures
        r is Some <==> valid_utf8(bytes@),
        r is Some ==> r->0@ == decode_utf8(bytes@),
{
    String::from_utf8(bytes).ok()
}

/// `String::from_utf8_lossy` gives one text for each byte sequence, and for
/// valid UTF-8 the text that it encodes.
#[verifier::external_body]
pub(crate) fn string_from_utf8_lossy(bytes: &[u8]) -> (r: String)
    ensures
        r@ == utf8_lossy(bytes@),
        valid_utf8(bytes@) ==> r@ == decode_utf8(bytes@),
{
    String::from_utf8_lossy(bytes).into_owned()
}

/// `String::from_iter` on characters gives the text made of them, in order.
#[verifier::external_body]
pub(crate) fn string_from_chars(chars: Vec<char>) -> (r: String)
    ensures
        r@ == chars@,
{
    String::from_iter(chars)
}

/// The characters of a text, in order.
pub(crate) fn chars_of(s: &str) -> (v: Vec<char>)
    ensures
        v@ == s@,
{
    let mut v: Vec<char> = Vec::new();
    for c in it: s.chars()
        invariant
            v@ == it.seq().take(it.index() as int),
            it.seq() == s@,
    {
        proof {
            assert(it.seq().take(it.index() + 1) =~= it.seq().take(it.index() as int).push(c));
        }
        v.push(c);
    }
    assert(v@ =~= s@);
    v
}

/// Appends a text.
pub(crate) fn push_text(out: &mut Vec<char>, s: &str)
    ensures
        final(out)@ == old(out)@ + s@,
{
    let mut v = chars_of(s);
    out.append(&mut v);
}

/// Text equality, character by character.
pub(crate) fn same_chars(a: &[char], b: &[char]) -> (r: bool)
    ensures
        r == (a@ == b@),
{
    if a.len() != b.len() {
        return false;
    }
    let mut i: usize = 0;
    while i < a.len()
        invariant
            i <= a.len(),
            a.len() == b.len(),
            a@.take(i as int) =~= b@.take(i as int),
        decreases a.len() - i,
    {
        if a[i] != b[i] {
            assert(a@[i as int] != b@[i as int]);
            return false;
        }
        assert(a@.take(i + 1) =~= a@.take(i as int).push(a@[i as int]));
        assert(b@.take(i + 1) =~= b@.take(i as int).push(b@[i as int]));
        i = i + 1;
    }
    assert(a@.take(i as int) =~= a@);
    assert(b@.take(i as int) =~= b@);
    true
}

/// The character for a digit below 16.
pub open spec fn digit_char(d: nat) -> char {
    if d < 10 {
        (48 + d) as char
    } else {
        (87 + d) as char
    }
}

/// A number written without leading zeros, in lower case.
pub open spec fn numeral(n: nat, radix: nat) -> Seq<char>
    decreases n,
{
    if radix < 2 || n < radix {
        seq![digit_char(n)]
    } else {
        proof {
            assert(n / radix < n) by (nonlinear_arith)
                requires
                    n >= radix,
                    radix >= 2,
            ;
        }
        numeral(n / radix, radix).push(digit_char(n % radix))
    }
}

/// A number in decimal.
pub open spec fn decimal(n: nat) -> Seq<char> {
    numeral(n, 10)
}

/// The value of a digit, `None` for any other character.
pub open spec fn digit_value(c: char, radix: nat) -> Option<nat> {
    let d: int = if '0' <= c <= '9' {
        c as int - 48
    } else if 'a' <= c <= 'f' {
        c as int - 87
    } else if 'A' <= c <= 'F' {
        c as int - 55
    } else {
        radix as int
    };
    if d < radix {
        Some(d as nat)
    } else {
        None
    }
}

/// Whether every character is a digit.
pub open spec fn all_digits(s: Seq<char>, radix: nat) -> bool {
    forall|i: int| 0 <= i < s.len() ==> (#[trigger] digit_value(s[i], radix)) is Some
}

/// The number that a sequence of digits denotes.
pub open spec fn number(s: Seq<char>, radix: nat) -> nat
    decreases s.len(),
{
    if s.len() == 0 {
        0
    } else {
        number(s.drop_last(), radix) * radix + digit_value(s.last(), radix)->0
    }
}

fn digit_of(d: u64) -> (c: char)
    requires
        d < 16,
    ensures
        c == digit_char(d as nat),
{
    let b: u8 = if d < 10 {
        48 + d as u8
    } else {
        87 + d as u8
    };
    b as char
}

/// Appends a number written in the given radix.
pub(crate) fn push_numeral(out: &mut Vec<char>, n: u64, radix: u64)
    requires
        2 <= radix <= 16,
    ensures
        final(out)@ == old(out)@ + numeral(n as nat, radix as nat),
    decreases n,
{
    if n < radix {
        out.push(digit_of(n));
        assert(out@ =~= old(out)@ + numeral(n as nat, radix as nat));
    } else {
        assert(n / radix < n) by (nonlinear_arith)
            requires
                n >= radix,
                radix >= 2,
        ;
        push_numeral(out, n / radix, radix);
        assert(n % radix < radix) by (nonlinear_arith)
            requires
                radix >= 2,
        ;
        out.push(digit_of(n % radix));
        assert(out@ =~= old(out)@ + numeral(n as nat, radix as nat));
    }
}

/// Appends a number in decimal.
pub(crate) fn push_decimal(out: &mut Vec<char>, n: u64)
    ensures
        final(out)@ == old(out)@ + decimal(n as nat),
{
    push_numeral(out, n, 10)
}

fn digit_value_of(c: char, radix: u32) -> (r: Option<u32>)
    ensures
        match r {
            Some(d) => digit_value(c, radix as nat) == Some(d as nat),
            None => digit_value(c, radix as nat) is None,
        },
        r matches Some(d) ==> d < 16,
{
    let v: u32 = c as u32;
    let d: u32 = if '0' <= c && c <= '9' {
        v - 48
    } else if 'a' <= c && c <= 'f' {
        v - 87
    } else if 'A' <= c && c <= 'F' {
        v - 55
    } else {
        return None;
    };
    if d < radix {
        Some(d)
    } else {
        None
    }
}

/// The value of an unsigned numeral, as `str::parse` takes it: digits, with an
/// optional plus sign in front, of a number that does not exceed `max`.
pub open spec fn parsed(s: Seq<char>, max: nat) -> Option<nat> {
    let digits = if s.len() > 0 && s[0] == '+' {
        s.skip(1)
    } else {
        s
    };
    if digits.len() > 0 && all_digits(digits, 10) && number(digits, 10) <= max {
        Some(number(digits, 10))
    } else {
        None
    }
}

proof fn lemma_number_grows(s: Seq<char>, i: int, radix: nat)
    requires
        0 <= i <= s.len(),
        radix >= 1,
    ensures
        number(s.take(i), radix) <= number(s, radix),
    decreases s.len(),
{
    if i == s.len() {
        assert(s.take(i) =~= s);
    } else {
        let t = s.drop_last();
        lemma_number_grows(t, i, radix);
        assert(t.take(i) =~= s.take(i));
        let n = number(t, radix);
        assert(n * radix >= n) by (nonlinear_arith)
            requires
                radix >= 1,
                n >= 0,
        ;
    }
}

/// The number that digits denote, where it does not exceed `max`.
pub(crate) fn number_of(s: &[char], radix: u32, max: u64) -> (r: Option<u64>)
    requires
        2 <= radix <= 16,
    ensures
        match r {
            Some(n) => all_digits(s@, radix as nat) && number(s@, radix as nat) == n && n <= max,
            None => !(all_digits(s@, radix as nat) && number(s@, radix as nat) <= max),
        },
{
    let mut n: u64 = 0;
    let mut i: usize = 0;
    assert(s@.take(0) =~= Seq::<char>::empty());
    while i < s.len()
        invariant
            i <= s@.len(),
            2 <= radix <= 16,
            n <= max,
            all_digits(s@.take(i as int), radix as nat),
            n == number(s@.take(i as int), radix as nat),
        decreases s@.len() - i,
    {
        let ghost done = s@.take(i as int);
        let ghost next = s@.take(i + 1);
        proof {
            assert(next.drop_last() =~= done);
            assert(next.last() == s@[i as int]);
        }
        match digit_value_of(s[i], radix) {
            None => {
                assert(digit_value(s@[i as int], radix as nat) is None);
                return None;
            },
            Some(d) => {
                assert(n * radix <= 0xffff_ffff_ffff_ffff * 16) by (nonlinear_arith)
                    requires
                        n <= 0xffff_ffff_ffff_ffff,
                        radix <= 16,
                ;
                let m: u128 = n as u128 * radix as u128 + d as u128;
                assert(m == number(next, radix as nat));
                if m > max as u128 {
                    proof {
                        lemma_number_grows(s@, i + 1, radix as nat);
                    }
                    return None;
                }
                n = m as u64;
                assert forall|k: int| 0 <= k < next.len() implies (#[trigger] digit_value(
                    next[k],
                    radix as nat,
                )) is Some by {
                    if k < i {
                        assert(next[k] == done[k]);
                    }
                }
            },
        }
        i = i + 1;
    }
    assert(s@.take(i as int) =~= s@);
    Some(n)
}

/// Reads an unsigned numeral of at most `max`.
pub(crate) fn parse_number(s: &[char], max: u64) -> (r: Option<u64>)
    ensures
        match r {
            Some(n) => parsed(s@, max as nat) == Some(n as nat) && n <= max,
            None => parsed(s@, max as nat) is None,
        },
{
    let digits = if s.len() > 0 && s[0] == '+' {
        let d = slice_subrange(s, 1, s.len());
        assert(d@ =~= s@.skip(1));
        d
    } else {
        s
    };
    if digits.len() == 0 {
        return None;
    }
    number_of(digits, 10, max)
}

/// Reads an unsigned numeral that fits 16 bits.
pub(crate) fn parse_u16(s: &[char]) -> (r: Option<u16>)
    ensures
        match r {
            Some(n) => parsed(s@, 0xffff) == Some(n as nat),
            None => parsed(s@, 0xffff) is None,
        },
{
    match parse_number(s, 0xffff) {
        Some(n) => Some(n as u16),
        None => None,
    }
}

pub proof fn lemma_decimal(n: nat)
    ensures
        decimal(n).len() > 0,
        all_digits(decimal(n), 10),
        number(decimal(n), 10) == n,
        decimal(n)[0] != '+',
    decreases n,
{
    let d = decimal(n);
    reveal_with_fuel(number, 2);
    if n < 10 {
        assert(d.drop_last() =~= Seq::<char>::empty());
        assert(number(d.drop_last(), 10) == 0);
    } else {
        lemma_decimal(n / 10);
        assert(d == decimal(n / 10).push(digit_char(n % 10)));
        assert(d.drop_last() =~= decimal(n / 10));
        assert(d[0] == decimal(n / 10)[0]);
        assert forall|i: int| 0 <= i < d.len() implies (#[trigger] digit_value(d[i], 10)) is Some by {
            if i < d.len() - 1 {
                assert(d[i] == decimal(n / 10)[i]);
            }
        }
    }
}

/// A number that is printed and read again is the same number.
pub proof fn law_decimal_round_trip(n: nat, max: nat)
    requires
        n <= max,
    ensures
        parsed(decimal(n), max) == Some(n),
{
    lemma_decimal(n);
}

/// Where `c` first stands in `s`, or the length of `s` where it does not.
pub open spec fn find(s: Seq<char>, c: char) -> int
    decreases s.len(),
{
    if s.len() == 0 || s[0] == c {
        0
    } else {
        1 + find(s.drop_first(), c)
    }
}

pub proof fn lemma_find(s: Seq<char>, c: char)
    ensures
        0 <= find(s, c) <= s.len(),
        forall|j: int| 0 <= j < find(s, c) ==> s[j] != c,
        find(s, c) < s.len() ==> s[find(s, c)] == c,
    decreases s.len(),
{
    if s.len() > 0 && s[0] != c {
        let t = s.drop_first();
        lemma_find(t, c);
        assert forall|j: int| 0 <= j < find(s, c) implies s[j] != c by {
            if j > 0 {
                assert(s[j] == t[j - 1]);
            }
        }
    }
}

pub proof fn lemma_find_is(s: Seq<char>, c: char, i: int)
    requires
        0 <= i <= s.len(),
        forall|j: int| 0 <= j < i ==> s[j] != c,
        i < s.len() ==> s[i] == c,
    ensures
        find(s, c) == i,
{
    lemma_find(s, c);
}

/// Where `c` first stands, or the length.
pub(crate) fn find_char(s: &[char], c: char) -> (r: usize)
    ensures
        r == find(s@, c),
        r <= s@.len(),
        r < s@.len() ==> s@[r as int] == c,
{
    let mut i: usize = 0;
    while i < s.len()
        invariant
            i <= s@.len(),
            forall|j: int| 0 <= j < i ==> s@[j] != c,
        decreases s@.len() - i,
    {
        if s[i] == c {
            proof {
                lemma_find_is(s@, c, i as int);
            }
            return i;
        }
        i = i + 1;
    }
    proof {
        lemma_find_is(s@, c, i as int);
    }
    i
}

/// Where `c` last stands in `s`, or -1 where it does not.
pub open spec fn rfind(s: Seq<char>, c: char) -> int
    decreases s.len(),
{
    if s.len() == 0 {
        -1
    } else if s.last() == c {
        s.len() - 1
    } else {
        rfind(s.drop_last(), c)
    }
}

pub proof fn lemma_rfind(s: Seq<char>, c: char)
    ensures
        -1 <= rfind(s, c) < s.len(),
        forall|j: int| rfind(s, c) < j < s.len() ==> s[j] != c,
        rfind(s, c) >= 0 ==> s[rfind(s, c)] == c,
    decreases s.len(),
{
    if s.len() > 0 && s.last() != c {
        let t = s.drop_last();
        lemma_rfind(t, c);
        assert forall|j: int| rfind(s, c) < j < s.len() implies s[j] != c by {
            if j < s.len() - 1 {
                assert(s[j] == t[j]);
            }
        }
    }
}

/// Where `c` last stands.
pub(crate) fn rfind_char(s: &[char], c: char) -> (r: Option<usize>)
    ensures
        match r {
            Some(i) => i == rfind(s@, c) && i < s@.len(),
            None => rfind(s@, c) == -1,
        },
{
    let mut i: usize = s.len();
    proof {
        lemma_rfind(s@, c);
    }
    while i > 0
        invariant
            i <= s@.len(),
            forall|j: int| i <= j < s@.len() ==> s@[j] != c,
            -1 <= rfind(s@, c) < s@.len(),
            forall|j: int| rfind(s@, c) < j < s@.len() ==> s@[j] != c,
            rfind(s@, c) >= 0 ==> s@[rfind(s@, c)] == c,
        decreases i,
    {
        if s[i - 1] == c {
            return Some(i - 1);
        }
        i = i - 1;
    }
    None
}

/// The parts of `s` between the separators, which are one more than those.
pub open spec fn split(s: Seq<char>, sep: char) -> Seq<Seq<char>>
    decreases s.len(),
{
    let i = find(s, sep);
    if i < 0 || i >= s.len() {
        seq![s]
    } else {
        seq![s.take(i)] + split(s.skip(i + 1), sep)
    }
}

/// A text without the separator is its only part.
pub proof fn lemma_split_whole(s: Seq<char>, sep: char)
    requires
        !s.contains(sep),
    ensures
        split(s, sep) == seq![s],
{
    lemma_find(s, sep);
}

/// What stands in front of the first separator is the first part.
pub proof fn lemma_split_first(a: Seq<char>, b: Seq<char>, sep: char)
    requires
        !a.contains(sep),
    ensures
        split(a + seq![sep] + b, sep) == seq![a] + split(b, sep),
{
    let s = a + seq![sep] + b;
    assert forall|j: int| 0 <= j < a.len() implies s[j] != sep by {
        assert(s[j] == a[j]);
    }
    lemma_find_is(s, sep, a.len() as int);
    assert(s.take(a.len() as int) =~= a);
    assert(s.skip(a.len() as int + 1) =~= b);
}

/// What stands behind the last separator is the last part.
pub proof fn lemma_split_last(a: Seq<char>, b: Seq<char>, sep: char)
    requires
        !b.contains(sep),
    ensures
        split(a + seq![sep] + b, sep) == split(a, sep).push(b),
    decreases a.len(),
{
    lemma_find(a, sep);
    let i = find(a, sep);
    if i >= a.len() {
        assert(!a.contains(sep));
        lemma_split_first(a, b, sep);
        lemma_split_whole(b, sep);
        assert(seq![a] + seq![b] =~= seq![a].push(b));
    } else {
        let head = a.take(i);
        let rest = a.skip(i + 1);
        assert(!head.contains(sep));
        assert(a + seq![sep] + b =~= head + seq![sep] + (rest + seq![sep] + b));
        lemma_split_first(head, rest + seq![sep] + b, sep);
        lemma_split_last(rest, b, sep);
        assert(seq![head] + split(rest, sep).push(b) =~= (seq![head] + split(rest, sep)).push(b));
    }
}

/// The texts that a list of character vectors stands for.
pub open spec fn texts(v: Seq<Vec<char>>) -> Seq<Seq<char>> {
    v.map_values(|c: Vec<char>| c@)
}

/// The parts of `s` between the separators.
pub(crate) fn split_chars(s: &[char], sep: char) -> (r: Vec<Vec<char>>)
    ensures
        texts(r@) == split(s@, sep),
        r@.len() == split(s@, sep).len(),
        forall|i: int| 0 <= i < r@.len() ==> (#[trigger] r@[i])@ == split(s@, sep)[i],
{
    let mut out: Vec<Vec<char>> = Vec::new();
    let mut start: usize = 0;
    assert(s@.skip(0) =~= s@);
    assert(texts(out@) + split(s@, sep) =~= split(s@, sep));
    loop
        invariant_except_break
            start <= s@.len(),
            split(s@, sep) == texts(out@) + split(s@.skip(start as int), sep),
        ensures
            split(s@, sep) == texts(out@),
        decreases s@.len() - start,
    {
        let rest = slice_subrange(s, start, s.len());
        assert(rest@ =~= s@.skip(start as int));
        let i: usize = find_char(rest, sep);
        let ghost before = out@;
        let part = slice_to_vec(slice_subrange(rest, 0, i));
        assert(part@ =~= rest@.take(i as int));
        out.push(part);
        assert(texts(out@) =~= texts(before).push(part@));
        if i == rest.len() {
            assert(rest@.take(i as int) =~= rest@);
            assert(texts(out@) =~= texts(before) + seq![rest@]);
            break;
        }
        assert(rest@.skip(i + 1) =~= s@.skip(start + i + 1));
        assert(texts(before) + (seq![part@] + split(rest@.skip(i + 1), sep)) =~= texts(out@)
            + split(rest@.skip(i + 1), sep));
        start = start + i + 1;
    }
    out
}

/// The characters that Unicode calls white space.
pub open spec fn is_space(c: char) -> bool {
    let v = c as int;
    0x9 <= v <= 0xd || v == 0x20 || v == 0x85 || v == 0xa0 || v == 0x1680 || 0x2000 <= v <= 0x200a
        || v == 0x2028 || v == 0x2029 || v == 0x202f || v == 0x205f || v == 0x3000
}

pub(crate) fn space(c: char) -> (r: bool)
    ensures
        r == is_space(c),
{
    let v: u32 = c as u32;
    (0x9 <= v && v <= 0xd) || v == 0x20 || v == 0x85 || v == 0xa0 || v == 0x1680 || (0x2000 <= v
        && v <= 0x200a) || v == 0x2028 || v == 0x2029 || v == 0x202f || v == 0x205f || v == 0x3000
}

/// A text without white space in front.
pub open spec fn trim_start(s: Seq<char>) -> Seq<char>
    decreases s.len(),
{
    if s.len() > 0 && is_space(s[0]) {
        trim_start(s.drop_first())
    } else {
        s
    }
}

/// A text without white space behind.
pub open spec fn trim_end(s: Seq<char>) -> Seq<char>
    decreases s.len(),
{
    if s.len() > 0 && is_space(s.last()) {
        trim_end(s.drop_last())
    } else {
        s
    }
}

/// A text without white space around it.
pub open spec fn trim(s: Seq<char>) -> Seq<char> {
    trim_end(trim_start(s))
}

/// The text without white space around it.
pub(crate) fn trimmed(s: &[char]) -> (r: &[char])
    ensures
        r@ == trim(s@),
{
    let mut i: usize = 0;
    assert(s@.skip(0) =~= s@);
    while i < s.len() && space(s[i])
        invariant
            i <= s@.len(),
            trim_start(s@.skip(i as int)) == trim_start(s@),
        decreases s@.len() - i,
    {
        assert(s@.skip(i as int).drop_first() =~= s@.skip(i + 1));
        i = i + 1;
    }
    let front = slice_subrange(s, i, s.len());
    assert(front@ =~= s@.skip(i as int));
    let mut n: usize = front.len();
    assert(front@.take(n as int) =~= front@);
    while n > 0 && space(front[n - 1])
        invariant
            n <= front@.len(),
            trim_end(front@.take(n as int)) == trim_end(front@),
        decreases n,
    {
        assert(front@.take(n as int).drop_last() =~= front@.take(n - 1));
        n = n - 1;
    }
    let r = slice_subrange(front, 0, n);
    assert(r@ =~= front@.take(n as int));
    r
}

/// The lower case of an ASCII letter; any other character as it is.
pub open spec fn lower_char(c: char) -> char {
    if 'A' <= c <= 'Z' {
        (c as int + 32) as char
    } else {
        c
    }
}

/// A text with its ASCII letters in lower case.
pub open spec fn lower(s: Seq<char>) -> Seq<char> {
    s.map_values(|c: char| lower_char(c))
}

/// The text with its ASCII letters in lower case.
pub(crate) fn lowered(s: &[char]) -> (r: Vec<char>)
    ensures
        r@ == lower(s@),
{
    let mut r: Vec<char> = Vec::new();
    let mut i: usize = 0;
    while i < s.len()
        invariant
            i <= s@.len(),
            r@ =~= lower(s@).take(i as int),
        decreases s@.len() - i,
    {
        let c: char = s[i];
        if 'A' <= c && c <= 'Z' {
            let b: u8 = c as u8 + 32;
            r.push(b as char);
        } else {
            r.push(c);
        }
        i = i + 1;
    }
    assert(lower(s@).take(i as int) =~= lower(s@));
    r
}

/// White space around a text is taken away, all of it and nothing else: what
/// is left begins and ends where the text itself does.
pub proof fn law_trimming_leaves_the_text(before: Seq<char>, s: Seq<char>, behind: Seq<char>)
    requires
        forall|i: int| 0 <= i < before.len() ==> is_space(#[trigger] before[i]),
        forall|i: int| 0 <= i < behind.len() ==> is_space(#[trigger] behind[i]),
        s.len() > 0 ==> !is_space(s[0]) && !is_space(s.last()),
    ensures
        trim(before + s + behind) == s,
{
    lemma_trim_start(before, s + behind);
    assert(before + s + behind =~= before + (s + behind));
    if s.len() > 0 {
        assert((s + behind)[0] == s[0]);
        lemma_trim_end(s, behind);
    } else {
        assert(s + behind =~= behind);
        lemma_trim_start(behind, s);
        assert(behind + s =~= behind);
    }
}

proof fn lemma_trim_start(before: Seq<char>, s: Seq<char>)
    requires
        forall|i: int| 0 <= i < before.len() ==> is_space(#[trigger] before[i]),
    ensures
        trim_start(before + s) == trim_start(s),
    decreases before.len(),
{
    if before.len() > 0 {
        assert((before + s)[0] == before[0]);
        assert((before + s).drop_first() =~= before.drop_first() + s);
        assert forall|i: int| 0 <= i < before.drop_first().len() implies is_space(
            #[trigger] before.drop_first()[i],
        ) by {
            assert(before.drop_first()[i] == before[i + 1]);
        }
        lemma_trim_start(before.drop_first(), s);
    } else {
        assert(before + s =~= s);
    }
}

proof fn lemma_trim_end(s: Seq<char>, behind: Seq<char>)
    requires
        forall|i: int| 0 <= i < behind.len() ==> is_space(#[trigger] behind[i]),
        s.len() > 0,
        !is_space(s.last()),
    ensures
        trim_end(s + behind) == s,
    decreases behind.len(),
{
    if behind.len() > 0 {
        assert((s + behind).last() == behind[behind.len() - 1]);
        assert((s + behind).drop_last() =~= s + behind.drop_last());
        assert forall|i: int| 0 <= i < behind.drop_last().len() implies is_space(
            #[trigger] behind.drop_last()[i],
        ) by {
            assert(behind.drop_last()[i] == behind[i]);
        }
        lemma_trim_end(s, behind.drop_last());
    } else {
        assert(s + behind =~= s);
    }
}

/// Of the characters of ASCII, blank, tab, the line ends and the two feeds are
/// white space, and no visible one is.
pub proof fn law_white_space_of_ascii(c: char)
    requires
        c as int <= 0x7f,
    ensures
        is_space(c) <==> c == ' ' || c == '\t' || c == '\n' || c == '\r' || c as int == 0xb
            || c as int == 0xc,
{
}

/// Lower case changes the ASCII capitals, each to its small letter, and no
/// other character, and keeps every place.
pub proof fn law_lower_case(s: Seq<char>, i: int)
    requires
        0 <= i < s.len(),
    ensures
        lower(s).len() == s.len(),
        0x41 <= s[i] as int <= 0x5a ==> lower(s)[i] as int == s[i] as int + 0x20,
        !(0x41 <= s[i] as int <= 0x5a) ==> lower(s)[i] == s[i],
        lower(lower(s)) =~= lower(s),
{
}

/// A number is written digit by digit: a small one as its digit, a larger one
/// as what its tenth is written like, followed by its last digit.
pub proof fn law_decimal_is_written_digit_by_digit(n: nat, d: nat)
    requires
        d < 10,
    ensures
        decimal(d).len() == 1,
        decimal(d)[0] as int == 0x30 + d,
        n > 0 ==> decimal(10 * n + d) == decimal(n) + decimal(d),
{
    if n > 0 {
        assert((10 * n + d) / 10 == n);
        assert((10 * n + d) % 10 == d);
        assert(decimal(10 * n + d) =~= decimal(n) + decimal(d));
    }
}

/// A numeral is read by its digits: zeros in front and one plus sign change
/// nothing, a number that is too large is not read, and neither is a text with
/// anything else in it.
pub proof fn law_numerals_are_read_by_their_digits(n: nat, zeros: nat, plus: bool, max: nat)
    ensures
        ({
            let s = (if plus {
                seq!['+']
            } else {
                seq![]
            }) + Seq::new(zeros, |i: int| '0') + decimal(n);
            parsed(s, max) == if n <= max {
                Some(n)
            } else {
                None
            }
        }),
{
    let digits = Seq::new(zeros, |i: int| '0') + decimal(n);
    let sign: Seq<char> = if plus {
        seq!['+']
    } else {
        seq![]
    };
    let s = sign + Seq::new(zeros, |i: int| '0') + decimal(n);
    lemma_decimal(n);
    lemma_leading_zeros(zeros, decimal(n));
    if plus {
        assert(s.skip(1) =~= digits);
    } else {
        assert(s =~= digits);
        assert(s[0] == if zeros > 0 {
            '0'
        } else {
            decimal(n)[0]
        });
    }
}

proof fn lemma_leading_zeros(zeros: nat, s: Seq<char>)
    requires
        all_digits(s, 10),
    ensures
        all_digits(Seq::new(zeros, |i: int| '0') + s, 10),
        number(Seq::new(zeros, |i: int| '0') + s, 10) == number(s, 10),
    decreases s.len() + zeros,
{
    let t = Seq::new(zeros, |i: int| '0') + s;
    assert forall|i: int| 0 <= i < t.len() implies (#[trigger] digit_value(t[i], 10)) is Some by {
        if i >= zeros {
            assert(t[i] == s[i - zeros]);
            assert(digit_value(s[i - zeros], 10) is Some);
        }
    }
    if s.len() > 0 {
        let u = s.drop_last();
        assert(t.drop_last() =~= Seq::new(zeros, |i: int| '0') + u);
        assert forall|i: int| 0 <= i < u.len() implies (#[trigger] digit_value(u[i], 10)) is Some by {
            assert(digit_value(s[i], 10) is Some);
        }
        lemma_leading_zeros(zeros, u);
    } else if zeros > 0 {
        assert(t.drop_last() =~= Seq::new((zeros - 1) as nat, |i: int| '0') + s);
        lemma_leading_zeros((zeros - 1) as nat, s);
        assert(t.last() == '0');
    }
}

/// A text that is empty, or holds anything but digits behind an optional plus
/// sign, is no numeral.
pub proof fn law_other_texts_are_no_numerals(s: Seq<char>, i: int, max: nat)
    requires
        s.len() == 0 || s =~= seq!['+'] || (0 <= i < s.len() && !('0' <= s[i] <= '9') && !(i == 0
            && s[i] == '+')),
    ensures
        parsed(s, max) is None,
{
    if s.len() > 0 && s[0] == '+' {
        let digits = s.skip(1);
        if digits.len() > 0 {
            assert(digits[i - 1] == s[i]);
            assert(digit_value(digits[i - 1], 10) is None);
        }
    } else if s.len() > 0 {
        assert(digit_value(s[i], 10) is None);
    }
}

/// The parts of a text, put together again with the separator between them,
/// are the text, and no part holds the separator.
pub proof fn law_parts_make_the_whole(s: Seq<char>, sep: char, i: int)
    requires
        0 <= i < split(s, sep).len(),
    ensures
        split(s, sep).len() > 0,
        joined_with(split(s, sep), sep) == s,
        !split(s, sep)[i].contains(sep),
    decreases s.len(),
{
    lemma_find(s, sep);
    let at = find(s, sep);
    let parts = split(s, sep);
    if at < s.len() {
        let rest = s.skip(at + 1);
        assert(split(rest, sep).len() > 0);
        assert(parts.drop_first() =~= split(rest, sep));
        law_parts_make_the_whole(rest, sep, if i > 0 {
            i - 1
        } else {
            0
        });
        assert(s =~= s.take(at) + seq![sep] + rest);
        assert(!s.take(at).contains(sep));
    } else {
        assert(!s.contains(sep));
        assert(joined_with(parts, sep) =~= s);
    }
}

/// Several texts with a separator between them.
pub open spec fn joined_with(parts: Seq<Seq<char>>, sep: char) -> Seq<char>
    decreases parts.len(),
{
    if parts.len() == 0 {
        seq![]
    } else if parts.len() == 1 {
        parts[0]
    } else {
        parts[0] + seq![sep] + joined_with(parts.drop_first(), sep)
    }
}

/// Texts without the separator, put together with it, are the parts again.
pub proof fn law_the_whole_has_its_parts(parts: Seq<Seq<char>>, sep: char)
    requires
        parts.len() > 0,
        forall|i: int| 0 <= i < parts.len() ==> !(#[trigger] parts[i]).contains(sep),
    ensures
        split(joined_with(parts, sep), sep) == parts,
    decreases parts.len(),
{
    assert(!parts[0].contains(sep));
    if parts.len() == 1 {
        lemma_split_whole(parts[0], sep);
        assert(seq![parts[0]] =~= parts);
    } else {
        let rest = parts.drop_first();
        assert forall|i: int| 0 <= i < rest.len() implies !(#[trigger] rest[i]).contains(sep) by {
            assert(rest[i] == parts[i + 1]);
        }
        law_the_whole_has_its_parts(rest, sep);
        lemma_split_first(parts[0], joined_with(rest, sep), sep);
        assert(seq![parts[0]] + rest =~= parts);
    }
}

/// The digits: ten of them, and up to six letters in either case where there
/// are more. A number is read from the highest digit to the lowest.
pub proof fn law_digits_and_their_values(c: char, s: Seq<char>, radix: nat)
    requires
        2 <= radix <= 16,
    ensures
        '0' <= c <= '9' && c as int - 0x30 < radix ==> digit_value(c, radix) == Some(
            (c as int - 0x30) as nat,
        ),
        'a' <= c <= 'f' && c as int - 0x61 + 10 < radix ==> digit_value(c, radix) == Some(
            (c as int - 0x61 + 10) as nat,
        ),
        'A' <= c <= 'F' && c as int - 0x41 + 10 < radix ==> digit_value(c, radix) == Some(
            (c as int - 0x41 + 10) as nat,
        ),
        !('0' <= c <= '9') && !('a' <= c <= 'f') && !('A' <= c <= 'F') ==> digit_value(c, radix)
            is None,
        radix == 10 && !('0' <= c <= '9') ==> digit_value(c, radix) is None,
        digit_value(c, radix) is Some ==> number(s.push(c), radix) == radix * number(s, radix)
            + digit_value(c, radix)->0,
        number(Seq::empty(), radix) == 0,
{
    assert(s.push(c).drop_last() =~= s);
    let n = number(s, radix);
    assert(n * radix == radix * n) by (nonlinear_arith);
}

/// A number in hexadecimal is written digit by digit, with small letters and
/// without zeros in front.
pub proof fn law_hexadecimal_is_written_digit_by_digit(n: nat, d: nat)
    requires
        d < 16,
    ensures
        numeral(d, 16).len() == 1,
        d < 10 ==> numeral(d, 16)[0] as int == 0x30 + d,
        d >= 10 ==> numeral(d, 16)[0] as int == 0x61 + d - 10,
        n > 0 ==> numeral(16 * n + d, 16) == numeral(n, 16) + numeral(d, 16),
{
    if n > 0 {
        assert((16 * n + d) / 16 == n);
        assert((16 * n + d) % 16 == d);
        assert(numeral(16 * n + d, 16) =~= numeral(n, 16) + numeral(d, 16));
    }
}

} // verus!
