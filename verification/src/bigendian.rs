//! Big-endian (network order) integers as byte sequences.

use vstd::prelude::*;

verus! {

/// The `width` lowest base-256 digits of `v`, most significant first.
pub open spec fn be(v: nat, width: nat) -> Seq<u8>
    decreases width,
{
    if width == 0 {
        seq![]
    } else {
        be(v / 256, (width - 1) as nat).push((v % 256) as u8)
    }
}

/// The number that a byte sequence denotes, most significant byte first.
pub open spec fn from_be(s: Seq<u8>) -> nat
    decreases s.len(),
{
    if s.len() == 0 {
        0
    } else {
        from_be(s.drop_last()) * 256 + s.last() as nat
    }
}

/// 256 to the power of `width`.
pub open spec fn base(width: nat) -> nat
    decreases width,
{
    if width == 0 {
        1
    } else {
        256 * base((width - 1) as nat)
    }
}

pub broadcast proof fn lemma_be_len(v: nat, width: nat)
    ensures
        (#[trigger] be(v, width)).len() == width,
    decreases width,
{
    if width > 0 {
        lemma_be_len(v / 256, (width - 1) as nat);
    }
}

/// Reading back the digits of a number gives the number.
pub broadcast proof fn lemma_be_inverse(v: nat, width: nat)
    requires
        v < base(width),
    ensures
        from_be(#[trigger] be(v, width)) == v,
    decreases width,
{
    if width > 0 {
        let d = be(v / 256, (width - 1) as nat);
        lemma_be_inverse(v / 256, (width - 1) as nat);
        assert(be(v, width).drop_last() =~= d);
    }
}

pub proof fn lemma_base_values()
    ensures
        base(2) == 0x1_0000,
        base(4) == 0x1_0000_0000,
        base(8) == 0x1_0000_0000_0000_0000,
{
    reveal_with_fuel(base, 9);
}

/// A sequence of `n` bytes denotes a number below 256 to the power of `n`.
pub proof fn lemma_from_be_bound(s: Seq<u8>)
    ensures
        from_be(s) < base(s.len()),
    decreases s.len(),
{
    if s.len() > 0 {
        lemma_from_be_bound(s.drop_last());
    }
}

/// Two bytes: the high one first.
pub proof fn law_two_bytes(v: nat, a: u8, b: u8)
    requires
        v < 0x1_0000,
    ensures
        be(v, 2) =~= seq![(v / 256) as u8, (v % 256) as u8],
        from_be(seq![a, b]) == 256 * a + b,
{
    reveal_with_fuel(be, 3);
    reveal_with_fuel(from_be, 3);
    assert(seq![a, b].drop_last() =~= seq![a]);
    assert(seq![a].drop_last() =~= Seq::<u8>::empty());
}

/// More bytes: the front half of the digits is the number without its lowest
/// byte, which comes last.
pub proof fn law_the_lowest_byte_comes_last(v: nat, width: nat, s: Seq<u8>, low: u8)
    ensures
        be(256 * v + low as nat, width + 1) == be(v, width).push(low),
        from_be(s.push(low)) == 256 * from_be(s) + low,
        be(v, 0).len() == 0,
        from_be(Seq::empty()) == 0,
{
    assert((256 * v + low as nat) / 256 == v);
    assert((256 * v + low as nat) % 256 == low as nat);
    assert(s.push(low).drop_last() =~= s);
}

} // verus!
