//! Bitboards: a `u64` whose bit `s` stands for square `s` (0 = a1, 7 = h1, 63 = h8).
use vstd::prelude::*;
use vstd::std_specs::bits::{u64_trailing_zeros, axiom_u64_trailing_zeros};

verus! {

/// Bit `i` of `bb` is set.
pub open spec fn bit(bb: u64, i: u64) -> bool {
    (bb >> i) & 1u64 == 1u64
}

pub proof fn lemma_bit_single(s: u64, t: u64)
    requires
        s < 64,
        t < 64,
    ensures
        bit(1u64 << s, t) <==> t == s,
{
    assert(((1u64 << s) >> t) & 1u64 == 1u64 <==> t == s) by (bit_vector)
        requires
            s < 64,
            t < 64,
    ;
}

pub proof fn lemma_bit_or(a: u64, b: u64, t: u64)
    requires
        t < 64,
    ensures
        bit(a | b, t) <==> (bit(a, t) || bit(b, t)),
{
    assert(((a | b) >> t) & 1u64 == 1u64 <==> ((a >> t) & 1u64 == 1u64 || (b >> t) & 1u64
        == 1u64)) by (bit_vector)
        requires
            t < 64,
    ;
}

pub proof fn lemma_bit_and(a: u64, b: u64, t: u64)
    requires
        t < 64,
    ensures
        bit(a & b, t) <==> (bit(a, t) && bit(b, t)),
{
    assert(((a & b) >> t) & 1u64 == 1u64 <==> ((a >> t) & 1u64 == 1u64 && (b >> t) & 1u64
        == 1u64)) by (bit_vector)
        requires
            t < 64,
    ;
}

pub proof fn lemma_bit_xor(a: u64, b: u64, t: u64)
    requires
        t < 64,
    ensures
        bit(a ^ b, t) <==> (bit(a, t) != bit(b, t)),
{
    assert(((a ^ b) >> t) & 1u64 == 1u64 <==> ((a >> t) & 1u64 == 1u64) != ((b >> t) & 1u64
        == 1u64)) by (bit_vector)
        requires
            t < 64,
    ;
}

pub proof fn lemma_bit_not(a: u64, t: u64)
    requires
        t < 64,
    ensures
        bit(!a, t) <==> !bit(a, t),
{
    assert(((!a) >> t) & 1u64 == 1u64 <==> !((a >> t) & 1u64 == 1u64)) by (bit_vector)
        requires
            t < 64,
    ;
}

pub proof fn lemma_bit_zero(t: u64)
    ensures
        !bit(0u64, t),
{
    assert((0u64 >> t) & 1u64 != 1u64) by (bit_vector);
}

/// A bitboard with no square in 0..64 set is zero.
pub proof fn lemma_bits_ext_zero(a: u64)
    requires
        forall|t: u64| t < 64 ==> !#[trigger] bit(a, t),
    ensures
        a == 0,
{
    assert(!bit(a, 0));
    if a != 0 {
        axiom_u64_trailing_zeros(a);
        let tz = u64_trailing_zeros(a) as u64;
        assert(bit(a, tz));
    }
}

/// Bitboards with the same squares are equal.
pub proof fn lemma_bits_ext(a: u64, b: u64)
    requires
        forall|t: u64| t < 64 ==> (#[trigger] bit(a, t) <==> bit(b, t)),
    ensures
        a == b,
{
    assert forall|t: u64| t < 64 implies !#[trigger] bit(a ^ b, t) by {
        lemma_bit_xor(a, b, t);
    }
    lemma_bits_ext_zero(a ^ b);
    assert(a ^ b == 0u64 ==> a == b) by (bit_vector);
}

/// Clearing the lowest set bit: `bb & (bb - 1)`.
pub open spec fn pop_lsb_spec(bb: u64) -> u64 {
    bb & ((bb - 1) as u64)
}

/// The lowest set square of a non-empty bitboard, and what is left when it is removed.
pub proof fn lemma_lsb(bb: u64)
    requires
        bb != 0,
    ensures
        (u64_trailing_zeros(bb) as u64) < 64,
        bit(bb, u64_trailing_zeros(bb) as u64),
        forall|t: u64| t < u64_trailing_zeros(bb) ==> !#[trigger] bit(bb, t),
        forall|t: u64|
            t < 64 ==> (#[trigger] bit(pop_lsb_spec(bb), t) <==> (bit(bb, t) && t
                != u64_trailing_zeros(bb) as u64)),
        pop_lsb_spec(bb) < bb,
{
    axiom_u64_trailing_zeros(bb);
    let tz = u64_trailing_zeros(bb) as u64;
    assert forall|t: u64| t < u64_trailing_zeros(bb) implies !#[trigger] bit(bb, t) by {
        assert((bb >> t) & 1u64 == 0u64);
    }
    let hi = (bb >> tz) << tz;
    assert forall|t: u64| t < 64 implies (#[trigger] bit(hi, t) <==> bit(bb, t)) by {
        assert((((bb >> tz) << tz) >> t) & 1u64 == 1u64 <==> (t >= tz && (bb >> t) & 1u64
            == 1u64)) by (bit_vector)
            requires
                tz < 64,
                t < 64,
        ;
    }
    lemma_bits_ext(hi, bb);
    assert forall|t: u64| t < 64 implies (#[trigger] bit(pop_lsb_spec(bb), t) <==> (bit(bb, t)
        && t != tz)) by {
        assert((((bb & ((bb - 1) as u64)) >> t) & 1u64 == 1u64) <==> ((bb >> t) & 1u64 == 1u64
            && t != tz)) by (bit_vector)
            requires
                bb != 0,
                tz < 64,
                t < 64,
                (bb >> tz) & 1u64 == 1u64,
                (bb >> tz) << tz == bb,
        ;
    }
    assert(bb & ((bb - 1) as u64) < bb) by (bit_vector)
        requires
            bb != 0,
    ;
}

/// Index of the lowest set square.
pub fn lsb(bb: u64) -> (r: u8)
    requires
        bb != 0,
    ensures
        r < 64,
        r as u32 == u64_trailing_zeros(bb),
        bit(bb, r as u64),
        forall|t: u64| t < r ==> !#[trigger] bit(bb, t),
{
    proof {
        lemma_lsb(bb);
    }
    bb.trailing_zeros() as u8
}

/// `bb` with its lowest set square removed.
pub fn pop_lsb(bb: u64) -> (r: u64)
    requires
        bb != 0,
    ensures
        r == pop_lsb_spec(bb),
        r < bb,
        forall|t: u64|
            t < 64 ==> (#[trigger] bit(r, t) <==> (bit(bb, t) && t != u64_trailing_zeros(
                bb,
            ) as u64)),
{
    proof {
        lemma_lsb(bb);
    }
    bb & (bb - 1)
}

/// The number of set bits of a bitboard.
pub open spec fn popcount(bb: u64) -> nat
    decreases bb,
{
    if bb == 0 {
        0
    } else {
        (bb % 2) as nat + popcount(bb / 2)
    }
}

/// `u64::count_ones`: the number of ones in the binary representation.
#[verifier::external_body]
pub fn count_ones(bb: u64) -> (r: u32)
    ensures
        r as nat == popcount(bb),
{
    bb.count_ones()
}

} // verus!
