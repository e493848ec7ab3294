//! Knight and king attack sets.
use vstd::prelude::*;
use crate::bits::bit;
use crate::generation::{NOT_A, NOT_AB, NOT_GH, NOT_H};

verus! {

/// The knight attack set of `sq`, as shifts of its bit with the wrapped files masked off.
pub open spec fn knight_attacks_spec(sq: u64) -> u64 {
    let bb = 1u64 << sq;
    ((bb << 17u64) & 0xFEFE_FEFE_FEFE_FEFEu64) | ((bb << 15u64) & 0x7F7F_7F7F_7F7F_7F7Fu64) | ((bb
        << 10u64) & 0xFCFC_FCFC_FCFC_FCFCu64) | ((bb << 6u64) & 0x3F3F_3F3F_3F3F_3F3Fu64) | ((bb
        >> 17u64) & 0x7F7F_7F7F_7F7F_7F7Fu64) | ((bb >> 15u64) & 0xFEFE_FEFE_FEFE_FEFEu64) | ((bb
        >> 10u64) & 0x3F3F_3F3F_3F3F_3F3Fu64) | ((bb >> 6u64) & 0xFCFC_FCFC_FCFC_FCFCu64)
}

/// The king attack set of `sq`, as shifts of its bit with the wrapped files masked off.
pub open spec fn king_attacks_spec(sq: u64) -> u64 {
    let bb = 1u64 << sq;
    ((bb << 1u64) & 0xFEFE_FEFE_FEFE_FEFEu64) | ((bb >> 1u64) & 0x7F7F_7F7F_7F7F_7F7Fu64) | (bb
        << 8u64) | (bb >> 8u64) | ((bb << 7u64) & 0x7F7F_7F7F_7F7F_7F7Fu64) | ((bb << 9u64)
        & 0xFEFE_FEFE_FEFE_FEFEu64) | ((bb >> 7u64) & 0xFEFE_FEFE_FEFE_FEFEu64) | ((bb >> 9u64)
        & 0x7F7F_7F7F_7F7F_7F7Fu64)
}

/// A knight's jump: two ranks and one file apart, or one rank and two files.
pub open spec fn knight_jump(s: u64, t: u64) -> bool {
    let rs = s / 8;
    let fs = s % 8;
    let rt = t / 8;
    let ft = t % 8;
    ((rt == rs + 2 || rs == rt + 2) && (ft == fs + 1 || fs == ft + 1)) || ((rt == rs + 1 || rs
        == rt + 1) && (ft == fs + 2 || fs == ft + 2))
}

/// A king's step: a different square at most one rank and one file away.
pub open spec fn king_step(s: u64, t: u64) -> bool {
    let rs = s / 8;
    let fs = s % 8;
    let rt = t / 8;
    let ft = t % 8;
    t != s && rt <= rs + 1 && rs <= rt + 1 && ft <= fs + 1 && fs <= ft + 1
}

/// The knight attack set holds exactly the squares a knight's jump away.
pub proof fn lemma_knight_attacks(s: u64, t: u64)
    requires
        s < 64,
        t < 64,
    ensures
        bit(knight_attacks_spec(s), t) <==> knight_jump(s, t),
        bit(knight_attacks_spec(s), t) <==> bit(knight_attacks_spec(t), s),
{
    let a = knight_attacks_spec(s);
    let b = knight_attacks_spec(t);
    assert((a >> t) & 1u64 == 1u64 <==> (((t / 8 == s / 8 + 2 || s / 8 == t / 8 + 2) && (t % 8
        == s % 8 + 1 || s % 8 == t % 8 + 1)) || ((t / 8 == s / 8 + 1 || s / 8 == t / 8 + 1) && (t
        % 8 == s % 8 + 2 || s % 8 == t % 8 + 2)))) by (bit_vector)
        requires
            s < 64,
            t < 64,
            a == knight_attacks_spec(s),
    ;
    assert((a >> t) & 1u64 == (b >> s) & 1u64) by (bit_vector)
        requires
            s < 64,
            t < 64,
            a == knight_attacks_spec(s),
            b == knight_attacks_spec(t),
    ;
}

/// The king attack set holds exactly the squares a king's step away.
pub proof fn lemma_king_attacks(s: u64, t: u64)
    requires
        s < 64,
        t < 64,
    ensures
        bit(king_attacks_spec(s), t) <==> king_step(s, t),
        bit(king_attacks_spec(s), t) <==> bit(king_attacks_spec(t), s),
{
    let a = king_attacks_spec(s);
    let b = king_attacks_spec(t);
    assert((a >> t) & 1u64 == 1u64 <==> (t != s && t / 8 <= s / 8 + 1 && s / 8 <= t / 8 + 1 && t
        % 8 <= s % 8 + 1 && s % 8 <= t % 8 + 1)) by (bit_vector)
        requires
            s < 64,
            t < 64,
            a == king_attacks_spec(s),
    ;
    assert((a >> t) & 1u64 == (b >> s) & 1u64) by (bit_vector)
        requires
            s < 64,
            t < 64,
            a == king_attacks_spec(s),
            b == king_attacks_spec(t),
    ;
}

/// The squares a knight on `sq` attacks.
pub fn knight_attacks(sq: u8) -> (r: u64)
    requires
        sq < 64,
    ensures
        r == knight_attacks_spec(sq as u64),
{
    let bb = 1u64 << sq;
    ((bb << 17u64) & NOT_A) | ((bb << 15u64) & NOT_H) | ((bb << 10u64) & NOT_AB) | ((bb << 6u64)
        & NOT_GH) | ((bb >> 17u64) & NOT_H) | ((bb >> 15u64) & NOT_A) | ((bb >> 10u64) & NOT_GH) | ((
    bb >> 6u64) & NOT_AB)
}

/// The squares a king on `sq` attacks.
pub fn king_attacks(sq: u8) -> (r: u64)
    requires
        sq < 64,
    ensures
        r == king_attacks_spec(sq as u64),
{
    let bb = 1u64 << sq;
    ((bb << 1u64) & NOT_A) | ((bb >> 1u64) & NOT_H) | (bb << 8u64) | (bb >> 8u64) | ((bb << 7u64)
        & NOT_H) | ((bb << 9u64) & NOT_A) | ((bb >> 7u64) & NOT_A) | ((bb >> 9u64) & NOT_H)
}

/// The knight attack set of every square, indexed by square.
pub fn build_knight_table() -> (v: Vec<u64>)
    ensures
        v@.len() == 64,
        forall|i: int| 0 <= i < 64 ==> #[trigger] v@[i] == knight_attacks_spec(i as u64),
{
    let mut v: Vec<u64> = Vec::new();
    let mut i: u8 = 0;
    while i < 64
        invariant
            i <= 64,
            v@.len() == i,
            forall|j: int| 0 <= j < i ==> #[trigger] v@[j] == knight_attacks_spec(j as u64),
        decreases 64 - i,
    {
        v.push(knight_attacks(i));
        i = i + 1;
    }
    v
}

/// The king attack set of every square, indexed by square.
pub fn build_king_table() -> (v: Vec<u64>)
    ensures
        v@.len() == 64,
        forall|i: int| 0 <= i < 64 ==> #[trigger] v@[i] == king_attacks_spec(i as u64),
{
    let mut v: Vec<u64> = Vec::new();
    let mut i: u8 = 0;
    while i < 64
        invariant
            i <= 64,
            v@.len() == i,
            forall|j: int| 0 <= j < i ==> #[trigger] v@[j] == king_attacks_spec(j as u64),
        decreases 64 - i,
    {
        v.push(king_attacks(i));
        i = i + 1;
    }
    v
}

} // verus!
