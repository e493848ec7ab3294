//! Passed pawns: for each square, the squares ahead of a pawn on it, on its file and the two
//! files beside it, where an enemy pawn would stop it from being passed.
use vstd::prelude::*;
use crate::bits::{bit, lemma_bit_or, lemma_bit_single};

verus! {

/// Middlegame bonus for a passed pawn by rank (rank 0 = back rank, rank 7 = promotion).
pub const PASSED_PAWN_MG_BONUS: [i32; 8] = [0, 0, 10, 15, 25, 40, 60, 0];

/// Endgame bonus for a passed pawn by rank.
pub const PASSED_PAWN_EG_BONUS: [i32; 8] = [0, 0, 20, 35, 60, 90, 130, 0];

/// Square `t` is on a rank in `lo..hi` and on the file of `sq` or a file beside it.
pub open spec fn in_span(sq: int, t: int, lo: int, hi: int) -> bool {
    &&& lo <= t / 8 < hi
    &&& sq % 8 - 1 <= t % 8 <= sq % 8 + 1
}

/// Square `t` is in front of a white pawn on `sq`, on its file or a file beside it.
pub open spec fn white_passed_square(sq: int, t: int) -> bool {
    in_span(sq, t, sq / 8 + 1, 8)
}

/// Square `t` is in front of a black pawn on `sq` (towards rank 0), on its file or a file
/// beside it.
pub open spec fn black_passed_square(sq: int, t: int) -> bool {
    in_span(sq, t, 0, sq / 8)
}

/// Adding the squares of rank `r` next to file `file` to a mask of the ranks `lo..r`.
proof fn lemma_add_row(mask: u64, a: u64, b: u64, c: u64, sq: int, lo: int, r: int, t: u64)
    requires
        0 <= sq < 64,
        0 <= r < 8,
        t < 64,
        bit(mask, t) <==> in_span(sq, t as int, lo, r),
        a == 1u64 << ((r * 8 + sq % 8) as u64),
        sq % 8 > 0 ==> b == 1u64 << ((r * 8 + sq % 8 - 1) as u64),
        sq % 8 == 0 ==> b == 0,
        sq % 8 < 7 ==> c == 1u64 << ((r * 8 + sq % 8 + 1) as u64),
        sq % 8 == 7 ==> c == 0,
        lo <= r,
    ensures
        bit(mask | a | b | c, t) <==> in_span(sq, t as int, lo, r + 1),
{
    lemma_bit_or(mask | a | b, c, t);
    lemma_bit_or(mask | a, b, t);
    lemma_bit_or(mask, a, t);
    lemma_bit_single((r * 8 + sq % 8) as u64, t);
    if sq % 8 > 0 {
        lemma_bit_single((r * 8 + sq % 8 - 1) as u64, t);
    } else {
        crate::bits::lemma_bit_zero(t);
    }
    if sq % 8 < 7 {
        lemma_bit_single((r * 8 + sq % 8 + 1) as u64, t);
    } else {
        crate::bits::lemma_bit_zero(t);
    }
}

/// The squares on ranks `lo..hi` on the file of `sq` and the files beside it.
fn span_mask(sq: usize, lo: usize, hi: usize) -> (mask: u64)
    requires
        sq < 64,
        lo <= hi <= 8,
    ensures
        forall|t: u64| t < 64 ==> (#[trigger] bit(mask, t) <==> in_span(sq as int, t as int, lo as int, hi as int)),
{
    let file = sq % 8;
    let mut mask: u64 = 0;
    let mut r = lo;
    proof {
        assert forall|t: u64| t < 64 implies (bit(mask, t) <==> in_span(sq as int, t as int, lo as int, r as int)) by {
            crate::bits::lemma_bit_zero(t);
        }
    }
    while r < hi
        invariant
            sq < 64,
            file == sq % 8,
            lo <= r <= hi,
            hi <= 8,
            forall|t: u64| t < 64 ==> (bit(mask, t) <==> in_span(sq as int, t as int, lo as int, r as int)),
        decreases hi - r,
    {
        let a = 1u64 << (r * 8 + file) as u64;
        let b = if file > 0 {
            1u64 << (r * 8 + file - 1) as u64
        } else {
            0
        };
        let c = if file < 7 {
            1u64 << (r * 8 + file + 1) as u64
        } else {
            0
        };
        proof {
            assert forall|t: u64| t < 64 implies (bit(mask | a | b | c, t) <==> in_span(sq as int, t as int, lo as int, r + 1)) by {
                lemma_add_row(mask, a, b, c, sq as int, lo as int, r as int, t);
            }
        }
        mask = mask | a | b | c;
        r += 1;
    }
    mask
}

/// The passed-pawn mask of a white pawn on `sq`: the squares ahead of it, on its file or a
/// file beside it.
pub fn white_passed_mask(sq: usize) -> (mask: u64)
    requires
        sq < 64,
    ensures
        forall|t: u64| t < 64 ==> (#[trigger] bit(mask, t) <==> white_passed_square(sq as int, t as int)),
{
    span_mask(sq, sq / 8 + 1, 8)
}

/// The passed-pawn mask of a black pawn on `sq`: the squares below it, on its file or a
/// file beside it.
pub fn black_passed_mask(sq: usize) -> (mask: u64)
    requires
        sq < 64,
    ensures
        forall|t: u64| t < 64 ==> (#[trigger] bit(mask, t) <==> black_passed_square(sq as int, t as int)),
{
    span_mask(sq, 0, sq / 8)
}

/// The white passed-pawn masks: bit `t` of mask `sq` is set exactly when `t` is ahead of
/// `sq` on its file or a file beside it.
pub fn build_white_passed_masks() -> (masks: Vec<u64>)
    ensures
        masks@.len() == 64,
        forall|sq: int, t: u64| 0 <= sq < 64 && t < 64 ==> (#[trigger] bit(masks@[sq], t) <==> white_passed_square(sq, t as int)),
{
    let mut masks: Vec<u64> = Vec::new();
    let mut sq: usize = 0;
    while sq < 64
        invariant
            sq <= 64,
            masks@.len() == sq,
            forall|s: int, t: u64| 0 <= s < sq && t < 64 ==> (#[trigger] bit(masks@[s], t) <==> white_passed_square(s, t as int)),
        decreases 64 - sq,
    {
        masks.push(white_passed_mask(sq));
        sq += 1;
    }
    masks
}

/// The black passed-pawn masks: bit `t` of mask `sq` is set exactly when `t` is on a lower
/// rank than `sq`, on its file or a file beside it.
pub fn build_black_passed_masks() -> (masks: Vec<u64>)
    ensures
        masks@.len() == 64,
        forall|sq: int, t: u64| 0 <= sq < 64 && t < 64 ==> (#[trigger] bit(masks@[sq], t) <==> black_passed_square(sq, t as int)),
{
    let mut masks: Vec<u64> = Vec::new();
    let mut sq: usize = 0;
    while sq < 64
        invariant
            sq <= 64,
            masks@.len() == sq,
            forall|s: int, t: u64| 0 <= s < sq && t < 64 ==> (#[trigger] bit(masks@[s], t) <==> black_passed_square(s, t as int)),
        decreases 64 - sq,
    {
        masks.push(black_passed_mask(sq));
        sq += 1;
    }
    masks
}

} // verus!
