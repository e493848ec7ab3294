//! Sliding-piece geometry: rays that stop at the first blocker, the relevant-occupancy
//! masks of the magic-bitboard scheme, and rook, bishop and queen attacks.
use vstd::prelude::*;
use crate::bits::{bit, lemma_bit_zero};
use crate::board::{lemma_set_bit};

verus! {

/// `k` steps in a direction component `d` (-1, 0 or 1).
pub open spec fn step(d: int, k: int) -> int {
    if d > 0 {
        k
    } else if d < 0 {
        -k
    } else {
        0
    }
}

/// The rank reached after `k` steps from `s` with rank direction `dr`.
pub open spec fn ray_rank(s: u64, dr: int, k: int) -> int {
    (s / 8) as int + step(dr, k)
}

/// The file reached after `k` steps from `s` with file direction `df`.
pub open spec fn ray_file(s: u64, df: int, k: int) -> int {
    (s % 8) as int + step(df, k)
}

/// Whether the `k`-th square along the ray is still on the board.
pub open spec fn ray_on_board(s: u64, dr: int, df: int, k: int) -> bool {
    0 <= ray_rank(s, dr, k) <= 7 && 0 <= ray_file(s, df, k) <= 7
}

/// The `k`-th square along the ray.
pub open spec fn ray_sq(s: u64, dr: int, df: int, k: int) -> int {
    ray_rank(s, dr, k) * 8 + ray_file(s, df, k)
}

/// A direction: each component -1, 0 or 1, not both 0.
pub open spec fn is_dir(dr: int, df: int) -> bool {
    -1 <= dr <= 1 && -1 <= df <= 1 && (dr != 0 || df != 0)
}

/// A piece on `s` sliding in direction (`dr`, `df`) reaches `t`: `t` lies on the ray and
/// every square strictly between is free of `occ`.
pub open spec fn ray_hit(s: u64, dr: int, df: int, t: u64, occ: u64) -> bool {
    exists|k: int|
        #![trigger ray_sq(s, dr, df, k)]
        k >= 1 && ray_on_board(s, dr, df, k) && t == ray_sq(s, dr, df, k) && forall|j: int|
            1 <= j < k ==> !bit(occ, #[trigger] ray_sq(s, dr, df, j) as u64)
}

/// A rook on `s` attacks `t` given the occupancy `occ`.
pub open spec fn rook_hit(s: u64, t: u64, occ: u64) -> bool {
    ray_hit(s, 1, 0, t, occ) || ray_hit(s, -1, 0, t, occ) || ray_hit(s, 0, 1, t, occ) || ray_hit(
        s,
        0,
        -1,
        t,
        occ,
    )
}

/// A bishop on `s` attacks `t` given the occupancy `occ`.
pub open spec fn bishop_hit(s: u64, t: u64, occ: u64) -> bool {
    ray_hit(s, 1, 1, t, occ) || ray_hit(s, 1, -1, t, occ) || ray_hit(s, -1, 1, t, occ) || ray_hit(
        s,
        -1,
        -1,
        t,
        occ,
    )
}

/// The squares a slider on `sq` reaches in one direction, up to and including the first
/// square of `blockers`.
fn slide(sq: u8, dr: i8, df: i8, blockers: u64) -> (r: u64)
    requires
        sq < 64,
        is_dir(dr as int, df as int),
    ensures
        forall|t: u64|
            t < 64 ==> (#[trigger] bit(r, t) <==> ray_hit(sq as u64, dr as int, df as int, t, blockers)),
{
    let ghost s = sq as u64;
    let ghost d1 = dr as int;
    let ghost d2 = df as int;
    let mut attacks: u64 = 0;
    let mut r: i8 = (sq / 8) as i8 + dr;
    let mut f: i8 = (sq % 8) as i8 + df;
    let ghost mut k: int = 1;
    let mut blocked = false;
    proof {
        assert forall|t: u64| t < 64 implies !#[trigger] bit(attacks, t) by {
            lemma_bit_zero(t);
        }
    }
    while !blocked && 0 <= r && r <= 7 && 0 <= f && f <= 7
        invariant
            sq < 64,
            is_dir(d1, d2),
            s == sq as u64,
            d1 == dr as int,
            d2 == df as int,
            1 <= k <= 8,
            r as int == ray_rank(s, d1, k),
            f as int == ray_file(s, d2, k),
            forall|j: int| 1 <= j < k ==> #[trigger] ray_on_board(s, d1, d2, j),
            forall|j: int| 1 <= j < k - 1 ==> !bit(blockers, #[trigger] ray_sq(s, d1, d2, j) as u64),
            !blocked ==> forall|j: int| 1 <= j < k ==> !bit(blockers, #[trigger] ray_sq(s, d1, d2, j) as u64),
            blocked ==> k >= 2 && bit(blockers, ray_sq(s, d1, d2, k - 1) as u64),
            forall|t: u64|
                t < 64 ==> (#[trigger] bit(attacks, t) <==> exists|j: int|
                    1 <= j < k && t == #[trigger] ray_sq(s, d1, d2, j)),
        decreases 8 - k + (if blocked { 0int } else { 1int }),
    {
        let t = (r * 8 + f) as u8;
        let ghost old_attacks = attacks;
        proof {
            assert(ray_on_board(s, d1, d2, k));
            assert(k <= 7);
            assert(t as int == ray_sq(s, d1, d2, k));
            lemma_set_bit(attacks, t as u64);
        }
        attacks = attacks | (1u64 << t);
        proof {
            assert forall|u: u64| u < 64 implies (#[trigger] bit(attacks, u) <==> exists|j: int|
                1 <= j < k + 1 && u == #[trigger] ray_sq(s, d1, d2, j)) by {
                if bit(attacks, u) {
                    if u == t {
                        assert(u == ray_sq(s, d1, d2, k));
                    } else {
                        assert(bit(old_attacks, u));
                        let j = choose|j: int| 1 <= j < k && u == #[trigger] ray_sq(s, d1, d2, j);
                        assert(1 <= j < k + 1 && u == ray_sq(s, d1, d2, j));
                    }
                }
                if exists|j: int| 1 <= j < k + 1 && u == #[trigger] ray_sq(s, d1, d2, j) {
                    let j = choose|j: int| 1 <= j < k + 1 && u == #[trigger] ray_sq(s, d1, d2, j);
                    if j < k {
                        assert(bit(old_attacks, u));
                    } else {
                        assert(u == t);
                    }
                }
            }
        }
        if blockers & (1u64 << t) != 0 {
            proof {
                crate::bits::lemma_bit_and(blockers, 1u64 << t, t as u64);
                crate::bits::lemma_bit_single(t as u64, t as u64);
                if !bit(blockers, t as u64) {
                    assert(!bit(blockers & (1u64 << t), t as u64));
                    assert forall|v: u64| v < 64 implies !#[trigger] bit(blockers & (1u64 << t), v) by {
                        crate::bits::lemma_bit_and(blockers, 1u64 << t, v);
                        crate::bits::lemma_bit_single(t as u64, v);
                    }
                    crate::bits::lemma_bits_ext_zero(blockers & (1u64 << t));
                }
            }
            blocked = true;
        } else {
            proof {
                crate::bits::lemma_bit_and(blockers, 1u64 << t, t as u64);
                crate::bits::lemma_bit_single(t as u64, t as u64);
                lemma_bit_zero(t as u64);
            }
        }
        r = r + dr;
        f = f + df;
        proof {
            k = k + 1;
        }
    }
    proof {
        assert forall|t: u64| t < 64 implies (#[trigger] bit(attacks, t) <==> ray_hit(s, d1, d2, t, blockers)) by {
            if bit(attacks, t) {
                let j = choose|j: int| 1 <= j < k && t == #[trigger] ray_sq(s, d1, d2, j);
                assert(ray_on_board(s, d1, d2, j));
                assert forall|i: int| 1 <= i < j implies !bit(blockers, #[trigger] ray_sq(s, d1, d2, i) as u64) by {
                    assert(i < k - 1);
                }
            }
            if ray_hit(s, d1, d2, t, blockers) {
                let kk = choose|kk: int|
                    #![trigger ray_sq(s, d1, d2, kk)]
                    kk >= 1 && ray_on_board(s, d1, d2, kk) && t == ray_sq(s, d1, d2, kk) && forall|j: int|
                        1 <= j < kk ==> !bit(blockers, #[trigger] ray_sq(s, d1, d2, j) as u64);
                if kk >= k {
                    if blocked {
                        assert(!bit(blockers, ray_sq(s, d1, d2, k - 1) as u64));
                    } else {
                        assert(ray_on_board(s, d1, d2, k));
                    }
                }
                assert(1 <= kk < k && t == ray_sq(s, d1, d2, kk));
            }
        }
    }
    attacks
}

/// The squares a rook on `sq` attacks when `blockers` are occupied: along each rank and
/// file up to and including the first blocker.
pub fn rook_attacks_on_the_fly(sq: u8, blockers: u64) -> (r: u64)
    requires
        sq < 64,
    ensures
        forall|t: u64| t < 64 ==> (#[trigger] bit(r, t) <==> rook_hit(sq as u64, t, blockers)),
{
    let n = slide(sq, 1, 0, blockers);
    let s = slide(sq, -1, 0, blockers);
    let e = slide(sq, 0, 1, blockers);
    let w = slide(sq, 0, -1, blockers);
    proof {
        assert forall|t: u64| t < 64 implies (#[trigger] bit(n | s | e | w, t) <==> rook_hit(sq as u64, t, blockers)) by {
            crate::bits::lemma_bit_or(n | s | e, w, t);
            crate::bits::lemma_bit_or(n | s, e, t);
            crate::bits::lemma_bit_or(n, s, t);
        }
    }
    n | s | e | w
}

/// The squares a bishop on `sq` attacks when `blockers` are occupied: along each diagonal
/// up to and including the first blocker.
pub fn bishop_attacks_on_the_fly(sq: u8, blockers: u64) -> (r: u64)
    requires
        sq < 64,
    ensures
        forall|t: u64| t < 64 ==> (#[trigger] bit(r, t) <==> bishop_hit(sq as u64, t, blockers)),
{
    let ne = slide(sq, 1, 1, blockers);
    let nw = slide(sq, 1, -1, blockers);
    let se = slide(sq, -1, 1, blockers);
    let sw = slide(sq, -1, -1, blockers);
    proof {
        assert forall|t: u64| t < 64 implies (#[trigger] bit(ne | nw | se | sw, t) <==> bishop_hit(sq as u64, t, blockers)) by {
            crate::bits::lemma_bit_or(ne | nw | se, sw, t);
            crate::bits::lemma_bit_or(ne | nw, se, t);
            crate::bits::lemma_bit_or(ne, nw, t);
        }
    }
    ne | nw | se | sw
}

/// Rook attacks from `sq` for the occupancy `occ`.
pub fn rook_attacks(sq: usize, occ: u64) -> (r: u64)
    requires
        sq < 64,
    ensures
        forall|t: u64| t < 64 ==> (#[trigger] bit(r, t) <==> rook_hit(sq as u64, t, occ)),
{
    rook_attacks_on_the_fly(sq as u8, occ)
}

/// Bishop attacks from `sq` for the occupancy `occ`.
pub fn bishop_attacks(sq: usize, occ: u64) -> (r: u64)
    requires
        sq < 64,
    ensures
        forall|t: u64| t < 64 ==> (#[trigger] bit(r, t) <==> bishop_hit(sq as u64, t, occ)),
{
    bishop_attacks_on_the_fly(sq as u8, occ)
}

/// Queen attacks: the union of rook and bishop attacks.
pub fn queen_attacks(sq: usize, occ: u64) -> (r: u64)
    requires
        sq < 64,
    ensures
        forall|t: u64|
            t < 64 ==> (#[trigger] bit(r, t) <==> (rook_hit(sq as u64, t, occ) || bishop_hit(
                sq as u64,
                t,
                occ,
            ))),
{
    let a = rook_attacks(sq, occ);
    let b = bishop_attacks(sq, occ);
    proof {
        assert forall|t: u64| t < 64 implies (#[trigger] bit(a | b, t) <==> (rook_hit(sq as u64, t, occ)
            || bishop_hit(sq as u64, t, occ))) by {
            crate::bits::lemma_bit_or(a, b, t);
        }
    }
    a | b
}

/// Sliding is symmetric: if a slider on `s` reaches `t` along a direction, a slider on `t`
/// reaches `s` along the opposite direction, past the same empty squares.
pub proof fn lemma_ray_hit_symmetric(s: u64, dr: int, df: int, t: u64, occ: u64)
    requires
        s < 64,
        t < 64,
        is_dir(dr, df),
        ray_hit(s, dr, df, t, occ),
    ensures
        ray_hit(t, -dr, -df, s, occ),
{
    let k = choose|k: int|
        #![trigger ray_sq(s, dr, df, k)]
        k >= 1 && ray_on_board(s, dr, df, k) && t == ray_sq(s, dr, df, k) && forall|j: int|
            1 <= j < k ==> !bit(occ, #[trigger] ray_sq(s, dr, df, j) as u64);
    let rr = ray_rank(s, dr, k);
    let ff = ray_file(s, df, k);
    assert(t / 8 == rr && t % 8 == ff);
    assert(ray_rank(t, -dr, k) == (s / 8) as int);
    assert(ray_file(t, -df, k) == (s % 8) as int);
    assert(s == ray_sq(t, -dr, -df, k));
    assert forall|j: int| 1 <= j < k implies !bit(occ, #[trigger] ray_sq(t, -dr, -df, j) as u64) by {
        assert(ray_sq(t, -dr, -df, j) == ray_sq(s, dr, df, k - j));
    }
    assert(ray_on_board(t, -dr, -df, k));
}

/// Rook attacks are symmetric between the two squares.
pub proof fn lemma_rook_hit_symmetric(s: u64, t: u64, occ: u64)
    requires
        s < 64,
        t < 64,
        rook_hit(s, t, occ),
    ensures
        rook_hit(t, s, occ),
{
    if ray_hit(s, 1, 0, t, occ) {
        lemma_ray_hit_symmetric(s, 1, 0, t, occ);
    } else if ray_hit(s, -1, 0, t, occ) {
        lemma_ray_hit_symmetric(s, -1, 0, t, occ);
    } else if ray_hit(s, 0, 1, t, occ) {
        lemma_ray_hit_symmetric(s, 0, 1, t, occ);
    } else {
        lemma_ray_hit_symmetric(s, 0, -1, t, occ);
    }
}

/// Bishop attacks are symmetric between the two squares.
pub proof fn lemma_bishop_hit_symmetric(s: u64, t: u64, occ: u64)
    requires
        s < 64,
        t < 64,
        bishop_hit(s, t, occ),
    ensures
        bishop_hit(t, s, occ),
{
    if ray_hit(s, 1, 1, t, occ) {
        lemma_ray_hit_symmetric(s, 1, 1, t, occ);
    } else if ray_hit(s, 1, -1, t, occ) {
        lemma_ray_hit_symmetric(s, 1, -1, t, occ);
    } else if ray_hit(s, -1, 1, t, occ) {
        lemma_ray_hit_symmetric(s, -1, 1, t, occ);
    } else {
        lemma_ray_hit_symmetric(s, -1, -1, t, occ);
    }
}

/// The `k`-th square along the ray keeps every moving coordinate off the board's edge.
pub open spec fn inner_ok(s: u64, dr: int, df: int, k: int) -> bool {
    (dr != 0 ==> 1 <= ray_rank(s, dr, k) <= 6) && (df != 0 ==> 1 <= ray_file(s, df, k) <= 6)
}

/// `t` lies on the ray from `s` before the ray reaches the edge it is heading for.
pub open spec fn mask_hit(s: u64, dr: int, df: int, t: u64) -> bool {
    exists|k: int| #![trigger ray_sq(s, dr, df, k)] k >= 1 && inner_ok(s, dr, df, k) && t == ray_sq(s, dr, df, k)
}

/// The squares along one ray from `sq` whose occupancy can change where the ray stops.
fn mask_ray(sq: u8, dr: i8, df: i8) -> (r: u64)
    requires
        sq < 64,
        is_dir(dr as int, df as int),
    ensures
        forall|t: u64| t < 64 ==> (#[trigger] bit(r, t) <==> mask_hit(sq as u64, dr as int, df as int, t)),
{
    let ghost s = sq as u64;
    let ghost d1 = dr as int;
    let ghost d2 = df as int;
    let mut mask: u64 = 0;
    let mut r: i8 = (sq / 8) as i8 + dr;
    let mut f: i8 = (sq % 8) as i8 + df;
    let ghost mut k: int = 1;
    proof {
        assert forall|t: u64| t < 64 implies !#[trigger] bit(mask, t) by {
            lemma_bit_zero(t);
        }
    }
    while (dr == 0 || (1 <= r && r <= 6)) && (df == 0 || (1 <= f && f <= 6))
        invariant
            sq < 64,
            is_dir(d1, d2),
            s == sq as u64,
            d1 == dr as int,
            d2 == df as int,
            1 <= k <= 7,
            r as int == ray_rank(s, d1, k),
            f as int == ray_file(s, d2, k),
            forall|t: u64|
                t < 64 ==> (#[trigger] bit(mask, t) <==> exists|j: int|
                    1 <= j < k && inner_ok(s, d1, d2, j) && t == #[trigger] ray_sq(s, d1, d2, j)),
        decreases 7 - k,
    {
        let t = (r * 8 + f) as u8;
        let ghost old_mask = mask;
        proof {
            assert(inner_ok(s, d1, d2, k));
            assert(k <= 6);
            assert(t as int == ray_sq(s, d1, d2, k));
            lemma_set_bit(mask, t as u64);
        }
        mask = mask | (1u64 << t);
        proof {
            assert forall|u: u64| u < 64 implies (#[trigger] bit(mask, u) <==> exists|j: int|
                1 <= j < k + 1 && inner_ok(s, d1, d2, j) && u == #[trigger] ray_sq(s, d1, d2, j)) by {
                if bit(mask, u) {
                    if u == t {
                        assert(inner_ok(s, d1, d2, k) && u == ray_sq(s, d1, d2, k));
                    } else {
                        assert(bit(old_mask, u));
                        let j = choose|j: int| 1 <= j < k && inner_ok(s, d1, d2, j) && u == #[trigger] ray_sq(s, d1, d2, j);
                        assert(1 <= j < k + 1 && u == ray_sq(s, d1, d2, j));
                    }
                }
                if exists|j: int| 1 <= j < k + 1 && inner_ok(s, d1, d2, j) && u == #[trigger] ray_sq(s, d1, d2, j) {
                    let j = choose|j: int| 1 <= j < k + 1 && inner_ok(s, d1, d2, j) && u == #[trigger] ray_sq(s, d1, d2, j);
                    if j < k {
                        assert(bit(old_mask, u));
                    } else {
                        assert(u == t);
                    }
                }
            }
        }
        r = r + dr;
        f = f + df;
        proof {
            k = k + 1;
        }
    }
    proof {
        assert(!inner_ok(s, d1, d2, k));
        assert forall|t: u64| t < 64 implies (#[trigger] bit(mask, t) <==> mask_hit(s, d1, d2, t)) by {
            if bit(mask, t) {
                let j = choose|j: int| 1 <= j < k && inner_ok(s, d1, d2, j) && t == #[trigger] ray_sq(s, d1, d2, j);
                assert(j >= 1 && inner_ok(s, d1, d2, j) && t == ray_sq(s, d1, d2, j));
            }
            if mask_hit(s, d1, d2, t) {
                let kk = choose|kk: int| #![trigger ray_sq(s, d1, d2, kk)] kk >= 1 && inner_ok(s, d1, d2, kk) && t == ray_sq(s, d1, d2, kk);
                assert(kk < k);
                assert(1 <= kk < k && inner_ok(s, d1, d2, kk) && t == ray_sq(s, d1, d2, kk));
            }
        }
    }
    mask
}

/// The relevant-occupancy mask of a rook: its rank and file squares short of the board edge.
pub open spec fn rook_mask_hit(s: u64, t: u64) -> bool {
    mask_hit(s, 1, 0, t) || mask_hit(s, -1, 0, t) || mask_hit(s, 0, 1, t) || mask_hit(s, 0, -1, t)
}

/// The relevant-occupancy mask of a bishop: its diagonal squares short of the board edge.
pub open spec fn bishop_mask_hit(s: u64, t: u64) -> bool {
    mask_hit(s, 1, 1, t) || mask_hit(s, 1, -1, t) || mask_hit(s, -1, 1, t) || mask_hit(s, -1, -1, t)
}

/// The squares whose occupancy decides a rook's attacks from `square`.
pub fn rook_mask(square: u8) -> (r: u64)
    requires
        square < 64,
    ensures
        forall|t: u64| t < 64 ==> (#[trigger] bit(r, t) <==> rook_mask_hit(square as u64, t)),
{
    let n = mask_ray(square, 1, 0);
    let s = mask_ray(square, -1, 0);
    let e = mask_ray(square, 0, 1);
    let w = mask_ray(square, 0, -1);
    proof {
        assert forall|t: u64| t < 64 implies (#[trigger] bit(n | s | e | w, t) <==> rook_mask_hit(square as u64, t)) by {
            crate::bits::lemma_bit_or(n | s | e, w, t);
            crate::bits::lemma_bit_or(n | s, e, t);
            crate::bits::lemma_bit_or(n, s, t);
        }
    }
    n | s | e | w
}

/// The squares whose occupancy decides a bishop's attacks from `square`.
pub fn bishop_mask(square: u8) -> (r: u64)
    requires
        square < 64,
    ensures
        forall|t: u64| t < 64 ==> (#[trigger] bit(r, t) <==> bishop_mask_hit(square as u64, t)),
{
    let ne = mask_ray(square, 1, 1);
    let nw = mask_ray(square, 1, -1);
    let se = mask_ray(square, -1, 1);
    let sw = mask_ray(square, -1, -1);
    proof {
        assert forall|t: u64| t < 64 implies (#[trigger] bit(ne | nw | se | sw, t) <==> bishop_mask_hit(square as u64, t)) by {
            crate::bits::lemma_bit_or(ne | nw | se, sw, t);
            crate::bits::lemma_bit_or(ne | nw, se, t);
            crate::bits::lemma_bit_or(ne, nw, t);
        }
    }
    ne | nw | se | sw
}

/// The rook mask of every square, indexed by square.
pub fn rook_masks() -> (v: Vec<u64>)
    ensures
        v@.len() == 64,
        forall|i: int, t: u64| 0 <= i < 64 && t < 64 ==> (#[trigger] bit(v@[i], t) <==> rook_mask_hit(i as u64, t)),
{
    let mut v: Vec<u64> = Vec::new();
    let mut i: u8 = 0;
    while i < 64
        invariant
            i <= 64,
            v@.len() == i,
            forall|j: int, t: u64| 0 <= j < i && t < 64 ==> (#[trigger] bit(v@[j], t) <==> rook_mask_hit(j as u64, t)),
        decreases 64 - i,
    {
        v.push(rook_mask(i));
        i = i + 1;
    }
    v
}

/// The bishop mask of every square, indexed by square.
pub fn bishop_masks() -> (v: Vec<u64>)
    ensures
        v@.len() == 64,
        forall|i: int, t: u64| 0 <= i < 64 && t < 64 ==> (#[trigger] bit(v@[i], t) <==> bishop_mask_hit(i as u64, t)),
{
    let mut v: Vec<u64> = Vec::new();
    let mut i: u8 = 0;
    while i < 64
        invariant
            i <= 64,
            v@.len() == i,
            forall|j: int, t: u64| 0 <= j < i && t < 64 ==> (#[trigger] bit(v@[j], t) <==> bishop_mask_hit(j as u64, t)),
        decreases 64 - i,
    {
        v.push(bishop_mask(i));
        i = i + 1;
    }
    v
}

} // verus!
