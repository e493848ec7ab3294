//! Static evaluation: tapered piece-square tables and the bishop pair.
use vstd::prelude::*;
use crate::bits::{bit, count_ones, lemma_bits_ext, lsb, pop_lsb, popcount};
use crate::board::{piece_bb_ok, Board, Position, WHITE};
use crate::passed_pawns::{
    black_passed_mask, black_passed_square, white_passed_mask, white_passed_square, PASSED_PAWN_EG_BONUS, PASSED_PAWN_MG_BONUS,
};

verus! {

/// Middlegame value of each piece (index `piece - 1`) on each square, material included.
pub const MG_TABLE: [[i32; 64]; 12] = [
    [
        82, 82, 82, 82, 82, 82, 82, 82,
        47, 81, 62, 59, 67, 106, 120, 60,
        56, 78, 78, 72, 85, 85, 115, 70,
        55, 80, 77, 94, 99, 88, 92, 57,
        68, 95, 88, 103, 105, 94, 99, 59,
        76, 89, 108, 113, 147, 138, 107, 62,
        180, 216, 143, 177, 150, 208, 116, 71,
        82, 82, 82, 82, 82, 82, 82, 82,
    ],
    [
        232, 316, 279, 304, 320, 309, 318, 314,
        308, 284, 325, 334, 336, 355, 323, 318,
        314, 328, 349, 347, 356, 354, 362, 321,
        324, 341, 353, 350, 365, 356, 358, 329,
        328, 354, 356, 390, 374, 406, 355, 359,
        290, 397, 374, 402, 421, 466, 410, 381,
        264, 296, 409, 373, 360, 399, 344, 320,
        170, 248, 303, 288, 398, 240, 322, 230,
    ],
    [
        332, 362, 351, 344, 352, 353, 326, 344,
        369, 380, 381, 365, 372, 386, 398, 366,
        365, 380, 380, 380, 379, 392, 383, 375,
        359, 378, 378, 391, 399, 377, 375, 369,
        361, 370, 384, 415, 402, 402, 372, 363,
        349, 402, 408, 405, 400, 415, 402, 363,
        339, 381, 347, 352, 395, 424, 383, 318,
        336, 369, 283, 328, 340, 323, 372, 357,
    ],
    [
        458, 464, 478, 494, 493, 484, 440, 451,
        433, 461, 457, 468, 476, 488, 471, 406,
        432, 452, 461, 460, 480, 477, 472, 444,
        441, 451, 465, 476, 486, 470, 483, 454,
        453, 466, 484, 503, 501, 512, 469, 457,
        472, 496, 503, 513, 494, 522, 538, 493,
        504, 509, 535, 539, 557, 544, 503, 521,
        509, 519, 509, 528, 540, 486, 508, 520,
    ],
    [
        1024, 1007, 1016, 1035, 1010, 1000, 994, 975,
        990, 1017, 1036, 1027, 1033, 1040, 1022, 1026,
        1011, 1027, 1014, 1023, 1020, 1027, 1039, 1030,
        1016, 999, 1016, 1015, 1023, 1021, 1028, 1022,
        998, 998, 1009, 1009, 1024, 1042, 1023, 1026,
        1012, 1008, 1032, 1033, 1054, 1081, 1072, 1082,
        1001, 986, 1020, 1026, 1009, 1082, 1053, 1079,
        997, 1025, 1054, 1037, 1084, 1069, 1068, 1070,
    ],
    [
        -15, 36, 12, -54, 8, -28, 24, 14,
        1, 7, -8, -64, -43, -16, 9, 8,
        -14, -14, -22, -46, -44, -30, -15, -27,
        -49, -1, -27, -39, -46, -44, -33, -51,
        -17, -20, -12, -27, -30, -25, -14, -36,
        -9, 24, 2, -16, -20, 6, 22, -22,
        29, -1, -20, -7, -8, -4, -38, -29,
        -65, 23, 16, -15, -56, -34, 2, 13,
    ],
    [
        82, 82, 82, 82, 82, 82, 82, 82,
        180, 216, 143, 177, 150, 208, 116, 71,
        76, 89, 108, 113, 147, 138, 107, 62,
        68, 95, 88, 103, 105, 94, 99, 59,
        55, 80, 77, 94, 99, 88, 92, 57,
        56, 78, 78, 72, 85, 85, 115, 70,
        47, 81, 62, 59, 67, 106, 120, 60,
        82, 82, 82, 82, 82, 82, 82, 82,
    ],
    [
        170, 248, 303, 288, 398, 240, 322, 230,
        264, 296, 409, 373, 360, 399, 344, 320,
        290, 397, 374, 402, 421, 466, 410, 381,
        328, 354, 356, 390, 374, 406, 355, 359,
        324, 341, 353, 350, 365, 356, 358, 329,
        314, 328, 349, 347, 356, 354, 362, 321,
        308, 284, 325, 334, 336, 355, 323, 318,
        232, 316, 279, 304, 320, 309, 318, 314,
    ],
    [
        336, 369, 283, 328, 340, 323, 372, 357,
        339, 381, 347, 352, 395, 424, 383, 318,
        349, 402, 408, 405, 400, 415, 402, 363,
        361, 370, 384, 415, 402, 402, 372, 363,
        359, 378, 378, 391, 399, 377, 375, 369,
        365, 380, 380, 380, 379, 392, 383, 375,
        369, 380, 381, 365, 372, 386, 398, 366,
        332, 362, 351, 344, 352, 353, 326, 344,
    ],
    [
        509, 519, 509, 528, 540, 486, 508, 520,
        504, 509, 535, 539, 557, 544, 503, 521,
        472, 496, 503, 513, 494, 522, 538, 493,
        453, 466, 484, 503, 501, 512, 469, 457,
        441, 451, 465, 476, 486, 470, 483, 454,
        432, 452, 461, 460, 480, 477, 472, 444,
        433, 461, 457, 468, 476, 488, 471, 406,
        458, 464, 478, 494, 493, 484, 440, 451,
    ],
    [
        997, 1025, 1054, 1037, 1084, 1069, 1068, 1070,
        1001, 986, 1020, 1026, 1009, 1082, 1053, 1079,
        1012, 1008, 1032, 1033, 1054, 1081, 1072, 1082,
        998, 998, 1009, 1009, 1024, 1042, 1023, 1026,
        1016, 999, 1016, 1015, 1023, 1021, 1028, 1022,
        1011, 1027, 1014, 1023, 1020, 1027, 1039, 1030,
        990, 1017, 1036, 1027, 1033, 1040, 1022, 1026,
        1024, 1007, 1016, 1035, 1010, 1000, 994, 975,
    ],
    [
        -65, 23, 16, -15, -56, -34, 2, 13,
        29, -1, -20, -7, -8, -4, -38, -29,
        -9, 24, 2, -16, -20, 6, 22, -22,
        -17, -20, -12, -27, -30, -25, -14, -36,
        -49, -1, -27, -39, -46, -44, -33, -51,
        -14, -14, -22, -46, -44, -30, -15, -27,
        1, 7, -8, -64, -43, -16, 9, 8,
        -15, 36, 12, -54, 8, -28, 24, 14,
    ],
];

/// Endgame value of each piece on each square, material included.
pub const EG_TABLE: [[i32; 64]; 12] = [
    [
        94, 94, 94, 94, 94, 94, 94, 94,
        107, 102, 102, 104, 107, 94, 96, 87,
        98, 101, 88, 95, 94, 89, 93, 86,
        107, 103, 91, 87, 87, 86, 97, 93,
        126, 118, 107, 99, 92, 98, 111, 111,
        188, 194, 179, 161, 150, 147, 176, 178,
        272, 267, 252, 228, 241, 226, 259, 281,
        94, 94, 94, 94, 94, 94, 94, 94,
    ],
    [
        252, 230, 258, 266, 259, 263, 231, 217,
        239, 261, 271, 276, 279, 261, 258, 237,
        258, 278, 280, 296, 291, 278, 261, 259,
        263, 275, 297, 306, 297, 298, 285, 263,
        264, 284, 303, 303, 303, 292, 289, 263,
        257, 261, 291, 290, 280, 272, 262, 240,
        256, 273, 256, 279, 272, 256, 257, 229,
        223, 243, 268, 253, 250, 254, 218, 182,
    ],
    [
        274, 288, 274, 292, 288, 281, 292, 280,
        283, 279, 290, 296, 301, 288, 282, 270,
        285, 294, 305, 307, 310, 300, 290, 282,
        291, 300, 310, 316, 304, 307, 294, 288,
        294, 306, 309, 306, 311, 307, 300, 299,
        299, 289, 297, 296, 295, 303, 297, 301,
        289, 293, 304, 285, 294, 284, 293, 283,
        283, 276, 286, 289, 290, 288, 280, 273,
    ],
    [
        503, 514, 515, 511, 507, 499, 516, 492,
        506, 506, 512, 514, 503, 503, 501, 509,
        508, 512, 507, 511, 505, 500, 504, 496,
        515, 517, 520, 516, 507, 506, 504, 501,
        516, 515, 525, 513, 514, 513, 511, 514,
        519, 519, 519, 517, 516, 509, 507, 509,
        523, 525, 525, 523, 509, 515, 520, 515,
        525, 522, 530, 527, 524, 524, 520, 517,
    ],
    [
        903, 908, 914, 893, 931, 904, 916, 895,
        914, 913, 906, 920, 920, 913, 900, 904,
        920, 909, 951, 942, 945, 953, 946, 941,
        918, 964, 955, 983, 967, 970, 975, 959,
        939, 958, 960, 981, 993, 976, 993, 972,
        916, 942, 945, 985, 983, 971, 955, 945,
        919, 956, 968, 977, 994, 961, 966, 936,
        927, 958, 958, 963, 963, 955, 946, 956,
    ],
    [
        -53, -34, -21, -11, -28, -14, -24, -43,
        -27, -11, 4, 13, 14, 4, -5, -17,
        -19, -3, 11, 21, 23, 16, 7, -9,
        -18, -4, 21, 24, 27, 23, 9, -11,
        -8, 22, 24, 27, 26, 33, 26, 3,
        10, 17, 23, 15, 20, 45, 44, 13,
        -12, 17, 14, 17, 17, 38, 23, 11,
        -74, -35, -18, -18, -11, 15, 4, -17,
    ],
    [
        94, 94, 94, 94, 94, 94, 94, 94,
        272, 267, 252, 228, 241, 226, 259, 281,
        188, 194, 179, 161, 150, 147, 176, 178,
        126, 118, 107, 99, 92, 98, 111, 111,
        107, 103, 91, 87, 87, 86, 97, 93,
        98, 101, 88, 95, 94, 89, 93, 86,
        107, 102, 102, 104, 107, 94, 96, 87,
        94, 94, 94, 94, 94, 94, 94, 94,
    ],
    [
        223, 243, 268, 253, 250, 254, 218, 182,
        256, 273, 256, 279, 272, 256, 257, 229,
        257, 261, 291, 290, 280, 272, 262, 240,
        264, 284, 303, 303, 303, 292, 289, 263,
        263, 275, 297, 306, 297, 298, 285, 263,
        258, 278, 280, 296, 291, 278, 261, 259,
        239, 261, 271, 276, 279, 261, 258, 237,
        252, 230, 258, 266, 259, 263, 231, 217,
    ],
    [
        283, 276, 286, 289, 290, 288, 280, 273,
        289, 293, 304, 285, 294, 284, 293, 283,
        299, 289, 297, 296, 295, 303, 297, 301,
        294, 306, 309, 306, 311, 307, 300, 299,
        291, 300, 310, 316, 304, 307, 294, 288,
        285, 294, 305, 307, 310, 300, 290, 282,
        283, 279, 290, 296, 301, 288, 282, 270,
        274, 288, 274, 292, 288, 281, 292, 280,
    ],
    [
        525, 522, 530, 527, 524, 524, 520, 517,
        523, 525, 525, 523, 509, 515, 520, 515,
        519, 519, 519, 517, 516, 509, 507, 509,
        516, 515, 525, 513, 514, 513, 511, 514,
        515, 517, 520, 516, 507, 506, 504, 501,
        508, 512, 507, 511, 505, 500, 504, 496,
        506, 506, 512, 514, 503, 503, 501, 509,
        503, 514, 515, 511, 507, 499, 516, 492,
    ],
    [
        927, 958, 958, 963, 963, 955, 946, 956,
        919, 956, 968, 977, 994, 961, 966, 936,
        916, 942, 945, 985, 983, 971, 955, 945,
        939, 958, 960, 981, 993, 976, 993, 972,
        918, 964, 955, 983, 967, 970, 975, 959,
        920, 909, 951, 942, 945, 953, 946, 941,
        914, 913, 906, 920, 920, 913, 900, 904,
        903, 908, 914, 893, 931, 904, 916, 895,
    ],
    [
        -74, -35, -18, -18, -11, 15, 4, -17,
        -12, 17, 14, 17, 17, 38, 23, 11,
        10, 17, 23, 15, 20, 45, 44, 13,
        -8, 22, 24, 27, 26, 33, 26, 3,
        -18, -4, 21, 24, 27, 23, 9, -11,
        -19, -3, 11, 21, 23, 16, 7, -9,
        -27, -11, 4, 13, 14, 4, -5, -17,
        -53, -34, -21, -11, -28, -14, -24, -43,
    ],
];

/// How much each piece adds to the game phase; pawns and kings add nothing.
pub const PHASE_INC: [i32; 12] = [0, 1, 1, 2, 4, 0, 0, 1, 1, 2, 4, 0];

/// The phase of a full board of pieces: pure middlegame.
pub const MAX_PHASE: i32 = 24;

/// The table value of piece index `idx` on `sq`, middlegame or endgame.
#[verifier::opaque]
pub open spec fn table_value(mg: bool, idx: int, sq: int) -> int {
    if mg {
        MG_TABLE[idx][sq] as int
    } else {
        EG_TABLE[idx][sq] as int
    }
}

/// The phase weight of piece index `idx`.
pub open spec fn phase_inc(idx: int) -> int {
    if idx == 1 || idx == 2 || idx == 7 || idx == 8 {
        1
    } else if idx == 3 || idx == 9 {
        2
    } else if idx == 4 || idx == 10 {
        4
    } else {
        0
    }
}

/// The table values of piece index `idx` summed over the squares of `bb` below `n`.
pub open spec fn bb_total(bb: u64, mg: bool, idx: int, n: nat) -> int
    decreases n,
{
    if n == 0 {
        0
    } else {
        bb_total(bb, mg, idx, (n - 1) as nat) + (if bit(bb, (n - 1) as u64) {
            table_value(mg, idx, n - 1)
        } else {
            0
        })
    }
}

/// The phase weights of pieces of index `idx` on the squares of `bb` below `n`.
pub open spec fn bb_phase(bb: u64, idx: int, n: nat) -> int
    decreases n,
{
    if n == 0 {
        0
    } else {
        bb_phase(bb, idx, (n - 1) as nat) + (if bit(bb, (n - 1) as u64) {
            phase_inc(idx)
        } else {
            0
        })
    }
}

fn table_entry(mg: bool, idx: usize, sq: usize) -> (v: i32)
    requires
        idx < 12,
        sq < 64,
    ensures
        v == table_value(mg, idx as int, sq as int),
        -100 <= v <= 1100,
{
    proof {
        reveal(table_value);
    }
    if mg {
        MG_TABLE[idx][sq]
    } else {
        EG_TABLE[idx][sq]
    }
}

/// Adds, for each piece of index `piece_idx` on a square of `bb`, its middlegame and endgame
/// values and its phase weight.
fn score_pieces(bb: u64, piece_idx: usize, mg: &mut i32, eg: &mut i32, phase: &mut i32)
    requires
        piece_idx < 12,
        -1_000_000 <= *old(mg) <= 1_000_000,
        -1_000_000 <= *old(eg) <= 1_000_000,
        0 <= *old(phase) <= 1_000_000,
    ensures
        *final(mg) == *old(mg) + bb_total(bb, true, piece_idx as int, 64),
        *final(eg) == *old(eg) + bb_total(bb, false, piece_idx as int, 64),
        *final(phase) == *old(phase) + bb_phase(bb, piece_idx as int, 64),
        0 <= bb_phase(bb, piece_idx as int, 64) <= 256,
        -1100 * 64 <= bb_total(bb, true, piece_idx as int, 64) <= 1100 * 64,
        -1100 * 64 <= bb_total(bb, false, piece_idx as int, 64) <= 1100 * 64,
{
    let ghost mg0 = *mg;
    let ghost eg0 = *eg;
    let ghost ph0 = *phase;
    let inc = PHASE_INC[piece_idx];
    proof {
        assert(inc == phase_inc(piece_idx as int));
    }
    let mut rest = bb;
    let ghost mut k: nat = 0;
    while rest != 0
        invariant
            piece_idx < 12,
            inc == phase_inc(piece_idx as int),
            k <= 64,
            forall|t: u64| t < 64 ==> (#[trigger] bit(rest, t) <==> (bit(bb, t) && t >= k)),
            *mg == mg0 + bb_total(bb, true, piece_idx as int, k),
            *eg == eg0 + bb_total(bb, false, piece_idx as int, k),
            *phase == ph0 + bb_phase(bb, piece_idx as int, k),
            0 <= bb_phase(bb, piece_idx as int, k) <= 4 * k,
            -1100 * k <= bb_total(bb, true, piece_idx as int, k) <= 1100 * k,
            -1100 * k <= bb_total(bb, false, piece_idx as int, k) <= 1100 * k,
            -1_000_000 <= mg0 <= 1_000_000,
            -1_000_000 <= eg0 <= 1_000_000,
            0 <= ph0 <= 1_000_000,
        decreases rest,
    {
        let sq = lsb(rest);
        let ghost t = sq as u64;
        proof {
            assert forall|u: u64| k <= u < t implies !#[trigger] bit(bb, u) by {
                assert(!bit(rest, u));
            }
            lemma_skip_empty(bb, piece_idx as int, k, t as nat);
        }
        rest = pop_lsb(rest);
        let v = table_entry(true, piece_idx, sq as usize);
        let w = table_entry(false, piece_idx, sq as usize);
        *mg = *mg + v;
        *eg = *eg + w;
        *phase = *phase + inc;
        proof {
            k = (t + 1) as nat;
            assert(bit(bb, t));
        }
    }
    proof {
        assert forall|u: u64| k <= u < 64 implies !#[trigger] bit(bb, u) by {
            crate::bits::lemma_bit_zero(u);
            assert(!bit(rest, u));
        }
        lemma_skip_empty(bb, piece_idx as int, k, 64);
    }
}

/// Squares not in `bb` add nothing to its totals.
proof fn lemma_skip_empty(bb: u64, idx: int, lo: nat, hi: nat)
    requires
        lo <= hi <= 64,
        forall|t: u64| lo <= t < hi ==> !#[trigger] bit(bb, t),
    ensures
        bb_total(bb, true, idx, hi) == bb_total(bb, true, idx, lo),
        bb_total(bb, false, idx, hi) == bb_total(bb, false, idx, lo),
        bb_phase(bb, idx, hi) == bb_phase(bb, idx, lo),
    decreases hi - lo,
{
    if hi > lo {
        lemma_skip_empty(bb, idx, lo, (hi - 1) as nat);
        assert(!bit(bb, (hi - 1) as u64));
    }
}

/// A pawn on `sq` (white when `white`, else black) is passed: no pawn of `enemy` stands
/// ahead of it on its file or a file beside it.
pub open spec fn pawn_passed(white: bool, sq: int, enemy: u64) -> bool {
    forall|t: u64|
        t < 64 && (if white {
            white_passed_square(sq, t as int)
        } else {
            black_passed_square(sq, t as int)
        }) ==> !#[trigger] bit(enemy, t)
}

/// The bonus of a passed pawn on `sq`, by its rank counted from its own side.
pub open spec fn passed_bonus(white: bool, mg: bool, sq: int) -> int {
    let rank = if white {
        sq / 8
    } else {
        7 - sq / 8
    };
    if mg {
        PASSED_PAWN_MG_BONUS[rank] as int
    } else {
        PASSED_PAWN_EG_BONUS[rank] as int
    }
}

/// The square `sq` seen from the other side of the board: the same file, the rank mirrored.
pub open spec fn mirror_square(sq: int) -> int {
    (7 - sq / 8) * 8 + sq % 8
}

/// Mirroring keeps a square on the board, keeps its file, turns rank `r` into `7 - r`, and
/// undoes itself.
pub proof fn lemma_mirror_square(sq: int)
    requires
        0 <= sq < 64,
    ensures
        0 <= mirror_square(sq) < 64,
        mirror_square(sq) / 8 == 7 - sq / 8,
        mirror_square(sq) % 8 == sq % 8,
        mirror_square(mirror_square(sq)) == sq,
{
    let r = sq / 8;
    let f = sq % 8;
    assert(sq == r * 8 + f);
    assert(0 <= r < 8 && 0 <= f < 8);
    let m = (7 - r) * 8 + f;
    assert(m / 8 == 7 - r && m % 8 == f) by (nonlinear_arith)
        requires
            m == (7 - r) * 8 + f,
            0 <= r < 8,
            0 <= f < 8,
    ;
    assert(mirror_square(m) == (7 - (7 - r)) * 8 + f);
}

/// Passed pawns are judged and rewarded alike for both colours: a black pawn on `sq` is
/// passed against the white pawns `enemy` exactly when a white pawn on the mirrored square is
/// passed against the mirrored pawns, and it earns the same bonus, the one of its rank
/// counted from black's side.
pub proof fn lemma_passed_pawn_mirror(mg: bool, sq: int, enemy: u64, mirrored: u64)
    requires
        0 <= sq < 64,
        forall|t: u64| t < 64 ==> (#[trigger] bit(mirrored, t) <==> bit(enemy, mirror_square(t as int) as u64)),
    ensures
        passed_bonus(false, mg, sq) == passed_bonus(true, mg, mirror_square(sq)),
        pawn_passed(false, sq, enemy) <==> pawn_passed(true, mirror_square(sq), mirrored),
{
    lemma_mirror_square(sq);
    let ms = mirror_square(sq);
    if pawn_passed(false, sq, enemy) {
        assert forall|u: u64| u < 64 && white_passed_square(ms, u as int) implies !#[trigger] bit(mirrored, u) by {
            lemma_mirror_square(u as int);
            let t = mirror_square(u as int);
            assert(black_passed_square(sq, t));
            assert(!bit(enemy, t as u64));
        }
    }
    if pawn_passed(true, ms, mirrored) {
        assert forall|t: u64| t < 64 && black_passed_square(sq, t as int) implies !#[trigger] bit(enemy, t) by {
            lemma_mirror_square(t as int);
            let u = mirror_square(t as int);
            assert(white_passed_square(ms, u));
            assert(!bit(mirrored, u as u64));
            assert(mirror_square(u) == t);
        }
    }
}

/// The passed-pawn bonuses of the pawns of `own` on the squares below `n`, against the
/// pawns of `enemy`.
pub open spec fn passed_total(own: u64, enemy: u64, white: bool, mg: bool, n: nat) -> int
    decreases n,
{
    if n == 0 {
        0
    } else {
        passed_total(own, enemy, white, mg, (n - 1) as nat) + (if bit(own, (n - 1) as u64) && pawn_passed(
            white,
            n - 1,
            enemy,
        ) {
            passed_bonus(white, mg, n - 1)
        } else {
            0
        })
    }
}

/// Squares not in `own` add no bonus.
proof fn lemma_skip_passed(own: u64, enemy: u64, white: bool, lo: nat, hi: nat)
    requires
        lo <= hi <= 64,
        forall|t: u64| lo <= t < hi ==> !#[trigger] bit(own, t),
    ensures
        passed_total(own, enemy, white, true, hi) == passed_total(own, enemy, white, true, lo),
        passed_total(own, enemy, white, false, hi) == passed_total(own, enemy, white, false, lo),
    decreases hi - lo,
{
    if hi > lo {
        lemma_skip_passed(own, enemy, white, lo, (hi - 1) as nat);
        assert(!bit(own, (hi - 1) as u64));
    }
}

/// The bonus of a passed pawn, and whether it is passed: no enemy pawn in its mask.
fn passed_bonus_of(white: bool, sq: usize, enemy: u64) -> (r: (i32, i32))
    requires
        sq < 64,
    ensures
        pawn_passed(white, sq as int, enemy) ==> r.0 == passed_bonus(white, true, sq as int) && r.1 == passed_bonus(
            white,
            false,
            sq as int,
        ),
        !pawn_passed(white, sq as int, enemy) ==> r.0 == 0 && r.1 == 0,
        0 <= r.0 <= 130,
        0 <= r.1 <= 130,
{
    let mask = if white {
        white_passed_mask(sq)
    } else {
        black_passed_mask(sq)
    };
    proof {
        if mask & enemy == 0 {
            assert forall|t: u64|
                t < 64 && (if white {
                    white_passed_square(sq as int, t as int)
                } else {
                    black_passed_square(sq as int, t as int)
                }) implies !#[trigger] bit(enemy, t) by {
                crate::bits::lemma_bit_and(mask, enemy, t);
                crate::bits::lemma_bit_zero(t);
            }
        } else {
            let t = crate::legality::lemma_some_bit(mask & enemy);
            crate::bits::lemma_bit_and(mask, enemy, t);
        }
    }
    if mask & enemy != 0 {
        return (0, 0);
    }
    let rank = if white {
        sq / 8
    } else {
        7 - sq / 8
    };
    (PASSED_PAWN_MG_BONUS[rank], PASSED_PAWN_EG_BONUS[rank])
}

/// Adds the middlegame and endgame bonuses of the passed pawns of `own` against `enemy`.
fn score_passed(own: u64, enemy: u64, white: bool, mg: &mut i32, eg: &mut i32)
    requires
        -1_000_000 <= *old(mg) <= 1_000_000,
        -1_000_000 <= *old(eg) <= 1_000_000,
    ensures
        *final(mg) == *old(mg) + passed_total(own, enemy, white, true, 64),
        *final(eg) == *old(eg) + passed_total(own, enemy, white, false, 64),
        0 <= passed_total(own, enemy, white, true, 64) <= 130 * 64,
        0 <= passed_total(own, enemy, white, false, 64) <= 130 * 64,
{
    let ghost mg0 = *mg;
    let ghost eg0 = *eg;
    let mut rest = own;
    let ghost mut k: nat = 0;
    while rest != 0
        invariant
            k <= 64,
            forall|t: u64| t < 64 ==> (#[trigger] bit(rest, t) <==> (bit(own, t) && t >= k)),
            *mg == mg0 + passed_total(own, enemy, white, true, k),
            *eg == eg0 + passed_total(own, enemy, white, false, k),
            0 <= passed_total(own, enemy, white, true, k) <= 130 * k,
            0 <= passed_total(own, enemy, white, false, k) <= 130 * k,
            -1_000_000 <= mg0 <= 1_000_000,
            -1_000_000 <= eg0 <= 1_000_000,
        decreases rest,
    {
        let sq = lsb(rest);
        let ghost t = sq as u64;
        proof {
            assert forall|u: u64| k <= u < t implies !#[trigger] bit(own, u) by {
                assert(!bit(rest, u));
            }
            lemma_skip_passed(own, enemy, white, k, t as nat);
        }
        rest = pop_lsb(rest);
        let (v, w) = passed_bonus_of(white, sq as usize, enemy);
        *mg = *mg + v;
        *eg = *eg + w;
        proof {
            k = (t + 1) as nat;
            assert(bit(own, t));
        }
    }
    proof {
        assert forall|u: u64| k <= u < 64 implies !#[trigger] bit(own, u) by {
            crate::bits::lemma_bit_zero(u);
            assert(!bit(rest, u));
        }
        lemma_skip_passed(own, enemy, white, k, 64);
    }
}

/// The bitboard of piece `p` in a mailbox.
pub open spec fn bb_of(mb: Seq<u8>, p: u8) -> u64 {
    choose|b: u64| #[trigger] piece_bb_ok(b, mb, p)
}

/// The table values of the pieces of `side` (0 white, 1 black), plus the bishop-pair bonus
/// when it has two bishops or more (30 in the middlegame, 50 in the endgame), plus the
/// bonus of each passed pawn by its rank.
pub open spec fn side_total(mb: Seq<u8>, side: int, mg: bool) -> int {
    let base = side * 6;
    bb_total(bb_of(mb, (base + 1) as u8), mg, base, 64) + bb_total(bb_of(mb, (base + 2) as u8), mg, base + 1, 64)
        + bb_total(bb_of(mb, (base + 3) as u8), mg, base + 2, 64) + bb_total(bb_of(mb, (base + 4) as u8), mg, base + 3, 64)
        + bb_total(bb_of(mb, (base + 5) as u8), mg, base + 4, 64) + bb_total(bb_of(mb, (base + 6) as u8), mg, base + 5, 64)
        + (if popcount(bb_of(mb, (base + 3) as u8)) >= 2 {
        if mg {
            30int
        } else {
            50int
        }
    } else {
        0int
    }) + passed_total(bb_of(mb, (base + 1) as u8), bb_of(mb, (7 - base) as u8), side == 0, mg, 64)
}

/// The game phase of the pieces on the board: 1 per knight and bishop, 2 per rook, 4 per
/// queen.
pub open spec fn phase_total(mb: Seq<u8>) -> int {
    bb_phase(bb_of(mb, 1), 0, 64) + bb_phase(bb_of(mb, 2), 1, 64) + bb_phase(bb_of(mb, 3), 2, 64) + bb_phase(bb_of(mb, 4), 3, 64)
        + bb_phase(bb_of(mb, 5), 4, 64) + bb_phase(bb_of(mb, 6), 5, 64) + bb_phase(bb_of(mb, 7), 6, 64) + bb_phase(bb_of(mb, 8), 7, 64)
        + bb_phase(bb_of(mb, 9), 8, 64) + bb_phase(bb_of(mb, 10), 9, 64) + bb_phase(bb_of(mb, 11), 10, 64) + bb_phase(bb_of(mb, 12), 11, 64)
}

/// Integer division rounding toward zero, as Rust's `/` does.
pub open spec fn div_toward_zero(n: int, d: int) -> int {
    if n >= 0 {
        n / d
    } else {
        -((-n) / d)
    }
}

/// The evaluation of a position from the side to move's point of view: the middlegame and
/// endgame differences (white minus black) blended by the phase, capped at 24.
pub open spec fn evaluation(p: Position) -> int {
    let mb = p.mailbox;
    let ph = if phase_total(mb) < 24 {
        phase_total(mb)
    } else {
        24
    };
    let mg = side_total(mb, 0, true) - side_total(mb, 1, true);
    let eg = side_total(mb, 0, false) - side_total(mb, 1, false);
    let score = div_toward_zero(mg * ph + eg * (24 - ph), 24);
    if p.side == 0 {
        score
    } else {
        -score
    }
}

/// The evaluation is from the side to move's point of view: handing the move to the other
/// side negates it.
pub proof fn lemma_evaluation_turn(p: Position)
    requires
        p.side <= 1,
    ensures
        evaluation(Position { side: (1 - p.side) as u8, ..p }) == -evaluation(p),
{
}

/// The bitboards of a well-formed board are the ones its mailbox determines.
pub proof fn lemma_bb_of(b: &Board, i: int)
    requires
        b.wf(),
        0 <= i < 12,
    ensures
        b.pieces@[i] == bb_of(b.mailbox@, (i + 1) as u8),
{
    let mb = b.mailbox@;
    let p = (i + 1) as u8;
    assert(piece_bb_ok(b.pieces@[i], mb, p));
    let o = bb_of(mb, p);
    assert forall|t: u64| t < 64 implies (#[trigger] bit(b.pieces@[i], t) <==> bit(o, t)) by {
        assert(bit(o, t) <==> mb[t as int] == p);
    }
    lemma_bits_ext(b.pieces@[i], o);
}

impl Board {
    /// The static evaluation in centipawns, from the side to move's point of view.
    pub fn evaluate(&self) -> (r: i32)
        requires
            self.wf(),
        ensures
            r == evaluation(self@),
            -900_000 < r < 900_000,
    {
        proof {
            assert forall|i: int| 0 <= i < 12 implies #[trigger] self.pieces@[i] == bb_of(self.mailbox@, (i + 1) as u8) by {
                lemma_bb_of(self, i);
            }
        }
        let mut mg_white = 0i32;
        let mut eg_white = 0i32;
        let mut mg_black = 0i32;
        let mut eg_black = 0i32;
        let mut phase = 0i32;

        score_pieces(self.pieces[0], 0, &mut mg_white, &mut eg_white, &mut phase);
        score_pieces(self.pieces[1], 1, &mut mg_white, &mut eg_white, &mut phase);
        score_pieces(self.pieces[2], 2, &mut mg_white, &mut eg_white, &mut phase);
        score_pieces(self.pieces[3], 3, &mut mg_white, &mut eg_white, &mut phase);
        score_pieces(self.pieces[4], 4, &mut mg_white, &mut eg_white, &mut phase);
        score_pieces(self.pieces[5], 5, &mut mg_white, &mut eg_white, &mut phase);

        score_pieces(self.pieces[6], 6, &mut mg_black, &mut eg_black, &mut phase);
        score_pieces(self.pieces[7], 7, &mut mg_black, &mut eg_black, &mut phase);
        score_pieces(self.pieces[8], 8, &mut mg_black, &mut eg_black, &mut phase);
        score_pieces(self.pieces[9], 9, &mut mg_black, &mut eg_black, &mut phase);
        score_pieces(self.pieces[10], 10, &mut mg_black, &mut eg_black, &mut phase);
        score_pieces(self.pieces[11], 11, &mut mg_black, &mut eg_black, &mut phase);

        if count_ones(self.pieces[2]) >= 2 {
            mg_white = mg_white + 30;
            eg_white = eg_white + 50;
        }
        if count_ones(self.pieces[8]) >= 2 {
            mg_black = mg_black + 30;
            eg_black = eg_black + 50;
        }

        score_passed(self.pieces[0], self.pieces[6], true, &mut mg_white, &mut eg_white);
        score_passed(self.pieces[6], self.pieces[0], false, &mut mg_black, &mut eg_black);

        let phase = if phase < MAX_PHASE {
            phase
        } else {
            MAX_PHASE
        };
        let eg_phase = MAX_PHASE - phase;

        let mg_score = mg_white - mg_black;
        let eg_score = eg_white - eg_black;

        assert(-870_000 * phase <= mg_score * phase <= 870_000 * phase) by (nonlinear_arith)
            requires
                -870_000 <= mg_score <= 870_000,
                0 <= phase <= 24,
        ;
        assert(-870_000 * eg_phase <= eg_score * eg_phase <= 870_000 * eg_phase) by (nonlinear_arith)
            requires
                -870_000 <= eg_score <= 870_000,
                0 <= eg_phase <= 24,
        ;
        let num = mg_score * phase + eg_score * eg_phase;
        let score = if num >= 0 {
            num / MAX_PHASE
        } else {
            -((-num) / MAX_PHASE)
        };
        if self.side_to_move == WHITE as u8 {
            score
        } else {
            -score
        }
    }
}

} // verus!
