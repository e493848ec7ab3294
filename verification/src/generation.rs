//! Bitboard masks and castling constants shared by move generation.
use vstd::prelude::*;

verus! {

pub const RANK_1: u64 = 0x0000_0000_0000_00FF;
pub const RANK_2: u64 = 0x0000_0000_0000_FF00;
pub const RANK_3: u64 = 0x0000_0000_00FF_0000;
pub const RANK_6: u64 = 0x0000_FF00_0000_0000;
pub const RANK_7: u64 = 0x00FF_0000_0000_0000;
pub const RANK_8: u64 = 0xFF00_0000_0000_0000;

pub const FILE_A: u64 = 0x0101_0101_0101_0101;
pub const FILE_B: u64 = 0x0202_0202_0202_0202;
pub const FILE_G: u64 = 0x4040_4040_4040_4040;
pub const FILE_H: u64 = 0x8080_8080_8080_8080;

pub const NOT_A: u64 = 0xFEFE_FEFE_FEFE_FEFE;
pub const NOT_AB: u64 = 0xFCFC_FCFC_FCFC_FCFC;
pub const NOT_H: u64 = 0x7F7F_7F7F_7F7F_7F7F;
pub const NOT_GH: u64 = 0x3F3F_3F3F_3F3F_3F3F;

pub const PROMO_RANK_WHITE: u64 = 0xFF00_0000_0000_0000;
pub const PROMO_RANK_BLACK: u64 = 0x0000_0000_0000_00FF;

pub const CASTLE_WK: u8 = 1;
pub const CASTLE_WQ: u8 = 2;
pub const CASTLE_BK: u8 = 4;
pub const CASTLE_BQ: u8 = 8;

/// f1, g1
pub const WK_EMPTY: u64 = 0x0000_0000_0000_0060;
/// b1, c1, d1
pub const WQ_EMPTY: u64 = 0x0000_0000_0000_000E;
/// f8, g8
pub const BK_EMPTY: u64 = 0x6000_0000_0000_0000;
/// b8, c8, d8
pub const BQ_EMPTY: u64 = 0x0E00_0000_0000_0000;

/// The castling rights that survive a move touching a square: a1 and h1 take the white
/// queen- and king-side rights, e1 both white rights, a8, h8 and e8 the same for black.
pub const CASTLING_RIGHTS_MASK: [u8; 64] = [
    0xFD, 0xFF, 0xFF, 0xFF, 0xFC, 0xFF, 0xFF, 0xFE,
    0xFF, 0xFF, 0xFF, 0xFF, 0xFF, 0xFF, 0xFF, 0xFF,
    0xFF, 0xFF, 0xFF, 0xFF, 0xFF, 0xFF, 0xFF, 0xFF,
    0xFF, 0xFF, 0xFF, 0xFF, 0xFF, 0xFF, 0xFF, 0xFF,
    0xFF, 0xFF, 0xFF, 0xFF, 0xFF, 0xFF, 0xFF, 0xFF,
    0xFF, 0xFF, 0xFF, 0xFF, 0xFF, 0xFF, 0xFF, 0xFF,
    0xFF, 0xFF, 0xFF, 0xFF, 0xFF, 0xFF, 0xFF, 0xFF,
    0xF7, 0xFF, 0xFF, 0xFF, 0xF3, 0xFF, 0xFF, 0xFB,
];

/// The castling rights kept when a move starts or ends on `sq`.
pub open spec fn rights_mask(sq: int) -> u8 {
    if sq == 0 {
        0xFD
    } else if sq == 7 {
        0xFE
    } else if sq == 4 {
        0xFC
    } else if sq == 56 {
        0xF7
    } else if sq == 63 {
        0xFB
    } else if sq == 60 {
        0xF3
    } else {
        0xFF
    }
}

pub fn castling_rights_mask(sq: u8) -> (r: u8)
    requires
        sq < 64,
    ensures
        r == rights_mask(sq as int),
{
    CASTLING_RIGHTS_MASK[sq as usize]
}

} // verus!
