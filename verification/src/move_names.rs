//! A legal move is named by its UCI text alone: two legal moves of a position with the same
//! from-square, to-square and promotion piece are the same move.
use vstd::prelude::*;
use crate::board::{Position, BK, BR, WK, WR};
use crate::legality::{king_of, legal_move, occ_of, pseudo_move};
use crate::movegen::{castle_move, enemy_at, kind_attacks, own_at, piece_code, piece_move, step_move};
use crate::moves::{
    file_char, flags_ok, lemma_pack_fields, m_captured, m_flags, m_from, m_is_capture, m_is_castle, m_is_double, m_is_ep,
    m_is_promotion, m_piece, m_promo, m_to, move_text, pack_move, promo_letter, rank_char, FLAG_CAPTURE, FLAG_CASTLE,
    FLAG_DOUBLE, FLAG_EP, FLAG_PROMOTION,
};
use crate::pawns::{
    capture_from, diagonal_ok, fwd, on_promo_rank, on_start_rank, pawn_cap, pawn_capture, pawn_double, pawn_ep,
    pawn_move_to, pawn_of, pawn_push, promo_piece,
};
use crate::position::{lemma_flag_values, sound_position};

verus! {

/// What the position tells about a move from its from-square and to-square: the piece is
/// the one on the from-square, it captures what stands on the to-square (a pawn en passant
/// when a pawn goes to the en-passant square), it is a double push, a castling or a
/// promotion exactly when the squares say so, and only promotions name a piece.
pub open spec fn fields_fixed(p: Position, m: u32) -> bool {
    let mb = p.mailbox;
    let side = p.side as int;
    let from = m_from(m) as int;
    let to = m_to(m) as int;
    let pawn = mb[from] == pawn_of(side);
    let ep = pawn && to == p.ep as int && crate::pawns::ep_target_ok(p);
    &&& m_piece(m) == mb[from]
    &&& m_is_ep(m) == ep
    &&& m_captured(m) == (if ep {
        pawn_of(1 - side)
    } else {
        mb[to]
    })
    &&& m_is_capture(m) == (mb[to] != 0 || ep)
    &&& m_is_double(m) == (pawn && (to - from == 16 || from - to == 16))
    &&& m_is_castle(m) == (mb[from] == king_of(side) && (to - from == 2 || from - to == 2))
    &&& m_is_promotion(m) == (pawn && on_promo_rank(side, to) && !ep)
    &&& !m_is_promotion(m) ==> m_promo(m) == 0
    &&& m_is_promotion(m) ==> exists|k: int| 0 <= k < 4 && m_promo(m) == #[trigger] promo_piece(side, k)
    &&& flags_ok(m_flags(m))
}

/// A move is the packing of its own fields.
proof fn lemma_repack(m: u32)
    ensures
        m == pack_move(m_from(m), m_to(m), m_piece(m), m_captured(m), m_promo(m), m_flags(m)),
{
    assert(m == ((m & 0x3Fu32) as u8 as u32) | ((((m >> 6u32) & 0x3Fu32) as u8 as u32) << 6u32) | ((((m >> 12u32)
        & 0xFu32) as u8 as u32) << 12u32) | ((((m >> 16u32) & 0xFu32) as u8 as u32) << 16u32) | ((((m >> 20u32)
        & 0xFu32) as u8 as u32) << 20u32) | (m & 0xFF00_0000u32)) by (bit_vector);
}

/// Flags within the five flag bits are equal when each bit is.
proof fn lemma_flags_equal(a: u32, b: u32)
    by (bit_vector)
    requires
        a & 0xE0FF_FFFFu32 == 0,
        b & 0xE0FF_FFFFu32 == 0,
        (a & 0x0100_0000u32 != 0) == (b & 0x0100_0000u32 != 0),
        (a & 0x0200_0000u32 != 0) == (b & 0x0200_0000u32 != 0),
        (a & 0x0400_0000u32 != 0) == (b & 0x0400_0000u32 != 0),
        (a & 0x0800_0000u32 != 0) == (b & 0x0800_0000u32 != 0),
        (a & 0x1000_0000u32 != 0) == (b & 0x1000_0000u32 != 0),
    ensures
        a == b,
{
}

/// Every pseudo-legal move of a sound position has the fields its squares fix.
pub proof fn lemma_fields_fixed(p: Position, m: u32)
    requires
        sound_position(p),
        pseudo_move(p, occ_of(p.mailbox), m),
    ensures
        fields_fixed(p, m),
{
    let side = p.side as int;
    let mb = p.mailbox;
    let occ = occ_of(mb);
    lemma_flag_values();
    crate::board::lemma_side_flip(p.side);
    if pawn_push(p, m) {
        let to = choose|to: int| #![trigger p.mailbox[to]] 0 <= to < 64 && 0 <= to - fwd(side) < 64 && p.mailbox[to - fwd(side)] == pawn_of(side)
            && p.mailbox[to] == 0 && pawn_move_to(p, to - fwd(side), to, 0, m);
        let from = to - fwd(side);
        assert(!(to == p.ep as int && crate::pawns::ep_target_ok(p)));
        if on_promo_rank(side, to) {
            let k = choose|k: int| 0 <= k < 4 && m == #[trigger] pack_move(from as u8, to as u8, pawn_of(side), pawn_cap(p, to, 0), promo_piece(side, k), 0 | FLAG_PROMOTION);
            lemma_pack_fields(from as u8, to as u8, pawn_of(side), 0, promo_piece(side, k), 0 | FLAG_PROMOTION);
        } else {
            lemma_pack_fields(from as u8, to as u8, pawn_of(side), 0, 0, 0);
        }
    } else if pawn_double(p, m) {
        let f = fwd(side);
        let to = choose|to: int| #![trigger p.mailbox[to]] 0 <= to < 64 && 0 <= to - 2 * f < 64 && on_start_rank(side, to - 2 * f)
            && p.mailbox[to - 2 * f] == pawn_of(side) && p.mailbox[to - f] == 0 && p.mailbox[to] == 0
            && m == pack_move((to - 2 * f) as u8, to as u8, pawn_of(side), 0, 0, FLAG_DOUBLE);
        assert(!(to == p.ep as int && crate::pawns::ep_target_ok(p)));
        lemma_pack_fields((to - 2 * f) as u8, to as u8, pawn_of(side), 0, 0, FLAG_DOUBLE);
    } else if pawn_capture(p, m) {
        let (to, dx) = choose|to: int, dx: int| #![trigger capture_from(side, to, dx), p.mailbox[to]] 0 <= to < 64 && (dx == -1 || dx == 1)
            && 0 <= capture_from(side, to, dx) < 64 && diagonal_ok(capture_from(side, to, dx), dx)
            && p.mailbox[capture_from(side, to, dx)] == pawn_of(side) && enemy_at(p, to)
            && pawn_move_to(p, capture_from(side, to, dx), to, FLAG_CAPTURE, m);
        let from = capture_from(side, to, dx);
        assert(mb[to] <= 12);
        assert(!(to == p.ep as int && crate::pawns::ep_target_ok(p)));
        if on_promo_rank(side, to) {
            let k = choose|k: int| 0 <= k < 4 && m == #[trigger] pack_move(from as u8, to as u8, pawn_of(side), pawn_cap(p, to, FLAG_CAPTURE), promo_piece(side, k), FLAG_CAPTURE | FLAG_PROMOTION);
            lemma_pack_fields(from as u8, to as u8, pawn_of(side), mb[to], promo_piece(side, k), FLAG_CAPTURE | FLAG_PROMOTION);
        } else {
            lemma_pack_fields(from as u8, to as u8, pawn_of(side), mb[to], 0, FLAG_CAPTURE);
        }
    } else if pawn_ep(p, m) {
        let e = p.ep as int;
        let dx = choose|dx: int| #![trigger capture_from(side, e, dx)] (dx == -1 || dx == 1)
            && 0 <= capture_from(side, e, dx) < 64 && diagonal_ok(capture_from(side, e, dx), dx)
            && p.mailbox[capture_from(side, e, dx)] == pawn_of(side)
            && m == pack_move(capture_from(side, e, dx) as u8, p.ep, pawn_of(side), pawn_of(1 - side), 0, FLAG_CAPTURE | FLAG_EP);
        lemma_pack_fields(capture_from(side, e, dx) as u8, p.ep, pawn_of(side), pawn_of(1 - side), 0, FLAG_CAPTURE | FLAG_EP);
        assert(mb[m_to(m) as int] == 0);
    } else if castle_move(p, m) {
        let c = p.castling;
        if p.side == 0 {
            if c & 1 != 0 && mb[4] == WK && mb[7] == WR && mb[5] == 0 && mb[6] == 0 && m == pack_move(4, 6, WK, 0, 0, FLAG_CASTLE) {
                lemma_pack_fields(4, 6, WK, 0, 0, FLAG_CASTLE);
            } else {
                lemma_pack_fields(4, 2, WK, 0, 0, FLAG_CASTLE);
            }
        } else {
            if c & 4 != 0 && mb[60] == BK && mb[63] == BR && mb[61] == 0 && mb[62] == 0 && m == pack_move(60, 62, BK, 0, 0, FLAG_CASTLE) {
                lemma_pack_fields(60, 62, BK, 0, 0, FLAG_CASTLE);
            } else {
                lemma_pack_fields(60, 58, BK, 0, 0, FLAG_CASTLE);
            }
        }
    } else {
        let kind = if piece_move(p, occ, crate::board::WN, m) {
            crate::board::WN
        } else if piece_move(p, occ, crate::board::WB, m) {
            crate::board::WB
        } else if piece_move(p, occ, crate::board::WR, m) {
            crate::board::WR
        } else if piece_move(p, occ, crate::board::WQ, m) {
            crate::board::WQ
        } else {
            WK
        };
        let pc = piece_code(kind, side);
        let (from, to) = choose|from: u64, to: u64| #![trigger step_move(p.mailbox, from, to, pc)]
            from < 64 && to < 64 && p.mailbox[from as int] == pc && kind_attacks(kind, from, to, occ)
                && !own_at(p, to as int) && m == step_move(p.mailbox, from, to, pc);
        assert(mb[to as int] <= 12);
        if mb[to as int] == 0 {
            lemma_pack_fields(from as u8, to as u8, pc, 0, 0, 0);
        } else {
            lemma_pack_fields(from as u8, to as u8, pc, mb[to as int], 0, FLAG_CAPTURE);
        }
        if kind == WK {
            crate::attacks::lemma_king_attacks(from, to);
        }
    }
}

/// Two pseudo-legal moves of a sound position with the same squares and the same
/// promotion piece (when they promote) are the same move.
pub proof fn lemma_squares_fix_move(p: Position, a: u32, b: u32)
    requires
        sound_position(p),
        pseudo_move(p, occ_of(p.mailbox), a),
        pseudo_move(p, occ_of(p.mailbox), b),
        m_from(a) == m_from(b),
        m_to(a) == m_to(b),
        m_is_promotion(a) ==> m_promo(a) == m_promo(b),
    ensures
        a == b,
{
    lemma_fields_fixed(p, a);
    lemma_fields_fixed(p, b);
    lemma_flags_equal(m_flags(a), m_flags(b));
    lemma_repack(a);
    lemma_repack(b);
}

/// A square's file letter and rank digit name it.
proof fn lemma_square_chars(a: u8, b: u8)
    requires
        a < 64,
        b < 64,
        file_char(a) == file_char(b),
        rank_char(a) == rank_char(b),
    ensures
        a == b,
{
    assert(file_char(a) as u32 == 97 + a % 8);
    assert(file_char(b) as u32 == 97 + b % 8);
    assert(rank_char(a) as u32 == 49 + a / 8);
    assert(rank_char(b) as u32 == 49 + b / 8);
    assert(a % 8 == b % 8);
    assert(a / 8 == b / 8);
    assert(a == (a / 8) * 8 + a % 8);
    assert(b == (b / 8) * 8 + b % 8);
}

/// A UCI move text names at most one legal move of a sound position.
pub proof fn lemma_move_text_unique(p: Position, a: u32, b: u32)
    requires
        sound_position(p),
        legal_move(p, a),
        legal_move(p, b),
        move_text(a) == move_text(b),
    ensures
        a == b,
{
    crate::moves::lemma_fields_in_range(a);
    crate::moves::lemma_fields_in_range(b);
    let ta = move_text(a);
    let tb = move_text(b);
    assert(ta[0] == tb[0] && ta[1] == tb[1] && ta[2] == tb[2] && ta[3] == tb[3]);
    lemma_square_chars(m_from(a), m_from(b));
    lemma_square_chars(m_to(a), m_to(b));
    lemma_fields_fixed(p, a);
    lemma_fields_fixed(p, b);
    if m_is_promotion(a) {
        assert(ta.len() == 5 && tb.len() == 5);
        assert(promo_letter(m_promo(a)) == promo_letter(m_promo(b))) by {
            assert(ta[4] == tb[4]);
        }
        let ka = choose|k: int| 0 <= k < 4 && m_promo(a) == #[trigger] promo_piece(p.side as int, k);
        let kb = choose|k: int| 0 <= k < 4 && m_promo(b) == #[trigger] promo_piece(p.side as int, k);
    }
    lemma_squares_fix_move(p, a, b);
}

} // verus!
