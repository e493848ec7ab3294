//! Sound positions, and why every pseudo-legal move of one can be made and taken back.
use vstd::prelude::*;
use crate::board::{mailbox_ok, piece_of_side, Position, BK, BP, BR, WB, WK, WN, WP, WQ, WR};
use crate::legality::{attacked_by, capture_move, has_king, king_of, piece_attacks, pseudo_move};
use crate::moves::{m_from, m_piece, m_to};
use crate::makemove::{ep_victim, make_spec, move_fits, move_matches, moved_mailbox};
use crate::movegen::{castle_move, enemy_at, own_at, piece_code, piece_capture, piece_move, step_move, king_capture_from};
use crate::moves::{lemma_pack_fields, m_is_castle, m_is_double, m_is_ep, m_is_promotion, pack_move, FLAG_CAPTURE, FLAG_CASTLE, FLAG_DOUBLE, FLAG_EP, FLAG_PROMOTION, flags_ok};
use crate::pawns::{capture_from, diagonal_ok, fwd, on_promo_rank, on_start_rank, pawn_cap, pawn_capture, pawn_double, pawn_ep, pawn_move_to, pawn_of, pawn_pseudo, pawn_pseudo_capture, pawn_push, promo_piece};

verus! {

/// A position in which every pseudo-legal move of the side to move can be made and taken
/// back: the squares hold piece codes, the castling rights and en-passant square are in
/// range, the side to move has a king, and the move counters can still count up.
pub open spec fn sound_position(p: Position) -> bool {
    &&& mailbox_ok(p.mailbox)
    &&& p.side <= 1
    &&& p.castling < 16
    &&& p.ep <= 64
    &&& p.halfmove < 65535
    &&& p.side == 1 ==> p.fullmove < 65535
    &&& has_king(p.mailbox, p.side as int)
}

/// The flag tests on each flag combination that move generation uses.
pub proof fn lemma_flag_values()
    by (bit_vector)
    ensures
        0x0100_0000u32 | 0x1000_0000u32 == 0x1100_0000u32,
        0u32 | 0x1000_0000u32 == 0x1000_0000u32,
        0x0100_0000u32 | 0x0400_0000u32 == 0x0500_0000u32,
        0u32 & 0xE0FF_FFFFu32 == 0 && 0u32 & 0x0100_0000u32 == 0 && 0u32 & 0x0200_0000u32 == 0
            && 0u32 & 0x0400_0000u32 == 0 && 0u32 & 0x0800_0000u32 == 0 && 0u32 & 0x1000_0000u32 == 0,
        0x0100_0000u32 & 0xE0FF_FFFFu32 == 0 && 0x0100_0000u32 & 0x0100_0000u32 != 0
            && 0x0100_0000u32 & 0x0200_0000u32 == 0 && 0x0100_0000u32 & 0x0400_0000u32 == 0
            && 0x0100_0000u32 & 0x0800_0000u32 == 0 && 0x0100_0000u32 & 0x1000_0000u32 == 0,
        0x0200_0000u32 & 0xE0FF_FFFFu32 == 0 && 0x0200_0000u32 & 0x0100_0000u32 == 0
            && 0x0200_0000u32 & 0x0200_0000u32 != 0 && 0x0200_0000u32 & 0x0400_0000u32 == 0
            && 0x0200_0000u32 & 0x0800_0000u32 == 0 && 0x0200_0000u32 & 0x1000_0000u32 == 0,
        (0x0100_0000u32 | 0x0400_0000u32) & 0xE0FF_FFFFu32 == 0 && (0x0100_0000u32 | 0x0400_0000u32) & 0x0100_0000u32 != 0
            && (0x0100_0000u32 | 0x0400_0000u32) & 0x0200_0000u32 == 0 && (0x0100_0000u32 | 0x0400_0000u32) & 0x0400_0000u32 != 0
            && (0x0100_0000u32 | 0x0400_0000u32) & 0x0800_0000u32 == 0 && (0x0100_0000u32 | 0x0400_0000u32) & 0x1000_0000u32 == 0,
        0x0800_0000u32 & 0xE0FF_FFFFu32 == 0 && 0x0800_0000u32 & 0x0100_0000u32 == 0
            && 0x0800_0000u32 & 0x0200_0000u32 == 0 && 0x0800_0000u32 & 0x0400_0000u32 == 0
            && 0x0800_0000u32 & 0x0800_0000u32 != 0 && 0x0800_0000u32 & 0x1000_0000u32 == 0,
        (0u32 | 0x1000_0000u32) & 0xE0FF_FFFFu32 == 0 && (0u32 | 0x1000_0000u32) & 0x0100_0000u32 == 0
            && (0u32 | 0x1000_0000u32) & 0x0200_0000u32 == 0 && (0u32 | 0x1000_0000u32) & 0x0400_0000u32 == 0
            && (0u32 | 0x1000_0000u32) & 0x0800_0000u32 == 0 && (0u32 | 0x1000_0000u32) & 0x1000_0000u32 != 0,
        (0x0100_0000u32 | 0x1000_0000u32) & 0xE0FF_FFFFu32 == 0 && (0x0100_0000u32 | 0x1000_0000u32) & 0x0100_0000u32 != 0
            && (0x0100_0000u32 | 0x1000_0000u32) & 0x0200_0000u32 == 0 && (0x0100_0000u32 | 0x1000_0000u32) & 0x0400_0000u32 == 0
            && (0x0100_0000u32 | 0x1000_0000u32) & 0x0800_0000u32 == 0 && (0x0100_0000u32 | 0x1000_0000u32) & 0x1000_0000u32 != 0,
{
}

/// Everything a caller needs of a move before making it: it fits, it records what it
/// takes, and the mover still has a king afterwards.
pub open spec fn makeable(p: Position, m: u32) -> bool {
    &&& move_fits(p, m)
    &&& move_matches(p, m)
    &&& has_king(make_spec(p, m).mailbox, p.side as int)
}

/// A step of a piece, a capture, a double push or a promotion is makeable when its fields
/// describe the position.
pub proof fn lemma_plain_makeable(p: Position, from: u8, to: u8, piece: u8, cap: u8, promo: u8, flags: u32)
    requires
        sound_position(p),
        from < 64,
        to < 64,
        p.mailbox[from as int] == piece,
        piece_of_side(piece, p.side as int),
        flags == 0 || flags == FLAG_CAPTURE || flags == FLAG_DOUBLE || flags == (0u32 | FLAG_PROMOTION)
            || flags == (FLAG_CAPTURE | FLAG_PROMOTION),
        (flags == FLAG_CAPTURE || flags == (FLAG_CAPTURE | FLAG_PROMOTION)) ==> enemy_at(p, to as int)
            && cap == p.mailbox[to as int],
        !(flags == FLAG_CAPTURE || flags == (FLAG_CAPTURE | FLAG_PROMOTION)) ==> p.mailbox[to as int] == 0 && cap == 0,
        (flags == (0u32 | FLAG_PROMOTION) || flags == (FLAG_CAPTURE | FLAG_PROMOTION)) ==> 1 <= promo <= 12 && (piece == WP
            || piece == BP),
        promo < 16,
        flags == FLAG_DOUBLE ==> (piece == WP ==> to >= 8) && (piece != WP ==> to < 56),
    ensures
        makeable(p, pack_move(from, to, piece, cap, promo, flags)),
{
    let m = pack_move(from, to, piece, cap, promo, flags);
    let mb = p.mailbox;
    let side = p.side as int;
    lemma_flag_values();
    assert(flags_ok(flags));
    lemma_pack_fields(from, to, piece, cap, promo, flags);
    assert(mb[to as int] <= 12);
    assert(from != to);
    let k = choose|s: int| 0 <= s < 64 && #[trigger] mb[s] == king_of(side);
    let q = make_spec(p, m).mailbox;
    assert(q == moved_mailbox(mb, m));
    if k == from as int {
        assert(q[to as int] == king_of(side));
    } else {
        assert(k != to as int);
        assert(q[k] == king_of(side));
    }
}

/// A step of a non-pawn piece to a square without a piece of its own side is makeable.
pub proof fn lemma_step_makeable(p: Position, from: u64, to: u64, piece: u8)
    requires
        sound_position(p),
        from < 64,
        to < 64,
        p.mailbox[from as int] == piece,
        piece_of_side(piece, p.side as int),
        piece != WP && piece != BP,
        !own_at(p, to as int),
    ensures
        makeable(p, step_move(p.mailbox, from, to, piece)),
{
    let mb = p.mailbox;
    lemma_flag_values();
    assert(mb[to as int] <= 12);
    if mb[to as int] == 0 {
        lemma_plain_makeable(p, from as u8, to as u8, piece, 0, 0, 0);
    } else {
        lemma_plain_makeable(p, from as u8, to as u8, piece, mb[to as int], 0, FLAG_CAPTURE);
    }
}

/// A pawn move to `to` (a promotion on the last rank) with flags 0, capture or double push is
/// makeable when the square fits those flags.
proof fn lemma_pawn_move_makeable(p: Position, from: int, to: int, flags: u32, m: u32)
    requires
        sound_position(p),
        0 <= from < 64,
        0 <= to < 64,
        p.mailbox[from] == pawn_of(p.side as int),
        flags == 0 || flags == FLAG_CAPTURE,
        flags == FLAG_CAPTURE ==> enemy_at(p, to),
        flags == 0 ==> p.mailbox[to] == 0,
        pawn_move_to(p, from, to, flags, m),
    ensures
        makeable(p, m),
{
    let side = p.side as int;
    lemma_flag_values();
    if on_promo_rank(side, to) {
        let k = choose|k: int| 0 <= k < 4 && m == #[trigger] pack_move(from as u8, to as u8, pawn_of(side), pawn_cap(p, to, flags), promo_piece(side, k), flags | FLAG_PROMOTION);
        if flags == 0 {
            assert(flags | FLAG_PROMOTION == (0u32 | FLAG_PROMOTION));
        }
        lemma_plain_makeable(p, from as u8, to as u8, pawn_of(side), pawn_cap(p, to, flags), promo_piece(side, k), flags | FLAG_PROMOTION);
    } else {
        lemma_plain_makeable(p, from as u8, to as u8, pawn_of(side), pawn_cap(p, to, flags), 0, flags);
    }
}

/// Every pseudo-legal pawn move of a sound position is makeable.
pub proof fn lemma_pawn_makeable(p: Position, m: u32)
    requires
        sound_position(p),
        pawn_pseudo(p, m),
    ensures
        makeable(p, m),
{
    let side = p.side as int;
    let mb = p.mailbox;
    lemma_flag_values();
    if pawn_push(p, m) {
        let to = choose|to: int| #![trigger p.mailbox[to]] 0 <= to < 64 && 0 <= to - fwd(side) < 64 && p.mailbox[to - fwd(side)] == pawn_of(side)
            && p.mailbox[to] == 0 && pawn_move_to(p, to - fwd(side), to, 0, m);
        lemma_pawn_move_makeable(p, to - fwd(side), to, 0, m);
    } else if pawn_double(p, m) {
        let f = fwd(side);
        let to = choose|to: int| #![trigger p.mailbox[to]] 0 <= to < 64 && 0 <= to - 2 * f < 64 && on_start_rank(side, to - 2 * f)
            && p.mailbox[to - 2 * f] == pawn_of(side) && p.mailbox[to - f] == 0 && p.mailbox[to] == 0
            && m == pack_move((to - 2 * f) as u8, to as u8, pawn_of(side), 0, 0, FLAG_DOUBLE);
        lemma_plain_makeable(p, (to - 2 * f) as u8, to as u8, pawn_of(side), 0, 0, FLAG_DOUBLE);
    } else if pawn_capture(p, m) {
        let (to, dx) = choose|to: int, dx: int| #![trigger capture_from(side, to, dx), p.mailbox[to]] 0 <= to < 64 && (dx == -1 || dx == 1)
            && 0 <= capture_from(side, to, dx) < 64 && diagonal_ok(capture_from(side, to, dx), dx)
            && p.mailbox[capture_from(side, to, dx)] == pawn_of(side) && enemy_at(p, to)
            && pawn_move_to(p, capture_from(side, to, dx), to, FLAG_CAPTURE, m);
        lemma_pawn_move_makeable(p, capture_from(side, to, dx), to, FLAG_CAPTURE, m);
    } else {
        let e = p.ep as int;
        let dx = choose|dx: int| #![trigger capture_from(side, e, dx)] (dx == -1 || dx == 1)
            && 0 <= capture_from(side, e, dx) < 64 && diagonal_ok(capture_from(side, e, dx), dx)
            && p.mailbox[capture_from(side, e, dx)] == pawn_of(side)
            && m == pack_move(capture_from(side, e, dx) as u8, p.ep, pawn_of(side), pawn_of(1 - side), 0, FLAG_CAPTURE | FLAG_EP);
        let from = capture_from(side, e, dx);
        lemma_pack_fields(from as u8, p.ep, pawn_of(side), pawn_of(1 - side), 0, FLAG_CAPTURE | FLAG_EP);
        assert(p.ep != 64);
        let v = ep_victim(pawn_of(side), p.ep);
        assert(mb[v] == pawn_of(1 - side));
        let k = choose|s: int| 0 <= s < 64 && #[trigger] mb[s] == king_of(side);
        let q = make_spec(p, m).mailbox;
        assert(q[k] == king_of(side));
    }
}

/// Every castling move generated for a sound position is makeable.
pub proof fn lemma_castle_makeable(p: Position, m: u32)
    requires
        sound_position(p),
        castle_move(p, m),
    ensures
        makeable(p, m),
{
    let mb = p.mailbox;
    lemma_flag_values();
    let c = p.castling;
    if p.side == 0 {
        if c & 1 != 0 && mb[4] == WK && mb[7] == WR && mb[5] == 0 && mb[6] == 0 && m == pack_move(4, 6, WK, 0, 0, FLAG_CASTLE) {
            lemma_pack_fields(4, 6, WK, 0, 0, FLAG_CASTLE);
            assert(make_spec(p, m).mailbox[6] == WK);
        } else {
            lemma_pack_fields(4, 2, WK, 0, 0, FLAG_CASTLE);
            assert(make_spec(p, m).mailbox[2] == WK);
        }
    } else {
        if c & 4 != 0 && mb[60] == BK && mb[63] == BR && mb[61] == 0 && mb[62] == 0 && m == pack_move(60, 62, BK, 0, 0, FLAG_CASTLE) {
            lemma_pack_fields(60, 62, BK, 0, 0, FLAG_CASTLE);
            assert(make_spec(p, m).mailbox[62] == BK);
        } else {
            lemma_pack_fields(60, 58, BK, 0, 0, FLAG_CASTLE);
            assert(make_spec(p, m).mailbox[58] == BK);
        }
    }
}

/// A step of a piece of type `kind` found by a generator is makeable.
proof fn lemma_piece_makeable(p: Position, occ: u64, kind: u8, m: u32)
    requires
        sound_position(p),
        kind == WN || kind == WB || kind == WR || kind == WQ || kind == WK,
        piece_move(p, occ, kind, m) || piece_capture(p, occ, kind, m),
    ensures
        makeable(p, m),
{
    let pc = piece_code(kind, p.side as int);
    let (from, to) = choose|from: u64, to: u64| #![trigger step_move(p.mailbox, from, to, pc)]
        from < 64 && to < 64 && p.mailbox[from as int] == pc && crate::movegen::kind_attacks(kind, from, to, occ)
            && (!own_at(p, to as int) || enemy_at(p, to as int)) && m == step_move(p.mailbox, from, to, pc);
    if enemy_at(p, to as int) {
        assert(!own_at(p, to as int));
    }
    lemma_step_makeable(p, from, to, pc);
}

/// Every pseudo-legal move of a sound position is makeable.
pub proof fn lemma_pseudo_makeable(p: Position, occ: u64, m: u32)
    requires
        sound_position(p),
        crate::legality::pseudo_move(p, occ, m),
    ensures
        makeable(p, m),
{
    if pawn_pseudo(p, m) {
        lemma_pawn_makeable(p, m);
    } else if castle_move(p, m) {
        lemma_castle_makeable(p, m);
    } else if piece_move(p, occ, WN, m) {
        lemma_piece_makeable(p, occ, WN, m);
    } else if piece_move(p, occ, WK, m) {
        lemma_piece_makeable(p, occ, WK, m);
    } else if piece_move(p, occ, WB, m) {
        lemma_piece_makeable(p, occ, WB, m);
    } else if piece_move(p, occ, WR, m) {
        lemma_piece_makeable(p, occ, WR, m);
    } else {
        lemma_piece_makeable(p, occ, WQ, m);
    }
}

/// Every pseudo-legal capture of a sound position is makeable.
pub proof fn lemma_capture_makeable(p: Position, occ: u64, m: u32)
    requires
        sound_position(p),
        crate::legality::capture_move(p, occ, m),
    ensures
        makeable(p, m),
{
    if pawn_pseudo_capture(p, m) {
        lemma_pawn_makeable(p, m);
    } else if piece_capture(p, occ, WN, m) {
        lemma_piece_makeable(p, occ, WN, m);
    } else if piece_capture(p, occ, WB, m) {
        lemma_piece_makeable(p, occ, WB, m);
    } else if piece_capture(p, occ, WR, m) {
        lemma_piece_makeable(p, occ, WR, m);
    } else if piece_capture(p, occ, WQ, m) {
        lemma_piece_makeable(p, occ, WQ, m);
    } else {
        let pc = piece_code(WK, p.side as int);
        let (from, to) = choose|from: u64, to: u64| #![trigger step_move(p.mailbox, from, to, pc)]
            king_capture_from(p, from, to) && m == step_move(p.mailbox, from, to, pc);
        lemma_step_makeable(p, from, to, pc);
    }
}

/// What a pseudo-legal move looks like: en passant lands on the en-passant square with a
/// pawn, castling is one of the generated castlings, a double push is a pawn's, and a move
/// onto an occupied square (castling aside) goes to a square the mover attacks.
pub open spec fn move_shape(p: Position, occ: u64, m: u32) -> bool {
    &&& piece_of_side(p.mailbox[m_from(m) as int], p.side as int)
    &&& m_is_ep(m) ==> m_to(m) == p.ep && m_piece(m) == pawn_of(p.side as int) && crate::pawns::ep_target_ok(p)
    &&& m_is_castle(m) ==> castle_move(p, m)
    &&& m_is_double(m) ==> pawn_double(p, m)
    &&& (!m_is_castle(m) && p.mailbox[m_to(m) as int] != 0) ==> attacked_by(p.mailbox, occ, m_to(m) as u64, p.side as int)
    &&& m_is_promotion(m) ==> crate::moves::valid_promo(crate::moves::m_promo(m))
}

/// A step of a piece of type `kind` from `from` attacks its target square.
proof fn lemma_step_shape(p: Position, occ: u64, kind: u8, from: u64, to: u64)
    requires
        sound_position(p),
        kind == WN || kind == WB || kind == WR || kind == WQ || kind == WK,
        from < 64,
        to < 64,
        p.mailbox[from as int] == piece_code(kind, p.side as int),
        crate::movegen::kind_attacks(kind, from, to, occ),
        !own_at(p, to as int),
    ensures
        move_shape(p, occ, step_move(p.mailbox, from, to, piece_code(kind, p.side as int))),
{
    let mb = p.mailbox;
    let pc = piece_code(kind, p.side as int);
    lemma_flag_values();
    if mb[to as int] == 0 {
        lemma_pack_fields(from as u8, to as u8, pc, 0, 0, 0);
    } else {
        assert(mb[to as int] <= 12);
        lemma_pack_fields(from as u8, to as u8, pc, mb[to as int], 0, FLAG_CAPTURE);
        assert(piece_attacks(mb[from as int], from, to, occ));
    }
}

/// Every pseudo-legal move of a sound position has the shape its kind gives it.
pub proof fn lemma_pseudo_shape(p: Position, occ: u64, m: u32)
    requires
        sound_position(p),
        pseudo_move(p, occ, m) || capture_move(p, occ, m),
    ensures
        move_shape(p, occ, m),
{
    let side = p.side as int;
    let mb = p.mailbox;
    lemma_flag_values();
    if pawn_push(p, m) {
        let to = choose|to: int| #![trigger p.mailbox[to]] 0 <= to < 64 && 0 <= to - fwd(side) < 64 && p.mailbox[to - fwd(side)] == pawn_of(side)
            && p.mailbox[to] == 0 && pawn_move_to(p, to - fwd(side), to, 0, m);
        let from = to - fwd(side);
        if on_promo_rank(side, to) {
            let k = choose|k: int| 0 <= k < 4 && m == #[trigger] pack_move(from as u8, to as u8, pawn_of(side), pawn_cap(p, to, 0), promo_piece(side, k), 0 | FLAG_PROMOTION);
            lemma_pack_fields(from as u8, to as u8, pawn_of(side), 0, promo_piece(side, k), 0 | FLAG_PROMOTION);
        } else {
            lemma_pack_fields(from as u8, to as u8, pawn_of(side), 0, 0, 0);
        }
    } else if pawn_double(p, m) {
        let f = fwd(side);
        let to = choose|to: int| #![trigger p.mailbox[to]] 0 <= to < 64 && 0 <= to - 2 * f < 64 && on_start_rank(side, to - 2 * f)
            && p.mailbox[to - 2 * f] == pawn_of(side) && p.mailbox[to - f] == 0 && p.mailbox[to] == 0
            && m == pack_move((to - 2 * f) as u8, to as u8, pawn_of(side), 0, 0, FLAG_DOUBLE);
        lemma_pack_fields((to - 2 * f) as u8, to as u8, pawn_of(side), 0, 0, FLAG_DOUBLE);
    } else if pawn_capture(p, m) {
        let (to, dx) = choose|to: int, dx: int| #![trigger capture_from(side, to, dx), p.mailbox[to]] 0 <= to < 64 && (dx == -1 || dx == 1)
            && 0 <= capture_from(side, to, dx) < 64 && diagonal_ok(capture_from(side, to, dx), dx)
            && p.mailbox[capture_from(side, to, dx)] == pawn_of(side) && enemy_at(p, to)
            && pawn_move_to(p, capture_from(side, to, dx), to, FLAG_CAPTURE, m);
        let from = capture_from(side, to, dx);
        assert(mb[to] <= 12);
        if on_promo_rank(side, to) {
            let k = choose|k: int| 0 <= k < 4 && m == #[trigger] pack_move(from as u8, to as u8, pawn_of(side), pawn_cap(p, to, FLAG_CAPTURE), promo_piece(side, k), FLAG_CAPTURE | FLAG_PROMOTION);
            lemma_pack_fields(from as u8, to as u8, pawn_of(side), mb[to], promo_piece(side, k), FLAG_CAPTURE | FLAG_PROMOTION);
        } else {
            lemma_pack_fields(from as u8, to as u8, pawn_of(side), mb[to], 0, FLAG_CAPTURE);
        }
        assert(piece_attacks(mb[from], from as u64, to as u64, occ));
    } else if pawn_ep(p, m) {
        let e = p.ep as int;
        let dx = choose|dx: int| #![trigger capture_from(side, e, dx)] (dx == -1 || dx == 1)
            && 0 <= capture_from(side, e, dx) < 64 && diagonal_ok(capture_from(side, e, dx), dx)
            && p.mailbox[capture_from(side, e, dx)] == pawn_of(side)
            && m == pack_move(capture_from(side, e, dx) as u8, p.ep, pawn_of(side), pawn_of(1 - side), 0, FLAG_CAPTURE | FLAG_EP);
        lemma_pack_fields(capture_from(side, e, dx) as u8, p.ep, pawn_of(side), pawn_of(1 - side), 0, FLAG_CAPTURE | FLAG_EP);
    } else if castle_move(p, m) {
        let c = p.castling;
        if p.side == 0 {
            if c & 1 != 0 && mb[4] == WK && mb[7] == WR && mb[5] == 0 && mb[6] == 0 && m == pack_move(4, 6, WK, 0, 0, FLAG_CASTLE) {
                lemma_pack_fields(4, 6, WK, 0, 0, FLAG_CASTLE);
            } else {
                lemma_pack_fields(4, 2, WK, 0, 0, FLAG_CASTLE);
            }
        } else {
            if c & 4 != 0 && mb[60] == BK && mb[63] == BR && mb[61] == 0 && mb[62] == 0 && m == pack_move(60, 62, BK, 0, 0, FLAG_CASTLE) {
                lemma_pack_fields(60, 62, BK, 0, 0, FLAG_CASTLE);
            } else {
                lemma_pack_fields(60, 58, BK, 0, 0, FLAG_CASTLE);
            }
        }
    } else {
        let kind = if piece_move(p, occ, WN, m) || piece_capture(p, occ, WN, m) {
            WN
        } else if piece_move(p, occ, WB, m) || piece_capture(p, occ, WB, m) {
            WB
        } else if piece_move(p, occ, WR, m) || piece_capture(p, occ, WR, m) {
            WR
        } else if piece_move(p, occ, WQ, m) || piece_capture(p, occ, WQ, m) {
            WQ
        } else {
            WK
        };
        let pc = piece_code(kind, side);
        if kind == WK && !piece_move(p, occ, WK, m) {
            let (from, to) = choose|from: u64, to: u64| #![trigger step_move(p.mailbox, from, to, pc)]
                king_capture_from(p, from, to) && m == step_move(p.mailbox, from, to, pc);
            lemma_step_shape(p, occ, kind, from, to);
        } else {
            let (from, to) = choose|from: u64, to: u64| #![trigger step_move(p.mailbox, from, to, pc)]
                from < 64 && to < 64 && p.mailbox[from as int] == pc && crate::movegen::kind_attacks(kind, from, to, occ)
                    && (!own_at(p, to as int) || enemy_at(p, to as int)) && m == step_move(p.mailbox, from, to, pc);
            if enemy_at(p, to as int) {
                assert(!own_at(p, to as int));
            }
            lemma_step_shape(p, occ, kind, from, to);
        }
    }
}

/// Making a pseudo-legal move of a sound position keeps the incrementally updated hash equal
/// to the hash computed from scratch.
pub proof fn lemma_pseudo_move_keeps_hash(p: Position, m: u32)
    requires
        sound_position(p),
        crate::legality::pseudo_move(p, crate::legality::occ_of(p.mailbox), m),
        p.zobrist == crate::board::zobrist_of(p),
    ensures
        make_spec(p, m).zobrist == crate::board::zobrist_of(make_spec(p, m)),
{
    lemma_pseudo_makeable(p, crate::legality::occ_of(p.mailbox), m);
    crate::makemove::lemma_make_keeps_hash(p, m);
}

/// Taking back a pseudo-legal move of a sound position restores the position.
pub proof fn lemma_pseudo_move_undone(p: Position, m: u32)
    requires
        sound_position(p),
        crate::legality::pseudo_move(p, crate::legality::occ_of(p.mailbox), m),
    ensures
        crate::makemove::unmake_spec(make_spec(p, m), m, crate::makemove::undo_of(p)) == p,
{
    lemma_pseudo_makeable(p, crate::legality::occ_of(p.mailbox), m);
    crate::makemove::lemma_unmake_undoes_make(p, m);
}

/// A double push leaves the en-passant square on the square the pawn passed over.
pub proof fn lemma_double_push_ep(p: Position, m: u32)
    requires
        p.side <= 1,
        pawn_double(p, m),
    ensures
        m_is_double(m),
        make_spec(p, m).ep as int == (m_from(m) + m_to(m)) / 2,
{
    let side = p.side as int;
    let f = fwd(side);
    let to = choose|to: int| #![trigger p.mailbox[to]] 0 <= to < 64 && 0 <= to - 2 * f < 64 && on_start_rank(side, to - 2 * f)
        && p.mailbox[to - 2 * f] == pawn_of(side) && p.mailbox[to - f] == 0 && p.mailbox[to] == 0
        && m == pack_move((to - 2 * f) as u8, to as u8, pawn_of(side), 0, 0, FLAG_DOUBLE);
    lemma_flag_values();
    lemma_pack_fields((to - 2 * f) as u8, to as u8, pawn_of(side), 0, 0, FLAG_DOUBLE);
}

} // verus!
