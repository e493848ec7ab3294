//! Attacks on squares, check, and the filter from pseudo-legal to legal moves.
use vstd::prelude::*;
use crate::attacks::{king_attacks, king_attacks_spec, knight_attacks, knight_attacks_spec, lemma_king_attacks, lemma_knight_attacks};
use crate::bits::{bit, lemma_bit_and, lemma_bit_or, lemma_bit_zero, lemma_bits_ext, lsb};
use crate::board::{occ_ok, piece_bb_ok, piece_of_side, Board, BB, BK, BLACK, BN, BOTH, BP, BQ, BR, WB, WHITE, WK, WN, WP, WQ, WR};
use crate::generation::{NOT_A, NOT_H};
use crate::sliders::{bishop_attacks, bishop_hit, lemma_bishop_hit_symmetric, lemma_rook_hit_symmetric, rook_attacks, rook_hit};
use vstd::std_specs::bits::{u64_trailing_zeros};
use crate::board::Position;
use crate::movegen::{castle_move, distinct_after, extends, has_move, king_capture, lemma_extends_trans, lemma_extends_index, lemma_has_move_extends, lemma_has_move_lower, piece_capture, piece_code, piece_move, step_move};
use crate::moves::{Move, MoveList};
use crate::pawns::{pawn_pseudo, pawn_pseudo_capture};
use crate::board::{extras_kept, mailbox_ok};
use crate::makemove::{lemma_unmake_undoes_make, make_spec};
use crate::moves::{lemma_pack_fields, m_from, m_is_castle, m_piece, m_to, FLAG_CASTLE};
use crate::position::{lemma_capture_makeable, lemma_pseudo_makeable, sound_position};

verus! {

/// The side a `usize` side argument names: 0 is white, anything else black.
pub open spec fn side_of(side: usize) -> int {
    if side == WHITE {
        0
    } else {
        1
    }
}

/// A pawn of `side` on `from` attacks `to`: one rank forward and one file aside.
pub open spec fn pawn_attacks(side: int, from: u64, to: u64) -> bool {
    if side == 0 {
        (to == from + 7 && from % 8 != 0) || (to == from + 9 && from % 8 != 7)
    } else {
        (to + 7 == from && from % 8 != 7) || (to + 9 == from && from % 8 != 0)
    }
}

/// `piece` standing on `from` attacks `to` when the squares of `occ` are occupied.
pub open spec fn piece_attacks(piece: u8, from: u64, to: u64, occ: u64) -> bool {
    if piece == WP {
        pawn_attacks(0, from, to)
    } else if piece == BP {
        pawn_attacks(1, from, to)
    } else if piece == WN || piece == BN {
        bit(knight_attacks_spec(from), to)
    } else if piece == WB || piece == BB {
        bishop_hit(from, to, occ)
    } else if piece == WR || piece == BR {
        rook_hit(from, to, occ)
    } else if piece == WQ || piece == BQ {
        rook_hit(from, to, occ) || bishop_hit(from, to, occ)
    } else if piece == WK || piece == BK {
        bit(king_attacks_spec(from), to)
    } else {
        false
    }
}

/// Some piece of `side` attacks square `sq`.
pub open spec fn attacked_by(mb: Seq<u8>, occ: u64, sq: u64, side: int) -> bool {
    exists|from: u64|
        from < 64 && piece_of_side(mb[from as int], side) && #[trigger] piece_attacks(
            mb[from as int],
            from,
            sq,
            occ,
        )
}

/// `o` marks exactly the squares of `mb` that hold a piece.
pub open spec fn marks_occupied(o: u64, mb: Seq<u8>) -> bool {
    forall|t: u64| t < 64 ==> (#[trigger] bit(o, t) <==> mb[t as int] != 0)
}

/// The occupancy bitboard of a mailbox: the squares that hold a piece.
pub open spec fn occ_of(mb: Seq<u8>) -> u64 {
    choose|o: u64| #[trigger] marks_occupied(o, mb)
}

/// The king of `side`.
pub open spec fn king_of(side: int) -> u8 {
    if side == 0 {
        WK
    } else {
        BK
    }
}

/// `side` has a king on the board.
pub open spec fn has_king(mb: Seq<u8>, side: int) -> bool {
    exists|s: int| 0 <= s < 64 && #[trigger] mb[s] == king_of(side)
}

/// `s` is the lowest square holding the king of `side`.
pub open spec fn lowest_king_at(mb: Seq<u8>, side: int, s: int) -> bool {
    &&& 0 <= s < 64
    &&& mb[s] == king_of(side)
    &&& forall|u: int| 0 <= u < s ==> #[trigger] mb[u] != king_of(side)
}

/// The square of the king of `side` that the check test looks at: the lowest one.
pub open spec fn king_square(mb: Seq<u8>, side: int) -> int {
    choose|s: int| lowest_king_at(mb, side, s)
}

/// The king of `side` is attacked by the other side.
pub open spec fn in_check(mb: Seq<u8>, side: int) -> bool {
    attacked_by(mb, occ_of(mb), king_square(mb, side) as u64, 1 - side)
}

/// A non-empty bitboard has a set square.
pub proof fn lemma_some_bit(x: u64) -> (t: u64)
    requires
        x != 0,
    ensures
        t < 64,
        bit(x, t),
{
    crate::bits::lemma_lsb(x);
    u64_trailing_zeros(x) as u64
}

/// The occupancy bitboard of a well-formed board is the one its mailbox determines.
pub proof fn lemma_occ_of(b: &Board)
    requires
        b.wf(),
    ensures
        b.occ@[2] == occ_of(b.mailbox@),
{
    let mb = b.mailbox@;
    assert(occ_ok(b.occ@, mb));
    let o = occ_of(mb);
    assert(marks_occupied(b.occ@[2], mb));
    assert forall|t: u64| t < 64 implies (#[trigger] bit(b.occ@[2], t) <==> bit(o, t)) by {
        assert(bit(o, t) <==> mb[t as int] != 0);
    }
    lemma_bits_ext(b.occ@[2], o);
}

/// The lowest king is unique, and exists when there is a king.
pub proof fn lemma_king_square(mb: Seq<u8>, side: int, s: int)
    requires
        lowest_king_at(mb, side, s),
    ensures
        king_square(mb, side) == s,
{
    let k = king_square(mb, side);
    assert(lowest_king_at(mb, side, k));
    if k < s {
        assert(mb[k] != king_of(side));
    } else if s < k {
        assert(mb[s] != king_of(side));
    }
}

/// The squares from which a pawn of `side` attacks `sq`, as `square_attacked` computes them.
proof fn lemma_pawn_sources(sq: u64, t: u64)
    by (bit_vector)
    requires
        sq < 64,
        t < 64,
    ensures
        ((((((1u64 << sq) >> 7u64) & 0xFEFE_FEFE_FEFE_FEFEu64) | (((1u64 << sq) >> 9u64)
            & 0x7F7F_7F7F_7F7F_7F7Fu64)) >> t) & 1u64 == 1u64) <==> ((sq == t + 7 && t % 8 != 0)
            || (sq == t + 9 && t % 8 != 7)),
        ((((((1u64 << sq) << 7u64) & 0x7F7F_7F7F_7F7F_7F7Fu64) | (((1u64 << sq) << 9u64)
            & 0xFEFE_FEFE_FEFE_FEFEu64)) >> t) & 1u64 == 1u64) <==> ((sq + 7 == t && t % 8 != 7)
            || (sq + 9 == t && t % 8 != 0)),
{
}

/// `a & b` is non-zero exactly when some square is in both.
proof fn lemma_and_nonzero(a: u64, b: u64)
    ensures
        (a & b != 0) <==> exists|t: u64| t < 64 && bit(a, t) && #[trigger] bit(b, t),
{
    if a & b != 0 {
        let t = lemma_some_bit(a & b);
        lemma_bit_and(a, b, t);
    }
    if exists|t: u64| t < 64 && bit(a, t) && #[trigger] bit(b, t) {
        let t = choose|t: u64| t < 64 && bit(a, t) && #[trigger] bit(b, t);
        lemma_bit_and(a, b, t);
        if a & b == 0 {
            lemma_bit_zero(t);
        }
    }
}

impl Board {
    /// Whether a piece of `by_side` (0 white, otherwise black) attacks square `sq`.
    pub fn square_attacked(&self, sq: u8, by_side: usize) -> (r: bool)
        requires
            self.wf(),
            sq < 64,
        ensures
            r == attacked_by(self.mailbox@, self.occ@[2], sq as u64, side_of(by_side)),
    {
        let ghost mb = self.mailbox@;
        let ghost side = side_of(by_side);
        let ghost s = sq as u64;
        let occ = self.occ[BOTH];
        let white = by_side == WHITE;
        let sq_bit = 1u64 << sq;
        proof {
            assert forall|p: int| 0 <= p < 12 implies piece_bb_ok(#[trigger] self.pieces@[p], mb, (p + 1) as u8) by {}
            assert(piece_bb_ok(self.pieces@[0], mb, WP));
            assert(piece_bb_ok(self.pieces@[1], mb, WN));
            assert(piece_bb_ok(self.pieces@[2], mb, WB));
            assert(piece_bb_ok(self.pieces@[3], mb, WR));
            assert(piece_bb_ok(self.pieces@[4], mb, WQ));
            assert(piece_bb_ok(self.pieces@[5], mb, WK));
            assert(piece_bb_ok(self.pieces@[6], mb, BP));
            assert(piece_bb_ok(self.pieces@[7], mb, BN));
            assert(piece_bb_ok(self.pieces@[8], mb, BB));
            assert(piece_bb_ok(self.pieces@[9], mb, BR));
            assert(piece_bb_ok(self.pieces@[10], mb, BQ));
            assert(piece_bb_ok(self.pieces@[11], mb, BK));
        }
        let pawn_from = if white {
            ((sq_bit >> 7u64) & NOT_A) | ((sq_bit >> 9u64) & NOT_H)
        } else {
            ((sq_bit << 7u64) & NOT_H) | ((sq_bit << 9u64) & NOT_A)
        };
        let pawns = if white { self.pieces[(WP - 1) as usize] } else { self.pieces[(BP - 1) as usize] };
        let pa = pawn_from & pawns;
        proof {
            lemma_and_nonzero(pawn_from, pawns);
            assert forall|t: u64| t < 64 implies (#[trigger] bit(pawn_from, t) <==> pawn_attacks(side, t, s)) by {
                lemma_pawn_sources(s, t);
            }
        }
        if pa != 0 {
            proof {
                let t = choose|t: u64| t < 64 && bit(pawn_from, t) && #[trigger] bit(pawns, t);
                assert(piece_attacks(mb[t as int], t, s, occ));
            }
            return true;
        }
        let knights = if white { self.pieces[(WN - 1) as usize] } else { self.pieces[(BN - 1) as usize] };
        let na = knight_attacks(sq) & knights;
        proof {
            lemma_and_nonzero(knight_attacks_spec(s), knights);
            assert forall|t: u64| t < 64 implies (#[trigger] bit(knight_attacks_spec(s), t) <==> bit(knight_attacks_spec(t), s)) by {
                lemma_knight_attacks(s, t);
            }
        }
        if na != 0 {
            proof {
                let t = choose|t: u64| t < 64 && bit(knight_attacks_spec(s), t) && #[trigger] bit(knights, t);
                assert(piece_attacks(mb[t as int], t, s, occ));
            }
            return true;
        }
        let bishops_queens = if white {
            self.pieces[(WB - 1) as usize] | self.pieces[(WQ - 1) as usize]
        } else {
            self.pieces[(BB - 1) as usize] | self.pieces[(BQ - 1) as usize]
        };
        let diag = bishop_attacks(sq as usize, occ);
        let ba = diag & bishops_queens;
        proof {
            lemma_and_nonzero(diag, bishops_queens);
            assert forall|t: u64| t < 64 implies (#[trigger] bit(diag, t) <==> bishop_hit(t, s, occ)) by {
                if bishop_hit(s, t, occ) {
                    lemma_bishop_hit_symmetric(s, t, occ);
                }
                if bishop_hit(t, s, occ) {
                    lemma_bishop_hit_symmetric(t, s, occ);
                }
            }
            assert forall|t: u64| t < 64 implies (#[trigger] bit(bishops_queens, t) <==> (mb[t as int] == (if white { WB } else { BB }) || mb[t as int] == (if white { WQ } else { BQ }))) by {
                if white {
                    lemma_bit_or(self.pieces@[2], self.pieces@[4], t);
                } else {
                    lemma_bit_or(self.pieces@[8], self.pieces@[10], t);
                }
            }
        }
        if ba != 0 {
            proof {
                let t = choose|t: u64| t < 64 && bit(diag, t) && #[trigger] bit(bishops_queens, t);
                assert(piece_attacks(mb[t as int], t, s, occ));
            }
            return true;
        }
        let rooks_queens = if white {
            self.pieces[(WR - 1) as usize] | self.pieces[(WQ - 1) as usize]
        } else {
            self.pieces[(BR - 1) as usize] | self.pieces[(BQ - 1) as usize]
        };
        let line = rook_attacks(sq as usize, occ);
        let ra = line & rooks_queens;
        proof {
            lemma_and_nonzero(line, rooks_queens);
            assert forall|t: u64| t < 64 implies (#[trigger] bit(line, t) <==> rook_hit(t, s, occ)) by {
                if rook_hit(s, t, occ) {
                    lemma_rook_hit_symmetric(s, t, occ);
                }
                if rook_hit(t, s, occ) {
                    lemma_rook_hit_symmetric(t, s, occ);
                }
            }
            assert forall|t: u64| t < 64 implies (#[trigger] bit(rooks_queens, t) <==> (mb[t as int] == (if white { WR } else { BR }) || mb[t as int] == (if white { WQ } else { BQ }))) by {
                if white {
                    lemma_bit_or(self.pieces@[3], self.pieces@[4], t);
                } else {
                    lemma_bit_or(self.pieces@[9], self.pieces@[10], t);
                }
            }
        }
        if ra != 0 {
            proof {
                let t = choose|t: u64| t < 64 && bit(line, t) && #[trigger] bit(rooks_queens, t);
                assert(piece_attacks(mb[t as int], t, s, occ));
            }
            return true;
        }
        let king = if white { self.pieces[(WK - 1) as usize] } else { self.pieces[(BK - 1) as usize] };
        let ka = king_attacks(sq) & king;
        proof {
            lemma_and_nonzero(king_attacks_spec(s), king);
            assert forall|t: u64| t < 64 implies (#[trigger] bit(king_attacks_spec(s), t) <==> bit(king_attacks_spec(t), s)) by {
                lemma_king_attacks(s, t);
            }
        }
        if ka != 0 {
            proof {
                let t = choose|t: u64| t < 64 && bit(king_attacks_spec(s), t) && #[trigger] bit(king, t);
                assert(piece_attacks(mb[t as int], t, s, occ));
            }
            return true;
        }
        proof {
            if attacked_by(mb, occ, s, side) {
                let t = choose|t: u64| t < 64 && piece_of_side(mb[t as int], side) && #[trigger] piece_attacks(mb[t as int], t, s, occ);
                let pc = mb[t as int];
                assert(bit(pawn_from, t) ==> !bit(pawns, t));
                assert(bit(knight_attacks_spec(s), t) ==> !bit(knights, t));
                assert(bit(diag, t) ==> !bit(bishops_queens, t));
                assert(bit(line, t) ==> !bit(rooks_queens, t));
                assert(bit(king_attacks_spec(s), t) ==> !bit(king, t));
                assert(false);
            }
        }
        false
    }

    /// Whether the king of `side` (0 white, otherwise black) is attacked; the king looked
    /// at is the one on the lowest square.
    pub fn king_in_check(&self, side: usize) -> (r: bool)
        requires
            self.wf(),
            has_king(self.mailbox@, side_of(side)),
        ensures
            r == in_check(self.mailbox@, side_of(side)),
    {
        let ghost mb = self.mailbox@;
        let ghost sd = side_of(side);
        let king = if side == WHITE { self.pieces[(WK - 1) as usize] } else { self.pieces[(BK - 1) as usize] };
        proof {
            assert(piece_bb_ok(self.pieces@[(king_of(sd) - 1) as int], mb, king_of(sd)));
            let s = choose|s: int| 0 <= s < 64 && #[trigger] mb[s] == king_of(sd);
            assert(bit(king, s as u64));
            if king == 0 {
                lemma_bit_zero(s as u64);
            }
        }
        let king_sq = lsb(king);
        let opponent = if side == WHITE { BLACK } else { WHITE };
        proof {
            let k = king_sq as int;
            assert forall|u: int| 0 <= u < k implies #[trigger] mb[u] != king_of(sd) by {
                assert(!bit(king, u as u64));
            }
            lemma_king_square(mb, sd, k);
            lemma_occ_of(self);
        }
        self.square_attacked(king_sq, opponent)
    }
}

/// A pseudo-legal move of the side to move: a move by the rules of how its pieces move,
/// whether or not it leaves its own king attacked.
pub open spec fn pseudo_move(p: Position, occ: u64, m: u32) -> bool {
    ||| pawn_pseudo(p, m)
    ||| piece_move(p, occ, WN, m)
    ||| piece_move(p, occ, WK, m)
    ||| castle_move(p, m)
    ||| piece_move(p, occ, WB, m)
    ||| piece_move(p, occ, WR, m)
    ||| piece_move(p, occ, WQ, m)
}

/// A pseudo-legal capture of the side to move; of kings, only the one on the lowest square
/// is looked at.
pub open spec fn capture_move(p: Position, occ: u64, m: u32) -> bool {
    ||| pawn_pseudo_capture(p, m)
    ||| piece_capture(p, occ, WN, m)
    ||| piece_capture(p, occ, WB, m)
    ||| piece_capture(p, occ, WR, m)
    ||| piece_capture(p, occ, WQ, m)
    ||| king_capture(p, m)
}

/// The piece a pseudo-legal move moves: a pawn, or the piece of its kind (the king for
/// castling).
pub proof fn lemma_pseudo_piece(p: Position, occ: u64, m: u32)
    requires
        crate::board::mailbox_ok(p.mailbox),
        p.side <= 1,
    ensures
        pawn_pseudo(p, m) ==> m_piece(m) == piece_code(WP, p.side as int),
        piece_move(p, occ, WN, m) ==> m_piece(m) == piece_code(WN, p.side as int),
        piece_move(p, occ, WB, m) ==> m_piece(m) == piece_code(WB, p.side as int),
        piece_move(p, occ, WR, m) ==> m_piece(m) == piece_code(WR, p.side as int),
        piece_move(p, occ, WQ, m) ==> m_piece(m) == piece_code(WQ, p.side as int),
        piece_move(p, occ, WK, m) ==> m_piece(m) == piece_code(WK, p.side as int),
        castle_move(p, m) ==> m_piece(m) == piece_code(WK, p.side as int),
{
    if pawn_pseudo(p, m) {
        crate::pawns::lemma_pawn_piece(p, m);
    }
    assert forall|kind: u8| (kind == WN || kind == WB || kind == WR || kind == WQ || kind == WK) && #[trigger] piece_move(p, occ, kind, m)
        implies m_piece(m) == piece_code(kind, p.side as int) by {
        let (fr, to) = choose|fr: u64, to: u64|
            #![trigger step_move(p.mailbox, fr, to, piece_code(kind, p.side as int))]
            fr < 64 && to < 64 && p.mailbox[fr as int] == piece_code(kind, p.side as int)
                && crate::movegen::kind_attacks(kind, fr, to, occ) && !crate::movegen::own_at(p, to as int)
                && m == step_move(p.mailbox, fr, to, piece_code(kind, p.side as int));
        assert(p.mailbox[to as int] <= 12);
        crate::movegen::lemma_step_fields(p.mailbox, fr, to, piece_code(kind, p.side as int));
    }
    if castle_move(p, m) {
        crate::position::lemma_flag_values();
        lemma_pack_fields(4, 6, WK, 0, 0, FLAG_CASTLE);
        lemma_pack_fields(4, 2, WK, 0, 0, FLAG_CASTLE);
        lemma_pack_fields(60, 62, BK, 0, 0, FLAG_CASTLE);
        lemma_pack_fields(60, 58, BK, 0, 0, FLAG_CASTLE);
    }
}

/// The runs of pawn, knight, king, bishop, rook and queen moves never share a move: each run
/// is free of repeats and moves a different piece.
proof fn lemma_all_moves_distinct(p: Position, occ: u64, l0: Seq<Move>, l1: Seq<Move>, l2: Seq<Move>, l3: Seq<Move>,
    l4: Seq<Move>, l5: Seq<Move>, l6: Seq<Move>)
    requires
        crate::board::mailbox_ok(p.mailbox),
        p.side <= 1,
        extends(l0, l1), extends(l1, l2), extends(l2, l3), extends(l3, l4), extends(l4, l5), extends(l5, l6),
        forall|i: int| l0.len() <= i < l1.len() ==> pawn_pseudo(p, #[trigger] l1[i]@),
        forall|i: int| l1.len() <= i < l2.len() ==> piece_move(p, occ, WN, #[trigger] l2[i]@),
        forall|i: int| l2.len() <= i < l3.len() ==> piece_move(p, occ, WK, #[trigger] l3[i]@) || castle_move(p, l3[i]@),
        forall|i: int| l3.len() <= i < l4.len() ==> piece_move(p, occ, WB, #[trigger] l4[i]@),
        forall|i: int| l4.len() <= i < l5.len() ==> piece_move(p, occ, WR, #[trigger] l5[i]@),
        forall|i: int| l5.len() <= i < l6.len() ==> piece_move(p, occ, WQ, #[trigger] l6[i]@),
        distinct_after(l1, l0.len() as int),
        distinct_after(l2, l1.len() as int),
        distinct_after(l3, l2.len() as int),
        distinct_after(l4, l3.len() as int),
        distinct_after(l5, l4.len() as int),
        distinct_after(l6, l5.len() as int),
    ensures
        distinct_after(l6, l0.len() as int),
{
    let side = p.side as int;
    lemma_extends_trans(l0, l1, l2);
    lemma_extends_trans(l0, l2, l3);
    lemma_extends_trans(l0, l3, l4);
    lemma_extends_trans(l0, l4, l5);
    lemma_extends_trans(l0, l5, l6);
    lemma_extends_trans(l1, l2, l3);
    lemma_extends_trans(l1, l3, l4);
    lemma_extends_trans(l1, l4, l5);
    lemma_extends_trans(l1, l5, l6);
    lemma_extends_trans(l2, l3, l4);
    lemma_extends_trans(l2, l4, l5);
    lemma_extends_trans(l2, l5, l6);
    lemma_extends_trans(l3, l4, l5);
    lemma_extends_trans(l3, l5, l6);
    lemma_extends_trans(l4, l5, l6);
    // the piece each run moves
    assert forall|i: int| l0.len() <= i < l6.len() implies m_piece(#[trigger] l6[i]@) == (if i < l1.len() {
        piece_code(WP, side)
    } else if i < l2.len() {
        piece_code(WN, side)
    } else if i < l3.len() {
        piece_code(WK, side)
    } else if i < l4.len() {
        piece_code(WB, side)
    } else if i < l5.len() {
        piece_code(WR, side)
    } else {
        piece_code(WQ, side)
    }) by {
        let m = l6[i]@;
        lemma_pseudo_piece(p, occ, m);
        if i < l1.len() {
            lemma_extends_index(l1, l6, i);
        } else if i < l2.len() {
            lemma_extends_index(l2, l6, i);
        } else if i < l3.len() {
            lemma_extends_index(l3, l6, i);
        } else if i < l4.len() {
            lemma_extends_index(l4, l6, i);
        } else if i < l5.len() {
            lemma_extends_index(l5, l6, i);
        }
    }
    assert forall|i: int, j: int| l0.len() <= i < j < l6.len() implies #[trigger] l6[i]@ != #[trigger] l6[j]@ by {
        if j < l1.len() {
            lemma_extends_index(l1, l6, i);
            lemma_extends_index(l1, l6, j);
        } else if j < l2.len() {
            if i >= l1.len() {
                lemma_extends_index(l2, l6, i);
                lemma_extends_index(l2, l6, j);
            }
        } else if j < l3.len() {
            if i >= l2.len() {
                lemma_extends_index(l3, l6, i);
                lemma_extends_index(l3, l6, j);
            }
        } else if j < l4.len() {
            if i >= l3.len() {
                lemma_extends_index(l4, l6, i);
                lemma_extends_index(l4, l6, j);
            }
        } else if j < l5.len() {
            if i >= l4.len() {
                lemma_extends_index(l5, l6, i);
                lemma_extends_index(l5, l6, j);
            }
        }
    }
}

/// The piece a pseudo-legal capture moves: a pawn, or the piece of its kind.
pub proof fn lemma_capture_piece(p: Position, occ: u64, m: u32)
    requires
        crate::board::mailbox_ok(p.mailbox),
        p.side <= 1,
    ensures
        pawn_pseudo_capture(p, m) ==> m_piece(m) == piece_code(WP, p.side as int),
        forall|kind: u8| (kind == WN || kind == WB || kind == WR || kind == WQ) && #[trigger] piece_capture(p, occ, kind, m)
            ==> m_piece(m) == piece_code(kind, p.side as int),
        king_capture(p, m) ==> m_piece(m) == piece_code(WK, p.side as int),
{
    if pawn_pseudo_capture(p, m) {
        crate::pawns::lemma_pawn_piece(p, m);
    }
    assert forall|kind: u8| (kind == WN || kind == WB || kind == WR || kind == WQ) && #[trigger] piece_capture(p, occ, kind, m)
        implies m_piece(m) == piece_code(kind, p.side as int) by {
        let (fr, to) = choose|fr: u64, to: u64|
            #![trigger step_move(p.mailbox, fr, to, piece_code(kind, p.side as int))]
            fr < 64 && to < 64 && p.mailbox[fr as int] == piece_code(kind, p.side as int)
                && crate::movegen::kind_attacks(kind, fr, to, occ) && crate::movegen::enemy_at(p, to as int)
                && m == step_move(p.mailbox, fr, to, piece_code(kind, p.side as int));
        assert(p.mailbox[to as int] <= 12);
        crate::movegen::lemma_step_fields(p.mailbox, fr, to, piece_code(kind, p.side as int));
    }
    if king_capture(p, m) {
        let (fr, to) = choose|fr: u64, to: u64|
            #![trigger step_move(p.mailbox, fr, to, piece_code(WK, p.side as int))]
            crate::movegen::king_capture_from(p, fr, to) && m == step_move(p.mailbox, fr, to, piece_code(WK, p.side as int));
        assert(p.mailbox[to as int] <= 12);
        crate::movegen::lemma_step_fields(p.mailbox, fr, to, piece_code(WK, p.side as int));
    }
}

/// The runs of pawn, knight, bishop, rook, queen and king captures never share a move.
proof fn lemma_all_captures_distinct(p: Position, occ: u64, l0: Seq<Move>, l1: Seq<Move>, l2: Seq<Move>, l3: Seq<Move>,
    l4: Seq<Move>, l5: Seq<Move>, l6: Seq<Move>)
    requires
        crate::board::mailbox_ok(p.mailbox),
        p.side <= 1,
        extends(l0, l1), extends(l1, l2), extends(l2, l3), extends(l3, l4), extends(l4, l5), extends(l5, l6),
        forall|i: int| l0.len() <= i < l1.len() ==> pawn_pseudo_capture(p, #[trigger] l1[i]@),
        forall|i: int| l1.len() <= i < l2.len() ==> piece_capture(p, occ, WN, #[trigger] l2[i]@),
        forall|i: int| l2.len() <= i < l3.len() ==> piece_capture(p, occ, WB, #[trigger] l3[i]@),
        forall|i: int| l3.len() <= i < l4.len() ==> piece_capture(p, occ, WR, #[trigger] l4[i]@),
        forall|i: int| l4.len() <= i < l5.len() ==> piece_capture(p, occ, WQ, #[trigger] l5[i]@),
        forall|i: int| l5.len() <= i < l6.len() ==> king_capture(p, #[trigger] l6[i]@),
        distinct_after(l1, l0.len() as int),
        distinct_after(l2, l1.len() as int),
        distinct_after(l3, l2.len() as int),
        distinct_after(l4, l3.len() as int),
        distinct_after(l5, l4.len() as int),
        distinct_after(l6, l5.len() as int),
    ensures
        distinct_after(l6, l0.len() as int),
{
    let side = p.side as int;
    lemma_extends_trans(l0, l1, l2);
    lemma_extends_trans(l0, l2, l3);
    lemma_extends_trans(l0, l3, l4);
    lemma_extends_trans(l0, l4, l5);
    lemma_extends_trans(l0, l5, l6);
    lemma_extends_trans(l1, l2, l3);
    lemma_extends_trans(l1, l3, l4);
    lemma_extends_trans(l1, l4, l5);
    lemma_extends_trans(l1, l5, l6);
    lemma_extends_trans(l2, l3, l4);
    lemma_extends_trans(l2, l4, l5);
    lemma_extends_trans(l2, l5, l6);
    lemma_extends_trans(l3, l4, l5);
    lemma_extends_trans(l3, l5, l6);
    lemma_extends_trans(l4, l5, l6);
    assert forall|i: int| l0.len() <= i < l6.len() implies m_piece(#[trigger] l6[i]@) == (if i < l1.len() {
        piece_code(WP, side)
    } else if i < l2.len() {
        piece_code(WN, side)
    } else if i < l3.len() {
        piece_code(WB, side)
    } else if i < l4.len() {
        piece_code(WR, side)
    } else if i < l5.len() {
        piece_code(WQ, side)
    } else {
        piece_code(WK, side)
    }) by {
        let m = l6[i]@;
        lemma_capture_piece(p, occ, m);
        if i < l1.len() {
            lemma_extends_index(l1, l6, i);
        } else if i < l2.len() {
            lemma_extends_index(l2, l6, i);
            assert(piece_capture(p, occ, WN, m));
        } else if i < l3.len() {
            lemma_extends_index(l3, l6, i);
            assert(piece_capture(p, occ, WB, m));
        } else if i < l4.len() {
            lemma_extends_index(l4, l6, i);
            assert(piece_capture(p, occ, WR, m));
        } else if i < l5.len() {
            lemma_extends_index(l5, l6, i);
            assert(piece_capture(p, occ, WQ, m));
        }
    }
    assert forall|i: int, j: int| l0.len() <= i < j < l6.len() implies #[trigger] l6[i]@ != #[trigger] l6[j]@ by {
        if j < l1.len() {
            lemma_extends_index(l1, l6, i);
            lemma_extends_index(l1, l6, j);
        } else if j < l2.len() {
            if i >= l1.len() {
                lemma_extends_index(l2, l6, i);
                lemma_extends_index(l2, l6, j);
            }
        } else if j < l3.len() {
            if i >= l2.len() {
                lemma_extends_index(l3, l6, i);
                lemma_extends_index(l3, l6, j);
            }
        } else if j < l4.len() {
            if i >= l3.len() {
                lemma_extends_index(l4, l6, i);
                lemma_extends_index(l4, l6, j);
            }
        } else if j < l5.len() {
            if i >= l4.len() {
                lemma_extends_index(l5, l6, i);
                lemma_extends_index(l5, l6, j);
            }
        }
    }
}

/// Appending a segment that holds exactly the moves of `b` to a list whose new part holds
/// exactly the moves of `a` gives a new part that holds exactly the moves of either.
pub proof fn lemma_join(l0: Seq<Move>, l1: Seq<Move>, l2: Seq<Move>, a: spec_fn(u32) -> bool, b: spec_fn(u32) -> bool)
    requires
        extends(l0, l1),
        extends(l1, l2),
        forall|i: int| l0.len() <= i < l1.len() ==> a(#[trigger] l1[i]@),
        forall|m: u32| #[trigger] a(m) ==> has_move(l1, l0.len() as int, m),
        forall|i: int| l1.len() <= i < l2.len() ==> b(#[trigger] l2[i]@),
        forall|m: u32| #[trigger] b(m) ==> has_move(l2, l1.len() as int, m),
    ensures
        extends(l0, l2),
        forall|i: int| l0.len() <= i < l2.len() ==> a(#[trigger] l2[i]@) || b(l2[i]@),
        forall|m: u32| a(m) || b(m) ==> #[trigger] has_move(l2, l0.len() as int, m),
{
    lemma_extends_trans(l0, l1, l2);
    assert forall|i: int| l0.len() <= i < l2.len() implies a(#[trigger] l2[i]@) || b(l2[i]@) by {
        if i < l1.len() {
            lemma_extends_index(l1, l2, i);
            assert(a(l1[i]@));
        }
    }
    assert forall|m: u32| a(m) || b(m) implies #[trigger] has_move(l2, l0.len() as int, m) by {
        if a(m) {
            lemma_has_move_extends(l1, l2, l0.len() as int, m);
        } else {
            lemma_has_move_lower(l2, l0.len() as int, l1.len() as int, m);
        }
    }
}

/// Two well-formed boards with the same squares have the same bitboards.
pub proof fn lemma_same_bitboards(a: Board, b: Board)
    requires
        a.wf(),
        b.wf(),
        a.mailbox@ == b.mailbox@,
    ensures
        a.pieces@ == b.pieces@,
        a.occ@ == b.occ@,
{
    let mb = a.mailbox@;
    assert forall|k: int| 0 <= k < 12 implies #[trigger] a.pieces@[k] == b.pieces@[k] by {
        assert(piece_bb_ok(a.pieces@[k], mb, (k + 1) as u8));
        assert(piece_bb_ok(b.pieces@[k], mb, (k + 1) as u8));
        assert forall|t: u64| t < 64 implies (#[trigger] bit(a.pieces@[k], t) <==> bit(b.pieces@[k], t)) by {}
        lemma_bits_ext(a.pieces@[k], b.pieces@[k]);
    }
    assert(a.pieces@ =~= b.pieces@);
    assert(occ_ok(a.occ@, mb));
    assert(occ_ok(b.occ@, mb));
    assert forall|k: int| 0 <= k < 3 implies #[trigger] a.occ@[k] == b.occ@[k] by {
        assert forall|t: u64| t < 64 implies (#[trigger] bit(a.occ@[k], t) <==> bit(b.occ@[k], t)) by {}
        lemma_bits_ext(a.occ@[k], b.occ@[k]);
    }
    assert(a.occ@ =~= b.occ@);
}

/// The square the king crosses when castling to `to`.
pub open spec fn castle_transit(to: u8) -> u8 {
    if to == 6 {
        5
    } else if to == 2 {
        3
    } else if to == 62 {
        61
    } else {
        59
    }
}

/// A castling move neither starts on nor crosses a square the other side attacks.
pub open spec fn castle_path_safe(p: Position, m: u32) -> bool {
    m_is_castle(m) ==> {
        &&& !attacked_by(p.mailbox, occ_of(p.mailbox), m_from(m) as u64, 1 - p.side)
        &&& !attacked_by(p.mailbox, occ_of(p.mailbox), castle_transit(m_to(m)) as u64, 1 - p.side)
    }
}

/// A legal move: pseudo-legal, castling only over safe squares, and not leaving the king of
/// the side that moves attacked.
pub open spec fn legal_move(p: Position, m: u32) -> bool {
    &&& pseudo_move(p, occ_of(p.mailbox), m)
    &&& castle_path_safe(p, m)
    &&& !in_check(make_spec(p, m).mailbox, p.side as int)
}

/// A legal capture: a pseudo-legal capture that does not leave the mover's king attacked.
pub open spec fn legal_capture(p: Position, m: u32) -> bool {
    &&& capture_move(p, occ_of(p.mailbox), m)
    &&& !in_check(make_spec(p, m).mailbox, p.side as int)
}

impl Board {
    /// Appends every pseudo-legal move of the side to move: pawns, knights, king (castling
    /// included), bishops, rooks, queens.
    pub fn generate_all_moves(&self, list: &mut MoveList)
        requires
            self.wf(),
        ensures
            extends(old(list)@, final(list)@),
            forall|i: int| old(list)@.len() <= i < final(list)@.len() ==> pseudo_move(self@, self.occ@[2], #[trigger] final(list)@[i]@),
            forall|m: u32| pseudo_move(self@, self.occ@[2], m) ==> #[trigger] has_move(final(list)@, old(list)@.len() as int, m),
            distinct_after(final(list)@, old(list)@.len() as int),
    {
        let ghost p = self@;
        let ghost occ = self.occ@[2];
        let ghost l0 = list@;
        self.generate_pawn_moves(list);
        let ghost l1 = list@;
        self.generate_knight_moves(list);
        let ghost l2 = list@;
        proof {
            lemma_join(l0, l1, l2, |m: u32| pawn_pseudo(p, m), |m: u32| piece_move(p, occ, WN, m));
        }
        self.generate_king_moves(list);
        let ghost l3 = list@;
        proof {
            lemma_join(l0, l2, l3, |m: u32| pawn_pseudo(p, m) || piece_move(p, occ, WN, m),
                |m: u32| piece_move(p, occ, WK, m) || castle_move(p, m));
        }
        self.generate_bishop_moves(list);
        let ghost l4 = list@;
        proof {
            lemma_join(l0, l3, l4, |m: u32| pawn_pseudo(p, m) || piece_move(p, occ, WN, m) || piece_move(p, occ, WK, m) || castle_move(p, m),
                |m: u32| piece_move(p, occ, WB, m));
        }
        self.generate_rook_moves(list);
        let ghost l5 = list@;
        proof {
            lemma_join(l0, l4, l5, |m: u32| pawn_pseudo(p, m) || piece_move(p, occ, WN, m) || piece_move(p, occ, WK, m) || castle_move(p, m)
                || piece_move(p, occ, WB, m),
                |m: u32| piece_move(p, occ, WR, m));
        }
        self.generate_queen_moves(list);
        proof {
            lemma_join(l0, l5, list@, |m: u32| pawn_pseudo(p, m) || piece_move(p, occ, WN, m) || piece_move(p, occ, WK, m) || castle_move(p, m)
                || piece_move(p, occ, WB, m) || piece_move(p, occ, WR, m),
                |m: u32| piece_move(p, occ, WQ, m));
            // each generator moves pieces of its own kind, so no move is appended twice
            lemma_all_moves_distinct(p, occ, l0, l1, l2, l3, l4, l5, list@);
        }
    }

    /// Appends every pseudo-legal capture of the side to move: pawns (en passant included),
    /// knights, bishops, rooks, queens, king.
    pub fn generate_capture_moves(&self, list: &mut MoveList)
        requires
            self.wf(),
        ensures
            extends(old(list)@, final(list)@),
            forall|i: int| old(list)@.len() <= i < final(list)@.len() ==> capture_move(self@, self.occ@[2], #[trigger] final(list)@[i]@),
            forall|m: u32| capture_move(self@, self.occ@[2], m) ==> #[trigger] has_move(final(list)@, old(list)@.len() as int, m),
            distinct_after(final(list)@, old(list)@.len() as int),
    {
        let ghost p = self@;
        let ghost occ = self.occ@[2];
        let ghost l0 = list@;
        self.generate_pawn_captures(list);
        let ghost l1 = list@;
        self.generate_knight_captures(list);
        let ghost l2 = list@;
        proof {
            lemma_join(l0, l1, l2, |m: u32| pawn_pseudo_capture(p, m), |m: u32| piece_capture(p, occ, WN, m));
        }
        self.generate_bishop_captures(list);
        let ghost l3 = list@;
        proof {
            lemma_join(l0, l2, l3, |m: u32| pawn_pseudo_capture(p, m) || piece_capture(p, occ, WN, m),
                |m: u32| piece_capture(p, occ, WB, m));
        }
        self.generate_rook_captures(list);
        let ghost l4 = list@;
        proof {
            lemma_join(l0, l3, l4, |m: u32| pawn_pseudo_capture(p, m) || piece_capture(p, occ, WN, m) || piece_capture(p, occ, WB, m),
                |m: u32| piece_capture(p, occ, WR, m));
        }
        self.generate_queen_captures(list);
        let ghost l5 = list@;
        proof {
            lemma_join(l0, l4, l5, |m: u32| pawn_pseudo_capture(p, m) || piece_capture(p, occ, WN, m) || piece_capture(p, occ, WB, m)
                || piece_capture(p, occ, WR, m),
                |m: u32| piece_capture(p, occ, WQ, m));
        }
        self.generate_king_captures(list);
        proof {
            lemma_join(l0, l5, list@, |m: u32| pawn_pseudo_capture(p, m) || piece_capture(p, occ, WN, m) || piece_capture(p, occ, WB, m)
                || piece_capture(p, occ, WR, m) || piece_capture(p, occ, WQ, m),
                |m: u32| king_capture(p, m));
            lemma_all_captures_distinct(p, occ, l0, l1, l2, l3, l4, l5, list@);
        }
    }
}

impl Board {
    /// Appends the legal moves of the side to move, in the order of the pseudo-legal
    /// generation; each move is tried on the board and taken back, which leaves the board as
    /// it was.
    pub fn generate_legal_moves(&mut self, list: &mut MoveList)
        requires
            old(self).wf(),
            sound_position(old(self)@),
        ensures
            final(self).wf(),
            final(self)@ == old(self)@,
            extras_kept(*old(self), *final(self)),
            final(self).pieces@ == old(self).pieces@,
            final(self).occ@ == old(self).occ@,
            extends(old(list)@, final(list)@),
            forall|i: int| old(list)@.len() <= i < final(list)@.len() ==> legal_move(old(self)@, #[trigger] final(list)@[i]@),
            forall|m: u32| legal_move(old(self)@, m) ==> #[trigger] has_move(final(list)@, old(list)@.len() as int, m),
            distinct_after(final(list)@, old(list)@.len() as int),
    {
        let ghost p = self@;
        let ghost b0 = *self;
        let ghost l0 = list@;
        let mut pseudo = MoveList::new();
        self.generate_all_moves(&mut pseudo);
        proof {
            lemma_occ_of(self);
        }
        let side = self.side_to_move as usize;
        let opponent = if side == WHITE { BLACK } else { WHITE };
        let n = pseudo.len();
        let mut i: usize = 0;
        proof {
            assert(list@.subrange(0, l0.len() as int) =~= l0);
        }
        while i < n
            invariant
                b0.wf(),
                b0@ == p,
                sound_position(p),
                self.wf(),
                self@ == p,
                extras_kept(b0, *self),
                self.pieces@ == b0.pieces@,
                self.occ@ == b0.occ@,
                self.occ@[2] == occ_of(p.mailbox),
                side as int == p.side,
                side_of(opponent) == 1 - p.side,
                n == pseudo@.len(),
                i <= n,
                forall|j: int| 0 <= j < n ==> pseudo_move(p, occ_of(p.mailbox), #[trigger] pseudo@[j]@),
                forall|m: u32| pseudo_move(p, occ_of(p.mailbox), m) ==> #[trigger] has_move(pseudo@, 0, m),
                extends(l0, list@),
                forall|j: int| l0.len() <= j < list@.len() ==> legal_move(p, #[trigger] list@[j]@),
                forall|j: int| 0 <= j < i && legal_move(p, #[trigger] pseudo@[j]@) ==> has_move(list@, l0.len() as int, pseudo@[j]@),
                distinct_after(pseudo@, 0),
                distinct_after(list@, l0.len() as int),
                forall|j: int| l0.len() <= j < list@.len() ==> exists|k: int| 0 <= k < i && #[trigger] pseudo@[k]@ == #[trigger] list@[j]@,
            decreases n - i,
        {
            let mv = pseudo.get(i);
            let ghost m = mv@;
            let ghost li = list@;
            assert(pseudo_move(p, occ_of(p.mailbox), pseudo@[i as int]@));
            let mut skip = false;
            if mv.is_castle() {
                let to = mv.to();
                let transit_sq: u8 = if to == 6 {
                    5
                } else if to == 2 {
                    3
                } else if to == 62 {
                    61
                } else {
                    59
                };
                if self.square_attacked(mv.from(), opponent) {
                    skip = true;
                } else if self.square_attacked(transit_sq, opponent) {
                    skip = true;
                }
            }
            if !skip {
                proof {
                    lemma_pseudo_makeable(p, occ_of(p.mailbox), m);
                    lemma_unmake_undoes_make(p, m);
                }
                let undo = self.make_move(mv);
                let in_check = self.king_in_check(side);
                if !in_check {
                    list.push(mv);
                }
                self.unmake_move(mv, undo);
                proof {
                    lemma_same_bitboards(*self, b0);
                }
            }
            proof {
                assert(extends(li, list@)) by {
                    assert(list@.subrange(0, li.len() as int) =~= li);
                }
                crate::movegen::lemma_extends_trans(l0, li, list@);
                assert forall|j: int| l0.len() <= j < list@.len() implies legal_move(p, #[trigger] list@[j]@) by {
                    if j < li.len() {
                        lemma_extends_index(li, list@, j);
                    }
                }
                assert forall|j: int| l0.len() <= j < list@.len() implies exists|k: int| 0 <= k < i + 1 && #[trigger] pseudo@[k]@ == #[trigger] list@[j]@ by {
                    if j < li.len() {
                        lemma_extends_index(li, list@, j);
                        let k = choose|k: int| 0 <= k < i && #[trigger] pseudo@[k]@ == #[trigger] li[j]@;
                        assert(pseudo@[k]@ == list@[j]@);
                    } else {
                        assert(list@[j] == mv);
                        assert(pseudo@[i as int]@ == list@[j]@);
                    }
                }
                assert forall|a: int, b: int| l0.len() <= a < b < list@.len() implies #[trigger] list@[a]@ != #[trigger] list@[b]@ by {
                    lemma_extends_index(li, list@, a);
                    if b < li.len() {
                        lemma_extends_index(li, list@, b);
                    } else {
                        let k = choose|k: int| 0 <= k < i && #[trigger] pseudo@[k]@ == #[trigger] li[a]@;
                        assert(list@[b] == mv);
                        assert(pseudo@[k]@ != pseudo@[i as int]@);
                    }
                }
                assert forall|j: int| 0 <= j < i + 1 && legal_move(p, #[trigger] pseudo@[j]@) implies has_move(list@, l0.len() as int, pseudo@[j]@) by {
                    if j < i {
                        lemma_has_move_extends(li, list@, l0.len() as int, pseudo@[j]@);
                    } else {
                        assert(list@[li.len() as int] == mv);
                    }
                }
            }
            i += 1;
        }
        proof {
            assert forall|m: u32| legal_move(p, m) implies #[trigger] has_move(list@, l0.len() as int, m) by {
                assert(has_move(pseudo@, 0, m));
                let j = choose|j: int| 0 <= j < pseudo@.len() && #[trigger] pseudo@[j]@ == m;
                assert(legal_move(p, pseudo@[j]@));
            }
        }
    }

    /// Appends the legal captures of the side to move, in the order of the pseudo-legal
    /// capture generation; the board is left as it was.
    pub fn generate_legal_captures(&mut self, list: &mut MoveList)
        requires
            old(self).wf(),
            sound_position(old(self)@),
        ensures
            final(self).wf(),
            final(self)@ == old(self)@,
            extras_kept(*old(self), *final(self)),
            final(self).pieces@ == old(self).pieces@,
            final(self).occ@ == old(self).occ@,
            extends(old(list)@, final(list)@),
            forall|i: int| old(list)@.len() <= i < final(list)@.len() ==> legal_capture(old(self)@, #[trigger] final(list)@[i]@),
            forall|m: u32| legal_capture(old(self)@, m) ==> #[trigger] has_move(final(list)@, old(list)@.len() as int, m),
            distinct_after(final(list)@, old(list)@.len() as int),
    {
        let ghost p = self@;
        let ghost b0 = *self;
        let ghost l0 = list@;
        let mut pseudo = MoveList::new();
        self.generate_capture_moves(&mut pseudo);
        proof {
            lemma_occ_of(self);
        }
        let side = self.side_to_move as usize;
        let n = pseudo.len();
        let mut i: usize = 0;
        proof {
            assert(list@.subrange(0, l0.len() as int) =~= l0);
        }
        while i < n
            invariant
                b0.wf(),
                b0@ == p,
                sound_position(p),
                self.wf(),
                self@ == p,
                extras_kept(b0, *self),
                self.pieces@ == b0.pieces@,
                self.occ@ == b0.occ@,
                self.occ@[2] == occ_of(p.mailbox),
                side as int == p.side,
                n == pseudo@.len(),
                i <= n,
                forall|j: int| 0 <= j < n ==> capture_move(p, occ_of(p.mailbox), #[trigger] pseudo@[j]@),
                forall|m: u32| capture_move(p, occ_of(p.mailbox), m) ==> #[trigger] has_move(pseudo@, 0, m),
                extends(l0, list@),
                forall|j: int| l0.len() <= j < list@.len() ==> legal_capture(p, #[trigger] list@[j]@),
                forall|j: int| 0 <= j < i && legal_capture(p, #[trigger] pseudo@[j]@) ==> has_move(list@, l0.len() as int, pseudo@[j]@),
                distinct_after(pseudo@, 0),
                distinct_after(list@, l0.len() as int),
                forall|j: int| l0.len() <= j < list@.len() ==> exists|k: int| 0 <= k < i && #[trigger] pseudo@[k]@ == #[trigger] list@[j]@,
            decreases n - i,
        {
            let mv = pseudo.get(i);
            let ghost m = mv@;
            let ghost li = list@;
            assert(capture_move(p, occ_of(p.mailbox), pseudo@[i as int]@));
            proof {
                lemma_capture_makeable(p, occ_of(p.mailbox), m);
                lemma_unmake_undoes_make(p, m);
            }
            let undo = self.make_move(mv);
            let in_check = self.king_in_check(side);
            if !in_check {
                list.push(mv);
            }
            self.unmake_move(mv, undo);
            proof {
                lemma_same_bitboards(*self, b0);
                assert(extends(li, list@)) by {
                    assert(list@.subrange(0, li.len() as int) =~= li);
                }
                crate::movegen::lemma_extends_trans(l0, li, list@);
                assert forall|j: int| l0.len() <= j < list@.len() implies legal_capture(p, #[trigger] list@[j]@) by {
                    if j < li.len() {
                        lemma_extends_index(li, list@, j);
                    }
                }
                assert forall|j: int| l0.len() <= j < list@.len() implies exists|k: int| 0 <= k < i + 1 && #[trigger] pseudo@[k]@ == #[trigger] list@[j]@ by {
                    if j < li.len() {
                        lemma_extends_index(li, list@, j);
                        let k = choose|k: int| 0 <= k < i && #[trigger] pseudo@[k]@ == #[trigger] li[j]@;
                        assert(pseudo@[k]@ == list@[j]@);
                    } else {
                        assert(list@[j] == mv);
                        assert(pseudo@[i as int]@ == list@[j]@);
                    }
                }
                assert forall|a: int, b: int| l0.len() <= a < b < list@.len() implies #[trigger] list@[a]@ != #[trigger] list@[b]@ by {
                    lemma_extends_index(li, list@, a);
                    if b < li.len() {
                        lemma_extends_index(li, list@, b);
                    } else {
                        let k = choose|k: int| 0 <= k < i && #[trigger] pseudo@[k]@ == #[trigger] li[a]@;
                        assert(list@[b] == mv);
                        assert(pseudo@[k]@ != pseudo@[i as int]@);
                    }
                }
                assert forall|j: int| 0 <= j < i + 1 && legal_capture(p, #[trigger] pseudo@[j]@) implies has_move(list@, l0.len() as int, pseudo@[j]@) by {
                    if j < i {
                        lemma_has_move_extends(li, list@, l0.len() as int, pseudo@[j]@);
                    } else {
                        assert(list@[li.len() as int] == mv);
                    }
                }
            }
            i += 1;
        }
        proof {
            assert forall|m: u32| legal_capture(p, m) implies #[trigger] has_move(list@, l0.len() as int, m) by {
                assert(has_move(pseudo@, 0, m));
                let j = choose|j: int| 0 <= j < pseudo@.len() && #[trigger] pseudo@[j]@ == m;
                assert(legal_capture(p, pseudo@[j]@));
            }
        }
    }
}

} // verus!
