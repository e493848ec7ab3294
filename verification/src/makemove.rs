//! Making and taking back moves, with the incremental Zobrist update.
use vstd::prelude::*;
use crate::board::{Board, Position, BLACK, BP, BR, WHITE, WK, WP, WR, mailbox_ok, pieces_hash, zobrist_of, lemma_pieces_hash_update, lemma_side_flip, lemma_xor_assoc, extras_kept};
use crate::generation::{castling_rights_mask, rights_mask};
use crate::moves::{Move, m_captured, m_from, m_is_capture, m_is_castle, m_is_double, m_is_ep, m_is_promotion, m_piece, m_promo, m_to};
use crate::zobrist::{
    castling_key, ep_key, piece_key, square_key, zobrist_castling, zobrist_ep, zobrist_piece,
    ZOBRIST_SIDE,
};

verus! {

/// The state that a move overwrites and that taking it back restores.
#[derive(Debug, Clone, Copy)]
pub struct Undo {
    pub castling: u8,
    pub ep_square: u8,
    pub halfmove_clock: u16,
    pub zobrist: u64,
}

/// A king's castling destination: g1, c1, g8 or c8.
pub open spec fn is_castle_target(to: u8) -> bool {
    to == 6 || to == 2 || to == 62 || to == 58
}

/// Where the rook starts when the king castles to `to`.
pub open spec fn castle_rook_from(to: u8) -> u8 {
    if to == 6 {
        7
    } else if to == 2 {
        0
    } else if to == 62 {
        63
    } else {
        56
    }
}

/// Where the rook lands when the king castles to `to`.
pub open spec fn castle_rook_to(to: u8) -> u8 {
    if to == 6 {
        5
    } else if to == 2 {
        3
    } else if to == 62 {
        61
    } else {
        59
    }
}

/// The rook that castles with `king`.
pub open spec fn castle_rook(king: u8) -> u8 {
    if king == WK {
        WR
    } else {
        BR
    }
}

/// The square of the pawn taken en passant by `piece` arriving on `to`.
pub open spec fn ep_victim(piece: u8, to: u8) -> int {
    if piece == WP {
        to - 8
    } else {
        to + 8
    }
}

/// The en-passant square a double push of `piece` to `to` leaves behind.
pub open spec fn double_push_ep(piece: u8, to: u8) -> u8 {
    (if piece == WP {
        to - 8
    } else {
        to + 8
    }) as u8
}

/// A move whose fields describe the position: the moving piece stands on the from-square,
/// the squares it needs are free or occupied as its flags say, and no counter overflows.
pub open spec fn move_fits(p: Position, m: u32) -> bool {
    let mb = p.mailbox;
    let from = m_from(m);
    let to = m_to(m);
    let piece = m_piece(m);
    let cap = m_captured(m);
    &&& 1 <= piece <= 12
    &&& mb[from as int] == piece
    &&& from != to
    &&& (piece == WP || piece == BP || m_is_capture(m)) || p.halfmove < 65535
    &&& p.side == 1 ==> p.fullmove < 65535
    &&& m_is_double(m) ==> (if piece == WP {
        to >= 8
    } else {
        to < 56
    })
    &&& if m_is_ep(m) {
        &&& (piece == WP ==> to >= 8)
        &&& (piece != WP ==> to < 56)
        &&& mb[to as int] == 0
        &&& ep_victim(piece, to) != from
        &&& mb[ep_victim(piece, to)] != 0
        &&& cap <= 12
    } else if m_is_castle(m) {
        &&& is_castle_target(to)
        &&& mb[to as int] == 0
        &&& castle_rook_from(to) != from
        &&& mb[castle_rook_from(to) as int] != 0
        &&& (castle_rook_to(to) == from || mb[castle_rook_to(to) as int] == 0)
    } else if m_is_promotion(m) {
        &&& 1 <= m_promo(m) <= 12
        &&& if m_is_capture(m) {
            mb[to as int] != 0 && cap <= 12
        } else {
            mb[to as int] == 0
        }
    } else {
        if m_is_capture(m) {
            mb[to as int] != 0 && cap <= 12
        } else {
            mb[to as int] == 0
        }
    }
}

/// The captured piece recorded in the move is the piece it takes, and a castling king
/// takes its own rook along.
pub open spec fn move_matches(p: Position, m: u32) -> bool {
    let mb = p.mailbox;
    let to = m_to(m);
    let piece = m_piece(m);
    if m_is_ep(m) {
        m_captured(m) == mb[ep_victim(piece, to)]
    } else if m_is_castle(m) {
        mb[castle_rook_from(to) as int] == castle_rook(piece) && castle_rook_to(to) != m_from(m)
    } else if m_is_capture(m) {
        m_captured(m) == mb[to as int]
    } else {
        true
    }
}

/// The squares after the move.
pub open spec fn moved_mailbox(mb: Seq<u8>, m: u32) -> Seq<u8> {
    let from = m_from(m) as int;
    let to = m_to(m) as int;
    let piece = m_piece(m);
    if m_is_ep(m) {
        mb.update(from, 0).update(to, piece).update(ep_victim(piece, m_to(m)), 0)
    } else if m_is_castle(m) {
        let rf = castle_rook_from(m_to(m)) as int;
        let rt = castle_rook_to(m_to(m)) as int;
        let mb1 = mb.update(from, 0).update(to, piece);
        mb1.update(rf, 0).update(rt, mb1[rf])
    } else if m_is_promotion(m) {
        mb.update(from, 0).update(to, m_promo(m))
    } else {
        mb.update(from, 0).update(to, piece)
    }
}

/// The castling rights after a move from `from` to `to`.
pub open spec fn castling_after(c: u8, from: u8, to: u8) -> u8 {
    c & rights_mask(from as int) & rights_mask(to as int)
}

/// The en-passant square after the move.
pub open spec fn ep_after(m: u32) -> u8 {
    if m_is_double(m) {
        double_push_ep(m_piece(m), m_to(m))
    } else {
        64
    }
}

/// The en-passant part of the hash.
pub open spec fn ep_part(ep: u8) -> u64 {
    if ep != 64 {
        ep_key((ep % 8) as int)
    } else {
        0u64
    }
}

/// The keys of the pieces that a move lifts and places, in the order `make_move` applies them.
pub open spec fn move_piece_keys(m: u32) -> u64 {
    let from = m_from(m) as int;
    let to = m_to(m) as int;
    let piece = m_piece(m) as int;
    let cap = m_captured(m) as int;
    if m_is_ep(m) {
        piece_key(piece, from) ^ piece_key(piece, to) ^ piece_key(cap, ep_victim(m_piece(m), m_to(m)))
    } else if m_is_castle(m) {
        let rook = castle_rook(m_piece(m)) as int;
        piece_key(piece, from) ^ piece_key(piece, to) ^ piece_key(rook, castle_rook_from(m_to(m)) as int)
            ^ piece_key(rook, castle_rook_to(m_to(m)) as int)
    } else if m_is_promotion(m) {
        piece_key(piece, from) ^ (if m_is_capture(m) {
            piece_key(cap, to)
        } else {
            0u64
        }) ^ piece_key(m_promo(m) as int, to)
    } else {
        piece_key(piece, from) ^ piece_key(piece, to) ^ (if m_is_capture(m) {
            piece_key(cap, to)
        } else {
            0u64
        })
    }
}

/// The hash after the move, updated incrementally from the hash before it.
pub open spec fn zobrist_after(p: Position, m: u32) -> u64 {
    let c2 = castling_after(p.castling, m_from(m), m_to(m));
    p.zobrist ^ castling_key(p.castling as int) ^ ep_part(p.ep) ^ move_piece_keys(m) ^ castling_key(
        c2 as int,
    ) ^ ep_part(ep_after(m)) ^ ZOBRIST_SIDE
}

/// Whether the move resets the fifty-move counter.
pub open spec fn resets_clock(m: u32) -> bool {
    m_piece(m) == WP || m_piece(m) == BP || m_is_capture(m)
}

/// The position after the move.
pub open spec fn make_spec(p: Position, m: u32) -> Position {
    Position {
        mailbox: moved_mailbox(p.mailbox, m),
        side: (p.side ^ 1u8) as u8,
        castling: castling_after(p.castling, m_from(m), m_to(m)),
        ep: ep_after(m),
        halfmove: if resets_clock(m) {
            0
        } else {
            (p.halfmove + 1) as u16
        },
        fullmove: if (p.side ^ 1u8) == 0 {
            (p.fullmove + 1) as u16
        } else {
            p.fullmove
        },
        zobrist: zobrist_after(p, m),
        history: p.history.push(zobrist_after(p, m)),
    }
}

/// What `make_move` hands back for taking the move back.
pub open spec fn undo_of(p: Position) -> Undo {
    Undo { castling: p.castling, ep_square: p.ep, halfmove_clock: p.halfmove, zobrist: p.zobrist }
}

/// The squares after taking the move back.
pub open spec fn unmoved_mailbox(mb: Seq<u8>, m: u32) -> Seq<u8> {
    let from = m_from(m) as int;
    let to = m_to(m) as int;
    let piece = m_piece(m);
    let cap = m_captured(m);
    if m_is_ep(m) {
        mb.update(to, 0).update(from, mb[to]).update(ep_victim(piece, m_to(m)), cap)
    } else if m_is_castle(m) {
        let rf = castle_rook_from(m_to(m)) as int;
        let rt = castle_rook_to(m_to(m)) as int;
        let mb1 = mb.update(to, 0).update(from, mb[to]);
        mb1.update(rt, 0).update(rf, mb1[rt])
    } else if m_is_promotion(m) {
        let mb1 = mb.update(to, 0).update(from, piece);
        if m_is_capture(m) {
            mb1.update(to, cap)
        } else {
            mb1
        }
    } else {
        let mb1 = mb.update(to, 0).update(from, mb[to]);
        if m_is_capture(m) {
            mb1.update(to, cap)
        } else {
            mb1
        }
    }
}

/// A move that can be taken back from the position without any piece operation failing.
pub open spec fn unmake_fits(p: Position, m: u32, undo: Undo) -> bool {
    let mb = p.mailbox;
    let from = m_from(m);
    let to = m_to(m);
    let piece = m_piece(m);
    let cap = m_captured(m);
    &&& from != to
    &&& undo.castling < 16
    &&& undo.ep_square <= 64
    &&& (p.side ^ 1u8) == 1 ==> p.fullmove >= 1
    &&& mb[to as int] != 0
    &&& mb[from as int] == 0
    &&& if m_is_ep(m) {
        &&& (piece == WP ==> to >= 8)
        &&& (piece != WP ==> to < 56)
        &&& ep_victim(piece, to) != from
        &&& mb[ep_victim(piece, to)] == 0
        &&& 1 <= cap <= 12
    } else if m_is_castle(m) {
        let rf = castle_rook_from(to);
        let rt = castle_rook_to(to);
        &&& is_castle_target(to)
        &&& rt != from
        &&& mb[rt as int] != 0
        &&& rf != from
        &&& (rf == to || mb[rf as int] == 0)
    } else if m_is_promotion(m) {
        &&& 1 <= piece <= 12
        &&& m_is_capture(m) ==> 1 <= cap <= 12
    } else {
        m_is_capture(m) ==> 1 <= cap <= 12
    }
}

/// The position after taking the move back.
pub open spec fn unmake_spec(p: Position, m: u32, undo: Undo) -> Position {
    let side = (p.side ^ 1u8) as u8;
    Position {
        mailbox: unmoved_mailbox(p.mailbox, m),
        side: side,
        castling: undo.castling,
        ep: undo.ep_square,
        halfmove: undo.halfmove_clock,
        fullmove: if side == 1 {
            (p.fullmove - 1) as u16
        } else {
            p.fullmove
        },
        zobrist: undo.zobrist,
        history: if p.history.len() > 0 {
            p.history.drop_last()
        } else {
            p.history
        },
    }
}

impl Board {
    /// Plays `mv` on the board and returns what is needed to take it back.
    pub fn make_move(&mut self, mv: Move) -> (undo: Undo)
        requires
            old(self).wf(),
            move_fits(old(self)@, mv@),
        ensures
            final(self).wf(),
            final(self)@ == make_spec(old(self)@, mv@),
            undo == undo_of(old(self)@),
            extras_kept(*old(self), *final(self)),
            m_is_capture(mv@) ==> final(self).halfmove_clock == 0,
            (m_piece(mv@) == WP || m_piece(mv@) == BP) ==> final(self).halfmove_clock == 0,
            !m_is_capture(mv@) && m_piece(mv@) != WP && m_piece(mv@) != BP ==> final(self).halfmove_clock
                == old(self).halfmove_clock + 1,
    {
        let ghost p0 = self@;
        let undo = Undo {
            castling: self.castling,
            ep_square: self.ep_square,
            halfmove_clock: self.halfmove_clock,
            zobrist: self.zobrist,
        };
        let from = mv.from();
        let to = mv.to();
        let piece = mv.piece();

        if piece == WP || piece == BP || mv.is_capture() {
            self.halfmove_clock = 0;
        } else {
            self.halfmove_clock = self.halfmove_clock + 1;
        }

        self.zobrist = self.zobrist ^ zobrist_castling(self.castling);
        if self.ep_square != 64 {
            self.zobrist = self.zobrist ^ zobrist_ep(self.ep_square % 8);
        } else {
            proof { crate::board::lemma_xor_assoc(self.zobrist, 0, 0); }
        }
        let ghost z1 = self.zobrist;

        if mv.is_ep() {
            let captured_sq = if piece == WP { to - 8 } else { to + 8 };
            self.zobrist = self.zobrist ^ zobrist_piece(piece, from);
            self.zobrist = self.zobrist ^ zobrist_piece(piece, to);
            self.zobrist = self.zobrist ^ zobrist_piece(mv.captured(), captured_sq);
            self.move_piece(from, to);
            self.remove_piece(captured_sq);
        } else if mv.is_castle() {
            let (rook_from, rook_to): (u8, u8) = if to == 6 {
                (7, 5)
            } else if to == 2 {
                (0, 3)
            } else if to == 62 {
                (63, 61)
            } else {
                (56, 59)
            };
            let rook = if piece == WK { WR } else { BR };
            self.zobrist = self.zobrist ^ zobrist_piece(piece, from);
            self.zobrist = self.zobrist ^ zobrist_piece(piece, to);
            self.zobrist = self.zobrist ^ zobrist_piece(rook, rook_from);
            self.zobrist = self.zobrist ^ zobrist_piece(rook, rook_to);
            self.move_piece(from, to);
            self.move_piece(rook_from, rook_to);
        } else if mv.is_promotion() {
            self.zobrist = self.zobrist ^ zobrist_piece(piece, from);
            if mv.is_capture() {
                self.zobrist = self.zobrist ^ zobrist_piece(mv.captured(), to);
                self.remove_piece(to);
            } else {
                proof { crate::board::lemma_xor_assoc(self.zobrist, 0, 0); }
            }
            self.zobrist = self.zobrist ^ zobrist_piece(mv.promo(), to);
            self.remove_piece(from);
            self.put_piece(mv.promo(), to);
        } else {
            self.zobrist = self.zobrist ^ zobrist_piece(piece, from);
            self.zobrist = self.zobrist ^ zobrist_piece(piece, to);
            if mv.is_capture() {
                self.zobrist = self.zobrist ^ zobrist_piece(mv.captured(), to);
                self.remove_piece(to);
            } else {
                proof { crate::board::lemma_xor_assoc(self.zobrist, 0, 0); }
            }
            self.move_piece(from, to);
        }
        let ghost z2 = self.zobrist;
        proof {
            let a = p0.zobrist ^ castling_key(p0.castling as int) ^ ep_part(p0.ep);
            assert(z1 == a);
            let k = move_piece_keys(mv@);
            if m_is_ep(mv@) {
                assert(z2 == a ^ k) by {
                    let x = piece_key(piece as int, from as int);
                    let y = piece_key(piece as int, to as int);
                    let w = piece_key(m_captured(mv@) as int, ep_victim(piece, to));
                    lemma_xor_chain(a, x, y, 0, w);
                }
            } else if m_is_castle(mv@) {
                assert(z2 == a ^ k) by {
                    let rook = castle_rook(piece) as int;
                    let x = piece_key(piece as int, from as int);
                    let y = piece_key(piece as int, to as int);
                    let u = piece_key(rook, castle_rook_from(to) as int);
                    let w = piece_key(rook, castle_rook_to(to) as int);
                    lemma_xor_chain(a, x, y, u, w);
                }
            } else if m_is_promotion(mv@) {
                assert(z2 == a ^ k) by {
                    let x = piece_key(piece as int, from as int);
                    let c = if m_is_capture(mv@) { piece_key(m_captured(mv@) as int, to as int) } else { 0u64 };
                    let y = piece_key(m_promo(mv@) as int, to as int);
                    lemma_xor_chain(a, x, c, 0, y);
                }
            } else {
                assert(z2 == a ^ k) by {
                    let x = piece_key(piece as int, from as int);
                    let y = piece_key(piece as int, to as int);
                    let c = if m_is_capture(mv@) { piece_key(m_captured(mv@) as int, to as int) } else { 0u64 };
                    lemma_xor_chain(a, x, y, 0, c);
                }
            }
        }

        self.ep_square = 64;
        if mv.is_double_push() {
            self.ep_square = if piece == WP { to - 8 } else { to + 8 };
        }

        self.castling = self.castling & castling_rights_mask(from);
        self.castling = self.castling & castling_rights_mask(to);
        proof {
            let c0 = p0.castling;
            let r1 = rights_mask(from as int);
            let r2 = rights_mask(to as int);
            assert(c0 < 16 ==> c0 & r1 & r2 < 16) by (bit_vector);
        }

        self.zobrist = self.zobrist ^ zobrist_castling(self.castling);
        if self.ep_square != 64 {
            self.zobrist = self.zobrist ^ zobrist_ep(self.ep_square % 8);
        } else {
            proof { crate::board::lemma_xor_assoc(self.zobrist, 0, 0); }
        }

        self.zobrist = self.zobrist ^ ZOBRIST_SIDE;
        self.side_to_move = self.side_to_move ^ 1;
        proof {
            lemma_side_flip(p0.side);
        }

        if self.side_to_move == WHITE as u8 {
            self.fullmove_number = self.fullmove_number + 1;
        }

        self.history.push(self.zobrist);
        proof {
            assert(self.mailbox@ =~= moved_mailbox(p0.mailbox, mv@));
        }

        undo
    }
}

impl Board {
    /// Takes back `mv`, restoring the state saved in `undo`.
    pub fn unmake_move(&mut self, mv: Move, undo: Undo)
        requires
            old(self).wf(),
            unmake_fits(old(self)@, mv@, undo),
        ensures
            final(self).wf(),
            final(self)@ == unmake_spec(old(self)@, mv@, undo),
            extras_kept(*old(self), *final(self)),
    {
        let ghost p0 = self@;
        self.history.pop();
        self.side_to_move = self.side_to_move ^ 1;
        proof {
            lemma_side_flip(p0.side);
        }

        let from = mv.from();
        let to = mv.to();
        let piece = mv.piece();

        if mv.is_ep() {
            self.move_piece(to, from);
            let captured_sq = if piece == WP { to - 8 } else { to + 8 };
            self.put_piece(mv.captured(), captured_sq);
        } else if mv.is_castle() {
            self.move_piece(to, from);
            let (rook_from, rook_to): (u8, u8) = if to == 6 {
                (7, 5)
            } else if to == 2 {
                (0, 3)
            } else if to == 62 {
                (63, 61)
            } else {
                (56, 59)
            };
            self.move_piece(rook_to, rook_from);
        } else if mv.is_promotion() {
            self.remove_piece(to);
            self.put_piece(piece, from);
            if mv.is_capture() {
                self.put_piece(mv.captured(), to);
            }
        } else {
            self.move_piece(to, from);
            if mv.is_capture() {
                self.put_piece(mv.captured(), to);
            }
        }

        self.castling = undo.castling;
        self.ep_square = undo.ep_square;
        self.halfmove_clock = undo.halfmove_clock;
        self.zobrist = undo.zobrist;

        if self.side_to_move == BLACK as u8 {
            self.fullmove_number = self.fullmove_number - 1;
        }
        proof {
            assert(self.mailbox@ =~= unmoved_mailbox(p0.mailbox, mv@));
        }
    }
}

/// Regrouping the XOR of a hash with the keys of a move.
proof fn lemma_xor_chain(a: u64, x: u64, y: u64, u: u64, w: u64)
    by (bit_vector)
    ensures
        (((a ^ x) ^ y) ^ u) ^ w == a ^ (x ^ y ^ u ^ w),
        ((a ^ x) ^ y) ^ w == a ^ (x ^ y ^ w),
        (((a ^ (x ^ 0u64)) ^ (0u64 ^ y)) ^ (u ^ 0u64)) ^ (0u64 ^ w) == a ^ (x ^ y ^ u ^ w),
        ((a ^ (x ^ 0u64)) ^ (0u64 ^ y)) ^ (w ^ 0u64) == a ^ (x ^ y ^ w),
        (a ^ (x ^ 0u64)) ^ (y ^ w) == a ^ (x ^ y ^ w),
        (a ^ (x ^ 0u64)) ^ (w ^ y) == a ^ (x ^ y ^ w),
        x ^ y ^ w == x ^ w ^ y,
{
}

/// Taking back a move restores the position it was made from.
pub proof fn lemma_unmake_undoes_make(p: Position, m: u32)
    requires
        mailbox_ok(p.mailbox),
        p.side <= 1,
        p.castling < 16,
        p.ep <= 64,
        move_fits(p, m),
        move_matches(p, m),
    ensures
        unmake_fits(make_spec(p, m), m, undo_of(p)),
        unmake_spec(make_spec(p, m), m, undo_of(p)) == p,
{
    crate::moves::lemma_fields_in_range(m);
    let q = make_spec(p, m);
    let mb = p.mailbox;
    let s = p.side;
    lemma_side_flip(s);
    assert(mb[m_to(m) as int] <= 12);
    if m_is_ep(m) {
        assert(mb[ep_victim(m_piece(m), m_to(m))] <= 12);
    }
    let r = unmake_spec(q, m, undo_of(p));
    assert(r.mailbox =~= p.mailbox);
    assert(r.history =~= p.history);
}

/// The fifty-move counter counts the plies since the last capture or pawn move: a capture
/// or a pawn move sets it to zero, and any other move adds one to it.
pub proof fn lemma_halfmove_after_move(p: Position, m: u32)
    requires
        move_fits(p, m),
    ensures
        m_is_capture(m) ==> make_spec(p, m).halfmove == 0,
        (m_piece(m) == WP || m_piece(m) == BP) ==> make_spec(p, m).halfmove == 0,
        !m_is_capture(m) && m_piece(m) != WP && m_piece(m) != BP ==> make_spec(p, m).halfmove == p.halfmove + 1,
{
}

/// The turn passes to the other side, and the move number grows by one after black moves.
pub proof fn lemma_turn_after_move(p: Position, m: u32)
    requires
        move_fits(p, m),
        p.side <= 1,
    ensures
        make_spec(p, m).side == 1 - p.side,
        make_spec(p, m).fullmove == p.fullmove + (if p.side == 1 { 1int } else { 0int }),
        !m_is_double(m) ==> make_spec(p, m).ep == 64,
{
    lemma_side_flip(p.side);
}

/// How three castling masks combine, bit by bit.
proof fn lemma_rights_masks(c: u8, a: u8, b: u8)
    by (bit_vector)
    ensures
        (c & a & b) & !c == 0,
        (a == 0xFCu8 || b == 0xFCu8) ==> (c & a & b) & 3 == 0,
        (a == 0xFEu8 || b == 0xFEu8) ==> (c & a & b) & 1 == 0,
        (a == 0xFDu8 || b == 0xFDu8) ==> (c & a & b) & 2 == 0,
        (a == 0xF3u8 || b == 0xF3u8) ==> (c & a & b) & 12 == 0,
        (a == 0xFBu8 || b == 0xFBu8) ==> (c & a & b) & 4 == 0,
        (a == 0xF7u8 || b == 0xF7u8) ==> (c & a & b) & 8 == 0,
        (a == 0xFFu8 && b == 0xFFu8) ==> (c & a & b) == c,
{
}

/// A home square of a king or a rook, whose castling rights a move on or off it affects.
pub open spec fn castle_home(s: int) -> bool {
    s == 0 || s == 4 || s == 7 || s == 56 || s == 60 || s == 63
}

/// A move never gains castling rights. Moving from or to a king's home square loses both
/// rights of that side; moving from or to a rook's home square loses the right on that
/// side; a move that touches none of these squares keeps the rights as they are.
pub proof fn lemma_castling_rights_after(p: Position, m: u32)
    ensures
        make_spec(p, m).castling & !p.castling == 0,
        (m_from(m) == 4 || m_to(m) == 4) ==> make_spec(p, m).castling & 3 == 0,
        (m_from(m) == 7 || m_to(m) == 7) ==> make_spec(p, m).castling & 1 == 0,
        (m_from(m) == 0 || m_to(m) == 0) ==> make_spec(p, m).castling & 2 == 0,
        (m_from(m) == 60 || m_to(m) == 60) ==> make_spec(p, m).castling & 12 == 0,
        (m_from(m) == 63 || m_to(m) == 63) ==> make_spec(p, m).castling & 4 == 0,
        (m_from(m) == 56 || m_to(m) == 56) ==> make_spec(p, m).castling & 8 == 0,
        !castle_home(m_from(m) as int) && !castle_home(m_to(m) as int) ==> make_spec(p, m).castling == p.castling,
{
    lemma_rights_masks(p.castling, rights_mask(m_from(m) as int), rights_mask(m_to(m) as int));
}

/// Making a move keeps the incrementally updated hash equal to the hash computed from scratch.
pub proof fn lemma_make_keeps_hash(p: Position, m: u32)
    requires
        mailbox_ok(p.mailbox),
        p.side <= 1,
        move_fits(p, m),
        move_matches(p, m),
        p.zobrist == zobrist_of(p),
    ensures
        make_spec(p, m).zobrist == zobrist_of(make_spec(p, m)),
{
    crate::moves::lemma_fields_in_range(m);
    let q = make_spec(p, m);
    let mb = p.mailbox;
    let from = m_from(m) as int;
    let to = m_to(m) as int;
    let piece = m_piece(m);
    let h = pieces_hash(mb, 64);
    let k = move_piece_keys(m);
    assert(pieces_hash(q.mailbox, 64) == h ^ k) by {
        let x = piece_key(piece as int, from);
        let y = piece_key(piece as int, to);
        if m_is_ep(m) {
            let v = ep_victim(piece, m_to(m));
            let mb1 = mb.update(from, 0);
            let mb2 = mb1.update(to, piece);
            lemma_pieces_hash_update(mb, from, 0, 64);
            lemma_pieces_hash_update(mb1, to, piece, 64);
            lemma_pieces_hash_update(mb2, v, 0, 64);
            let w = piece_key(m_captured(m) as int, v);
            assert(mb2[v] == mb[v]);
            lemma_xor_chain(h, x, y, 0, w);
        } else if m_is_castle(m) {
            let rf = castle_rook_from(m_to(m)) as int;
            let rt = castle_rook_to(m_to(m)) as int;
            let rook = castle_rook(piece);
            let mb1 = mb.update(from, 0);
            let mb2 = mb1.update(to, piece);
            let mb3 = mb2.update(rf, 0);
            lemma_pieces_hash_update(mb, from, 0, 64);
            lemma_pieces_hash_update(mb1, to, piece, 64);
            lemma_pieces_hash_update(mb2, rf, 0, 64);
            lemma_pieces_hash_update(mb3, rt, mb2[rf], 64);
            assert(mb2[rf] == rook);
            assert(mb3[rt] == 0);
            let u = piece_key(rook as int, rf);
            let w = piece_key(rook as int, rt);
            lemma_xor_chain(h, x, y, u, w);
        } else if m_is_promotion(m) {
            let promo = m_promo(m);
            let mb1 = mb.update(from, 0);
            lemma_pieces_hash_update(mb, from, 0, 64);
            lemma_pieces_hash_update(mb1, to, promo, 64);
            let y2 = piece_key(promo as int, to);
            let c = if m_is_capture(m) { piece_key(m_captured(m) as int, to) } else { 0u64 };
            assert(square_key(mb1[to], to) == c);
            lemma_xor_chain(h, x, c, 0, y2);
        } else {
            let mb1 = mb.update(from, 0);
            lemma_pieces_hash_update(mb, from, 0, 64);
            lemma_pieces_hash_update(mb1, to, piece, 64);
            let c = if m_is_capture(m) { piece_key(m_captured(m) as int, to) } else { 0u64 };
            assert(square_key(mb1[to], to) == c);
            lemma_xor_chain(h, x, c, 0, y);
            lemma_xor_chain(h, x, y, 0, c);
        }
    }
    let s = p.side;
    let sk = if s == 1 { ZOBRIST_SIDE } else { 0u64 };
    let sk2 = if q.side == 1 { ZOBRIST_SIDE } else { 0u64 };
    lemma_side_flip(s);
    let zs = ZOBRIST_SIDE;
    assert(sk2 == sk ^ zs) by {
        lemma_xor_assoc(zs, 0, 0);
        lemma_xor_assoc(0, zs, 0);
    }
    let c1 = castling_key(p.castling as int);
    let e1 = ep_part(p.ep);
    let c2 = castling_key(q.castling as int);
    let e2 = ep_part(q.ep);
    assert(zobrist_of(p) == h ^ sk ^ c1 ^ e1);
    assert(zobrist_of(q) == (h ^ k) ^ sk2 ^ c2 ^ e2);
    assert((((((((h ^ sk ^ c1 ^ e1) ^ c1) ^ e1) ^ k) ^ c2) ^ e2) ^ zs) == (h ^ k) ^ (sk ^ zs) ^ c2 ^ e2)
        by (bit_vector);
}

} // verus!
