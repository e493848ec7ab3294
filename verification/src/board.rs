//! The board: twelve piece bitboards, three occupancy bitboards and a square-by-square
//! mailbox, kept in agreement with each other.
use vstd::prelude::*;
use crate::bits::{bit, lemma_bit_zero, lemma_bit_or, lemma_bit_and, lemma_bit_not, lemma_bit_xor, lemma_bit_single};
use crate::moves::Move;
use crate::zobrist::{square_key, castling_key, ep_key, ZOBRIST_SIDE, zobrist_piece, zobrist_castling, zobrist_ep};

verus! {

pub type Bitboard = u64;

pub type Square = u8;

pub const WHITE: usize = 0;
pub const BLACK: usize = 1;
pub const BOTH: usize = 2;

pub const EMPTY: u8 = 0;

pub const WP: u8 = 1;
pub const WN: u8 = 2;
pub const WB: u8 = 3;
pub const WR: u8 = 4;
pub const WQ: u8 = 5;
pub const WK: u8 = 6;

pub const BP: u8 = 7;
pub const BN: u8 = 8;
pub const BB: u8 = 9;
pub const BR: u8 = 10;
pub const BQ: u8 = 11;
pub const BK: u8 = 12;

/// The deepest search ply that has killer-move slots.
pub const MAX_DEPTH: u8 = 99;

#[derive(Clone, Debug)]
pub struct Board {
    pub pieces: [Bitboard; 12],
    pub occ: [Bitboard; 3],
    pub mailbox: [u8; 64],
    /// 0 white, 1 black
    pub side_to_move: u8,
    /// four bits: white king side, white queen side, black king side, black queen side
    pub castling: u8,
    /// 64 = none
    pub ep_square: u8,
    pub halfmove_clock: u16,
    pub fullmove_number: u16,
    pub zobrist: u64,
    pub material_mg: i32,
    pub material_eg: i32,
    pub pst_mg: i32,
    pub pst_eg: i32,
    pub history: Vec<u64>,
    /// two killer moves for each search depth
    pub killers: [[Option<Move>; 2]; 100],
}

/// What a board means: the piece on each square and the game state around it.
pub struct Position {
    pub mailbox: Seq<u8>,
    pub side: u8,
    pub castling: u8,
    pub ep: u8,
    pub halfmove: u16,
    pub fullmove: u16,
    pub zobrist: u64,
    pub history: Seq<u64>,
}

impl View for Board {
    type V = Position;

    open spec fn view(&self) -> Position {
        Position {
            mailbox: self.mailbox@,
            side: self.side_to_move,
            castling: self.castling,
            ep: self.ep_square,
            halfmove: self.halfmove_clock,
            fullmove: self.fullmove_number,
            zobrist: self.zobrist,
            history: self.history@,
        }
    }
}

/// A white piece code.
pub open spec fn is_white_piece(p: u8) -> bool {
    1 <= p <= 6
}

/// A black piece code.
pub open spec fn is_black_piece(p: u8) -> bool {
    7 <= p <= 12
}

/// A piece belonging to `side` (0 white, 1 black).
pub open spec fn piece_of_side(p: u8, side: int) -> bool {
    if side == 0 {
        is_white_piece(p)
    } else {
        is_black_piece(p)
    }
}

/// The bitboard of piece code `p` (1..=12) marks exactly the squares holding `p`.
pub open spec fn piece_bb_ok(bb: u64, mb: Seq<u8>, p: u8) -> bool {
    forall|s: u64| s < 64 ==> (#[trigger] bit(bb, s) <==> mb[s as int] == p)
}

/// The occupancy bitboards mark the white, the black and all occupied squares.
pub open spec fn occ_ok(occ: Seq<u64>, mb: Seq<u8>) -> bool {
    &&& forall|s: u64| s < 64 ==> (#[trigger] bit(occ[0], s) <==> is_white_piece(mb[s as int]))
    &&& forall|s: u64| s < 64 ==> (#[trigger] bit(occ[1], s) <==> is_black_piece(mb[s as int]))
    &&& forall|s: u64| s < 64 ==> (#[trigger] bit(occ[2], s) <==> mb[s as int] != 0)
}

/// Every mailbox entry is a piece code or empty.
pub open spec fn mailbox_ok(mb: Seq<u8>) -> bool {
    &&& mb.len() == 64
    &&& forall|s: int| 0 <= s < 64 ==> #[trigger] mb[s] <= 12
}

impl Board {
    /// The board's parts agree: each bitboard marks exactly the squares that the mailbox
    /// gives to it, and the side, castling rights and en-passant square are in range.
    pub open spec fn wf(&self) -> bool {
        &&& mailbox_ok(self.mailbox@)
        &&& forall|p: int| 0 <= p < 12 ==> piece_bb_ok(#[trigger] self.pieces@[p], self.mailbox@, (p + 1) as u8)
        &&& occ_ok(self.occ@, self.mailbox@)
        &&& self.side_to_move <= 1
        &&& self.castling < 16
        &&& self.ep_square <= 64
    }
}

/// The killer slots and the evaluation counters are the same on both boards.
pub open spec fn extras_kept(a: Board, b: Board) -> bool {
    &&& a.killers == b.killers
    &&& a.material_mg == b.material_mg
    &&& a.material_eg == b.material_eg
    &&& a.pst_mg == b.pst_mg
    &&& a.pst_eg == b.pst_eg
}

/// The hash of the pieces on squares `0..n`.
pub open spec fn pieces_hash(mb: Seq<u8>, n: nat) -> u64
    decreases n,
{
    if n == 0 {
        0
    } else {
        pieces_hash(mb, (n - 1) as nat) ^ square_key(mb[n - 1], n - 1)
    }
}

/// The Zobrist hash of a position, as `compute_zobrist` computes it from scratch.
pub open spec fn zobrist_of(p: Position) -> u64 {
    pieces_hash(p.mailbox, 64) ^ (if p.side == 1 {
        ZOBRIST_SIDE
    } else {
        0u64
    }) ^ castling_key(p.castling as int) ^ (if p.ep != 64 {
        ep_key((p.ep % 8) as int)
    } else {
        0u64
    })
}

pub proof fn lemma_xor_assoc(a: u64, b: u64, c: u64)
    by (bit_vector)
    ensures
        (a ^ b) ^ c == a ^ (b ^ c),
        a ^ b == b ^ a,
        a ^ 0 == a,
        a ^ a == 0,
        (a ^ b) ^ c == (a ^ c) ^ b,
        a ^ c == (a ^ b) ^ (b ^ c),
{
}

/// Flipping the side to move twice gives it back, and keeps it 0 or 1.
pub proof fn lemma_side_flip(s: u8)
    by (bit_vector)
    ensures
        (s ^ 1u8) ^ 1u8 == s,
        s <= 1 ==> (s ^ 1u8) <= 1,
        s <= 1 ==> ((s ^ 1u8) == 0 <==> s == 1),
        s <= 1 ==> ((s ^ 1u8) == 1 <==> s == 0),
{
}

/// Changing one square changes the hash by the keys of what left and what arrived.
pub proof fn lemma_pieces_hash_update(mb: Seq<u8>, i: int, v: u8, n: nat)
    requires
        0 <= i < mb.len(),
        n <= mb.len(),
    ensures
        pieces_hash(mb.update(i, v), n) == pieces_hash(mb, n) ^ (if i < n {
            square_key(mb[i], i) ^ square_key(v, i)
        } else {
            0u64
        }),
    decreases n,
{
    if n == 0 {
        lemma_xor_assoc(0, 0, 0);
    } else {
        let m = (n - 1) as nat;
        lemma_pieces_hash_update(mb, i, v, m);
        let a = pieces_hash(mb, m);
        let x = square_key(mb[i], i);
        let y = square_key(v, i);
        let k = square_key(mb[m as int], m as int);
        let mu = mb.update(i, v);
        assert(pieces_hash(mu, n) == pieces_hash(mu, m) ^ square_key(mu[m as int], m as int));
        assert(pieces_hash(mb, n) == a ^ k);
        if i < m {
            assert(mu[m as int] == mb[m as int]);
            lemma_xor_assoc(a, x ^ y, k);
        } else if i == m {
            assert(mu[m as int] == v);
            lemma_xor_assoc(a, 0, 0);
            assert(pieces_hash(mu, m) == a);
            lemma_xor_assoc(a, x, y);
        } else {
            assert(mu[m as int] == mb[m as int]);
            lemma_xor_assoc(a, 0, 0);
            lemma_xor_assoc(a ^ k, 0, 0);
        }
    }
}

impl Board {
    pub fn empty() -> (r: Self)
        ensures
            r.wf(),
            forall|s: int| 0 <= s < 64 ==> #[trigger] r.mailbox@[s] == EMPTY,
            r.side_to_move == WHITE,
            r.castling == 0,
            r.ep_square == 64,
            r.halfmove_clock == 0,
            r.fullmove_number == 1,
            r.zobrist == 0,
            r.history@ == Seq::<u64>::empty(),
            r.material_mg == 0 && r.material_eg == 0 && r.pst_mg == 0 && r.pst_eg == 0,
            forall|d: int, k: int| 0 <= d < 100 && 0 <= k < 2 ==> #[trigger] r.killers[d][k] is None,
    {
        let r = Board {
            pieces: [0; 12],
            occ: [0; 3],
            mailbox: [EMPTY; 64],
            side_to_move: WHITE as u8,
            castling: 0,
            ep_square: 64,
            halfmove_clock: 0,
            fullmove_number: 1,
            zobrist: 0,
            material_mg: 0,
            material_eg: 0,
            pst_mg: 0,
            pst_eg: 0,
            history: Vec::with_capacity(10),
            killers: [[None; 2]; 100],
        };
        proof {
            assert forall|s: u64| s < 64 implies !#[trigger] bit(0u64, s) by {
                lemma_bit_zero(s);
            }
        }
        r
    }
}

/// Setting one square: bit `t` of `bb | (1 << s)` is bit `t` of `bb` or `t == s`.
pub proof fn lemma_set_bit(bb: u64, s: u64)
    requires
        s < 64,
    ensures
        forall|t: u64| t < 64 ==> (#[trigger] bit(bb | (1u64 << s), t) <==> (bit(bb, t) || t == s)),
{
    assert forall|t: u64| t < 64 implies (#[trigger] bit(bb | (1u64 << s), t) <==> (bit(bb, t)
        || t == s)) by {
        lemma_bit_or(bb, 1u64 << s, t);
        lemma_bit_single(s, t);
    }
}

/// Clearing one square: bit `t` of `bb & !(1 << s)` is bit `t` of `bb` and `t != s`.
pub proof fn lemma_clear_bit(bb: u64, s: u64)
    requires
        s < 64,
    ensures
        forall|t: u64|
            t < 64 ==> (#[trigger] bit(bb & !(1u64 << s), t) <==> (bit(bb, t) && t != s)),
{
    assert forall|t: u64| t < 64 implies (#[trigger] bit(bb & !(1u64 << s), t) <==> (bit(bb, t)
        && t != s)) by {
        lemma_bit_and(bb, !(1u64 << s), t);
        lemma_bit_not(1u64 << s, t);
        lemma_bit_single(s, t);
    }
}

/// Toggling two squares: bit `t` of `bb ^ ((1 << a) | (1 << b))` flips when `t` is `a` or `b`.
pub proof fn lemma_toggle_bits(bb: u64, a: u64, b: u64)
    requires
        a < 64,
        b < 64,
        a != b,
    ensures
        forall|t: u64|
            t < 64 ==> (#[trigger] bit(bb ^ ((1u64 << a) | (1u64 << b)), t) <==> (bit(bb, t) != (t
                == a || t == b))),
{
    assert forall|t: u64| t < 64 implies (#[trigger] bit(bb ^ ((1u64 << a) | (1u64 << b)), t)
        <==> (bit(bb, t) != (t == a || t == b))) by {
        lemma_bit_xor(bb, (1u64 << a) | (1u64 << b), t);
        lemma_bit_or(1u64 << a, 1u64 << b, t);
        lemma_bit_single(a, t);
        lemma_bit_single(b, t);
    }
}

impl Board {
    /// Places `piece` on the empty square `sq`.
    pub fn put_piece(&mut self, piece: u8, sq: Square)
        requires
            old(self).wf(),
            WP <= piece <= BK,
            sq < 64,
            old(self).mailbox@[sq as int] == EMPTY,
        ensures
            final(self).wf(),
            final(self).mailbox@ == old(self).mailbox@.update(sq as int, piece),
            final(self)@ == (Position { mailbox: final(self).mailbox@, ..old(self)@ }),
            extras_kept(*old(self), *final(self)),
            final(self).pieces@ == old(self).pieces@.update(piece - 1, old(self).pieces@[piece - 1] | (1u64 << sq)),
            final(self).occ@[2] == old(self).occ@[2] | (1u64 << sq),
            piece <= WK ==> final(self).occ@ == old(self).occ@.update(0, old(self).occ@[0] | (1u64 << sq)).update(
                2,
                old(self).occ@[2] | (1u64 << sq),
            ),
            piece > WK ==> final(self).occ@ == old(self).occ@.update(1, old(self).occ@[1] | (1u64 << sq)).update(
                2,
                old(self).occ@[2] | (1u64 << sq),
            ),
    {
        let idx = sq as usize;
        let mask = 1u64 << sq;
        let ghost mb = self.mailbox@;
        let ghost pcs = self.pieces@;
        let ghost oc = self.occ@;
        self.mailbox[idx] = piece;
        let pi = (piece - 1) as usize;
        self.pieces[pi] = self.pieces[pi] | mask;
        if piece <= WK {
            self.occ[WHITE] = self.occ[WHITE] | mask;
        } else {
            self.occ[BLACK] = self.occ[BLACK] | mask;
        }
        self.occ[BOTH] = self.occ[BOTH] | mask;
        proof {
            let nmb = self.mailbox@;
            assert(nmb == mb.update(sq as int, piece));
            assert forall|s: int| 0 <= s < 64 implies #[trigger] nmb[s] <= 12 by {
                if s != sq {
                    assert(mb[s] <= 12);
                }
            }
            lemma_set_bit(pcs[pi as int], sq as u64);
            lemma_set_bit(oc[0], sq as u64);
            lemma_set_bit(oc[1], sq as u64);
            lemma_set_bit(oc[2], sq as u64);
            assert forall|p: int| 0 <= p < 12 implies piece_bb_ok(
                #[trigger] self.pieces@[p],
                nmb,
                (p + 1) as u8,
            ) by {
                assert(piece_bb_ok(pcs[p], mb, (p + 1) as u8));
                assert forall|s: u64| s < 64 implies (#[trigger] bit(self.pieces@[p], s) <==> nmb[s as int]
                    == (p + 1) as u8) by {
                    if p == pi {
                        assert(bit(pcs[p], s) <==> mb[s as int] == (p + 1) as u8);
                    } else {
                        assert(bit(pcs[p], s) <==> mb[s as int] == (p + 1) as u8);
                    }
                }
            }
            assert(occ_ok(oc, mb));
        }
    }
}

impl Board {
    /// Takes the piece off the occupied square `sq` and returns it.
    pub fn remove_piece(&mut self, sq: Square) -> (piece: u8)
        requires
            old(self).wf(),
            sq < 64,
            old(self).mailbox@[sq as int] != EMPTY,
        ensures
            final(self).wf(),
            piece == old(self).mailbox@[sq as int],
            final(self).mailbox@ == old(self).mailbox@.update(sq as int, EMPTY),
            final(self)@ == (Position { mailbox: final(self).mailbox@, ..old(self)@ }),
            extras_kept(*old(self), *final(self)),
    {
        let idx = sq as usize;
        let mask = !(1u64 << sq);
        let ghost mb = self.mailbox@;
        let ghost pcs = self.pieces@;
        let ghost oc = self.occ@;
        let piece = self.mailbox[idx];
        self.mailbox[idx] = EMPTY;
        let pi = (piece - 1) as usize;
        self.pieces[pi] = self.pieces[pi] & mask;
        if piece <= WK {
            self.occ[WHITE] = self.occ[WHITE] & mask;
        } else {
            self.occ[BLACK] = self.occ[BLACK] & mask;
        }
        self.occ[BOTH] = self.occ[BOTH] & mask;
        proof {
            let nmb = self.mailbox@;
            assert(nmb == mb.update(sq as int, EMPTY));
            assert forall|s: int| 0 <= s < 64 implies #[trigger] nmb[s] <= 12 by {
                if s != sq {
                    assert(mb[s] <= 12);
                }
            }
            lemma_clear_bit(pcs[pi as int], sq as u64);
            lemma_clear_bit(oc[0], sq as u64);
            lemma_clear_bit(oc[1], sq as u64);
            lemma_clear_bit(oc[2], sq as u64);
            assert forall|p: int| 0 <= p < 12 implies piece_bb_ok(
                #[trigger] self.pieces@[p],
                nmb,
                (p + 1) as u8,
            ) by {
                assert(piece_bb_ok(pcs[p], mb, (p + 1) as u8));
                assert forall|s: u64| s < 64 implies (#[trigger] bit(self.pieces@[p], s)
                    <==> nmb[s as int] == (p + 1) as u8) by {
                    assert(bit(pcs[p], s) <==> mb[s as int] == (p + 1) as u8);
                }
            }
            assert(occ_ok(oc, mb));
        }
        piece
    }

    /// Moves the piece on `from` to the empty square `to`.
    pub fn move_piece(&mut self, from: Square, to: Square)
        requires
            old(self).wf(),
            from < 64,
            to < 64,
            old(self).mailbox@[from as int] != EMPTY,
            old(self).mailbox@[to as int] == EMPTY,
        ensures
            final(self).wf(),
            final(self).mailbox@ == old(self).mailbox@.update(from as int, EMPTY).update(
                to as int,
                old(self).mailbox@[from as int],
            ),
            final(self)@ == (Position { mailbox: final(self).mailbox@, ..old(self)@ }),
            extras_kept(*old(self), *final(self)),
    {
        let from_idx = from as usize;
        let to_idx = to as usize;
        let ghost mb = self.mailbox@;
        let ghost pcs = self.pieces@;
        let ghost oc = self.occ@;
        let piece = self.mailbox[from_idx];
        let delta = (1u64 << from) | (1u64 << to);
        self.mailbox[from_idx] = EMPTY;
        self.mailbox[to_idx] = piece;
        let pi = (piece - 1) as usize;
        self.pieces[pi] = self.pieces[pi] ^ delta;
        if piece <= WK {
            self.occ[WHITE] = self.occ[WHITE] ^ delta;
        } else {
            self.occ[BLACK] = self.occ[BLACK] ^ delta;
        }
        self.occ[BOTH] = self.occ[BOTH] ^ delta;
        proof {
            let nmb = self.mailbox@;
            assert(nmb == mb.update(from as int, EMPTY).update(to as int, piece));
            assert forall|s: int| 0 <= s < 64 implies #[trigger] nmb[s] <= 12 by {
                assert(mb[s] <= 12);
            }
            lemma_toggle_bits(pcs[pi as int], from as u64, to as u64);
            lemma_toggle_bits(oc[0], from as u64, to as u64);
            lemma_toggle_bits(oc[1], from as u64, to as u64);
            lemma_toggle_bits(oc[2], from as u64, to as u64);
            assert forall|p: int| 0 <= p < 12 implies piece_bb_ok(
                #[trigger] self.pieces@[p],
                nmb,
                (p + 1) as u8,
            ) by {
                assert(piece_bb_ok(pcs[p], mb, (p + 1) as u8));
                assert forall|s: u64| s < 64 implies (#[trigger] bit(self.pieces@[p], s)
                    <==> nmb[s as int] == (p + 1) as u8) by {
                    assert(bit(pcs[p], s) <==> mb[s as int] == (p + 1) as u8);
                    assert(bit(pcs[p], from as u64) <==> mb[from as int] == (p + 1) as u8);
                    assert(bit(pcs[p], to as u64) <==> mb[to as int] == (p + 1) as u8);
                }
            }
            assert(occ_ok(oc, mb));
            assert forall|s: u64| s < 64 implies (#[trigger] bit(self.occ@[0], s) <==> is_white_piece(nmb[s as int])) by {
                assert(bit(oc[0], from as u64) <==> is_white_piece(mb[from as int]));
                assert(bit(oc[0], to as u64) <==> is_white_piece(mb[to as int]));
                assert(bit(oc[0], s) <==> is_white_piece(mb[s as int]));
            }
            assert forall|s: u64| s < 64 implies (#[trigger] bit(self.occ@[1], s) <==> is_black_piece(nmb[s as int])) by {
                assert(bit(oc[1], from as u64) <==> is_black_piece(mb[from as int]));
                assert(bit(oc[1], to as u64) <==> is_black_piece(mb[to as int]));
                assert(bit(oc[1], s) <==> is_black_piece(mb[s as int]));
            }
            assert forall|s: u64| s < 64 implies (#[trigger] bit(self.occ@[2], s) <==> nmb[s as int] != 0) by {
                assert(bit(oc[2], from as u64) <==> mb[from as int] != 0);
                assert(bit(oc[2], to as u64) <==> mb[to as int] != 0);
                assert(bit(oc[2], s) <==> mb[s as int] != 0);
            }
        }
    }
}

impl Board {
    /// The Zobrist hash of the position, computed from scratch.
    pub fn compute_zobrist(&self) -> (hash: u64)
        requires
            mailbox_ok(self.mailbox@),
            self.castling < 16,
            self.ep_square <= 64,
        ensures
            hash == zobrist_of(self@),
    {
        let mut hash = 0u64;
        let mut sq: usize = 0;
        while sq < 64
            invariant
                mailbox_ok(self.mailbox@),
                sq <= 64,
                hash == pieces_hash(self.mailbox@, sq as nat),
            decreases 64 - sq,
        {
            let piece = self.mailbox[sq];
            proof {
                assert(self.mailbox@[sq as int] <= 12);
            }
            if piece != EMPTY {
                hash = hash ^ zobrist_piece(piece, sq as u8);
            } else {
                proof {
                    lemma_xor_assoc(hash, 0, 0);
                }
            }
            sq = sq + 1;
        }
        let side_key = if self.side_to_move == BLACK as u8 {
            ZOBRIST_SIDE
        } else {
            0u64
        };
        hash = hash ^ side_key;
        hash = hash ^ zobrist_castling(self.castling);
        let ep_part = if self.ep_square != 64 {
            zobrist_ep(self.ep_square % 8)
        } else {
            0u64
        };
        hash = hash ^ ep_part;
        hash
    }

    /// Whether `side` has a knight, bishop, rook or queen.
    pub fn has_non_pawn_material(&self, side: usize) -> (r: bool)
        requires
            self.wf(),
            side == WHITE || side == BLACK,
        ensures
            r == if side == WHITE {
                self.pieces@[1] != 0 || self.pieces@[2] != 0 || self.pieces@[3] != 0 || self.pieces@[4] != 0
            } else {
                self.pieces@[7] != 0 || self.pieces@[8] != 0 || self.pieces@[9] != 0 || self.pieces@[10] != 0
            },
            r <==> exists|s: int|
                0 <= s < 64 && #[trigger] non_pawn_piece_of(self.mailbox@[s], side as int),
    {
        let r = if side == WHITE {
            self.pieces[WN as usize - 1] != 0 || self.pieces[WB as usize - 1] != 0
                || self.pieces[WR as usize - 1] != 0 || self.pieces[WQ as usize - 1] != 0
        } else {
            self.pieces[BN as usize - 1] != 0 || self.pieces[BB as usize - 1] != 0
                || self.pieces[BR as usize - 1] != 0 || self.pieces[BQ as usize - 1] != 0
        };
        proof {
            let off: int = if side == WHITE { 0 } else { 6 };
            assert forall|k: int| 1 <= k <= 4 implies (#[trigger] self.pieces@[off + k] != 0 <==> exists|s: int|
                0 <= s < 64 && self.mailbox@[s] == (off + k + 1) as u8) by {
                let bb = self.pieces@[off + k];
                assert(piece_bb_ok(bb, self.mailbox@, (off + k + 1) as u8));
                if bb != 0 {
                    crate::bits::lemma_lsb(bb);
                    let t = vstd::std_specs::bits::u64_trailing_zeros(bb) as u64;
                    assert(self.mailbox@[t as int] == (off + k + 1) as u8);
                }
                if exists|s: int| 0 <= s < 64 && self.mailbox@[s] == (off + k + 1) as u8 {
                    let s = choose|s: int| 0 <= s < 64 && self.mailbox@[s] == (off + k + 1) as u8;
                    assert(bit(bb, s as u64));
                    lemma_bit_zero(s as u64);
                }
            }
            assert(r == (self.pieces@[off + 1] != 0 || self.pieces@[off + 2] != 0
                || self.pieces@[off + 3] != 0 || self.pieces@[off + 4] != 0));
            if r {
                let k: int = if self.pieces@[off + 1] != 0 { 1 } else if self.pieces@[off + 2] != 0 { 2 }
                    else if self.pieces@[off + 3] != 0 { 3 } else { 4 };
                assert(self.pieces@[off + k] != 0);
                let s = choose|s: int| 0 <= s < 64 && self.mailbox@[s] == (off + k + 1) as u8;
                assert(non_pawn_piece_of(self.mailbox@[s], side as int));
            } else {
                assert forall|s: int| 0 <= s < 64 implies !#[trigger] non_pawn_piece_of(self.mailbox@[s], side as int) by {
                    if non_pawn_piece_of(self.mailbox@[s], side as int) {
                        let k = self.mailbox@[s] - off - 1;
                        assert(1 <= k <= 4);
                        assert(self.pieces@[off + k] != 0);
                    }
                }
            }
        }
        r
    }
}

/// A knight, bishop, rook or queen of `side`.
pub open spec fn non_pawn_piece_of(p: u8, side: int) -> bool {
    if side == 0 {
        2 <= p <= 5
    } else {
        8 <= p <= 11
    }
}

/// The state a null move overwrites.
pub struct NullUndo {
    pub ep_square: u8,
    pub zobrist: u64,
}

/// The position after passing the turn: the en-passant square lapses and the hash follows.
pub open spec fn null_move_spec(p: Position) -> Position {
    Position {
        side: (p.side ^ 1u8) as u8,
        ep: 64,
        halfmove: (p.halfmove + 1) as u16,
        zobrist: p.zobrist ^ (if p.ep != 64 {
            ep_key((p.ep % 8) as int)
        } else {
            0u64
        }) ^ ZOBRIST_SIDE,
        ..p
    }
}

/// The position after taking back a null move.
pub open spec fn unmake_null_spec(p: Position, undo: NullUndo) -> Position {
    Position {
        side: (p.side ^ 1u8) as u8,
        ep: undo.ep_square,
        zobrist: undo.zobrist,
        halfmove: (p.halfmove - 1) as u16,
        ..p
    }
}

/// Whether a repetition of the current hash occurs among the earlier hashes that the
/// halfmove clock allows (the last history entry, the current position, excluded).
pub open spec fn repetition_spec(p: Position) -> bool {
    let len = p.history.len() as int;
    let end = len - 1;
    let lookback = if end >= p.halfmove { end - p.halfmove } else { 0 };
    len >= 2 && exists|i: int| lookback <= i < end && #[trigger] p.history[i] == p.zobrist
}

impl Board {
    pub fn make_null_move(&mut self) -> (undo: NullUndo)
        requires
            old(self).wf(),
            old(self).halfmove_clock < 65535,
        ensures
            final(self).wf(),
            final(self)@ == null_move_spec(old(self)@),
            undo.ep_square == old(self).ep_square,
            undo.zobrist == old(self).zobrist,
            final(self).pieces == old(self).pieces,
            final(self).occ == old(self).occ,
            extras_kept(*old(self), *final(self)),
    {
        let undo = NullUndo { ep_square: self.ep_square, zobrist: self.zobrist };
        let ep_part = if self.ep_square != 64 {
            zobrist_ep(self.ep_square % 8)
        } else {
            0u64
        };
        self.zobrist = self.zobrist ^ ep_part;
        self.zobrist = self.zobrist ^ ZOBRIST_SIDE;
        self.side_to_move = self.side_to_move ^ 1;
        proof {
            lemma_side_flip(old(self).side_to_move);
        }
        self.ep_square = 64;
        self.halfmove_clock = self.halfmove_clock + 1;
        undo
    }

    pub fn unmake_null_move(&mut self, undo: NullUndo)
        requires
            old(self).wf(),
            old(self).halfmove_clock >= 1,
            undo.ep_square <= 64,
        ensures
            final(self).wf(),
            final(self)@ == unmake_null_spec(old(self)@, undo),
            final(self).pieces == old(self).pieces,
            final(self).occ == old(self).occ,
            extras_kept(*old(self), *final(self)),
    {
        self.side_to_move = self.side_to_move ^ 1;
        proof {
            lemma_side_flip(old(self).side_to_move);
        }
        self.ep_square = undo.ep_square;
        self.zobrist = undo.zobrist;
        self.halfmove_clock = self.halfmove_clock - 1;
    }

    /// Whether the current position already occurred since the last irreversible move.
    pub fn is_repitition(&self) -> (r: bool)
        ensures
            r == repetition_spec(self@),
            r <==> self@.history.len() >= 2 && exists|i: int|
                0 <= i < self@.history.len() - 1 && self@.history.len() - 1 - i <= self@.halfmove
                    && #[trigger] self@.history[i] == self@.zobrist,
    {
        proof {
            lemma_repetition_window(self@);
        }
        let current = self.zobrist;
        let len = self.history.len();
        if len < 2 {
            return false;
        }
        let end = len - 1;
        let lookback = end.saturating_sub(self.halfmove_clock as usize);
        let mut i = lookback;
        while i < end
            invariant
                lookback <= i <= end,
                end == self.history@.len() - 1,
                current == self.zobrist,
                lookback == (if end >= self.halfmove_clock { end - self.halfmove_clock } else { 0 }),
                forall|j: int| lookback <= j < i ==> #[trigger] self.history@[j] != current,
            decreases end - i,
        {
            if self.history[i] == current {
                assert(self@.history[i as int] == self@.zobrist);
                return true;
            }
            i = i + 1;
        }
        false
    }

    /// Records a move that caused a cutoff at `depth`, as the first killer of that depth;
    /// the previous first killer becomes the second, unless the move already is the first.
    pub fn store_killer(&mut self, mv: Move, depth: u8)
        requires
            depth <= MAX_DEPTH,
        ensures
            final(self)@ == old(self)@,
            final(self).pieces == old(self).pieces,
            final(self).occ == old(self).occ,
            final(self).material_mg == old(self).material_mg,
            final(self).material_eg == old(self).material_eg,
            final(self).pst_mg == old(self).pst_mg,
            final(self).pst_eg == old(self).pst_eg,
            forall|d: int| 0 <= d < 100 && d != depth ==> #[trigger] final(self).killers[d] == old(self).killers[d],
            old(self).killers[depth as int][0] == Some(mv) ==> final(self).killers[depth as int] == old(self).killers[depth as int],
            old(self).killers[depth as int][0] != Some(mv) ==> final(self).killers[depth as int][0] == Some(mv)
                && final(self).killers[depth as int][1] == old(self).killers[depth as int][0],
    {
        let d = depth as usize;
        let first = self.killers[d][0];
        let same = match first {
            Some(m) => m == mv,
            None => false,
        };
        if !same {
            self.killers[d] = [Some(mv), first];
        }
    }
}

/// A repetition is an earlier entry of the history, other than the last (the current
/// position), equal to the current hash and at most `halfmove` plies back from the last
/// entry: every such entry counts, the one right at the fifty-move boundary included.
pub proof fn lemma_repetition_window(p: Position)
    ensures
        repetition_spec(p) <==> p.history.len() >= 2 && exists|i: int|
            0 <= i < p.history.len() - 1 && p.history.len() - 1 - i <= p.halfmove && #[trigger] p.history[i] == p.zobrist,
{
    let len = p.history.len() as int;
    let end = len - 1;
    let lookback = if end >= p.halfmove { end - p.halfmove } else { 0 };
    if repetition_spec(p) {
        let i = choose|i: int| lookback <= i < end && #[trigger] p.history[i] == p.zobrist;
        assert(0 <= i < p.history.len() - 1 && p.history.len() - 1 - i <= p.halfmove && p.history[i] == p.zobrist);
    }
    if p.history.len() >= 2 && exists|i: int|
        0 <= i < p.history.len() - 1 && p.history.len() - 1 - i <= p.halfmove && #[trigger] p.history[i] == p.zobrist {
        let i = choose|i: int|
            0 <= i < p.history.len() - 1 && p.history.len() - 1 - i <= p.halfmove && #[trigger] p.history[i] == p.zobrist;
        assert(lookback <= i < end && p.history[i] == p.zobrist);
    }
}

/// Passing the turn and taking it back restores the position.
pub proof fn lemma_null_move_roundtrip(p: Position)
    requires
        p.halfmove < 65535,
    ensures
        unmake_null_spec(null_move_spec(p), NullUndo { ep_square: p.ep, zobrist: p.zobrist }) == p,
        p.side <= 1 ==> null_move_spec(p).side <= 1,
{
    lemma_side_flip(p.side);
}

/// Passing the turn keeps the incrementally updated hash equal to the hash computed from scratch.
pub proof fn lemma_null_move_keeps_hash(p: Position)
    requires
        p.side <= 1,
        p.zobrist == zobrist_of(p),
    ensures
        null_move_spec(p).zobrist == zobrist_of(null_move_spec(p)),
{
    let h = pieces_hash(p.mailbox, 64);
    let c = castling_key(p.castling as int);
    let e: u64 = if p.ep != 64 { ep_key((p.ep % 8) as int) } else { 0u64 };
    let s: u64 = ZOBRIST_SIDE;
    lemma_side_flip(p.side);
    if p.side == 1 {
        assert((h ^ s ^ c ^ e) ^ e ^ s == h ^ 0u64 ^ c ^ 0u64) by (bit_vector);
    } else {
        assert((h ^ 0u64 ^ c ^ e) ^ e ^ s == h ^ s ^ c ^ 0u64) by (bit_vector);
    }
}

} // verus!
