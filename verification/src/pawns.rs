//! Pawn move generation: pushes, double pushes, captures, promotions and en passant.
use vstd::prelude::*;
use crate::bits::{bit, lemma_bit_and, lemma_bit_not, lsb, pop_lsb};
use crate::board::{piece_bb_ok, Board, Position, BB, BLACK, BN, BOTH, BP, BQ, BR, WB, WHITE, WN, WP, WQ, WR};
use crate::generation::{NOT_A, NOT_H, FILE_A, FILE_H, PROMO_RANK_BLACK, PROMO_RANK_WHITE, RANK_2, RANK_7};
use crate::movegen::{distinct_after, enemy_at, extends, has_move, lemma_extends_trans, lemma_extends_index, lemma_has_move_extends, lemma_has_move_lower, lemma_sides};
use crate::moves::{lemma_pack_fields, m_flags, m_from, m_piece, m_promo, m_to, pack_move, Move, MoveList, FLAG_CAPTURE, FLAG_DOUBLE, FLAG_EP, FLAG_PROMOTION};

verus! {

/// The `k`-th promotion piece of `side`, in generation order: queen, rook, bishop, knight.
pub open spec fn promo_piece(side: int, k: int) -> u8 {
    if side == 0 {
        if k == 0 { WQ } else if k == 1 { WR } else if k == 2 { WB } else { WN }
    } else {
        if k == 0 { BQ } else if k == 1 { BR } else if k == 2 { BB } else { BN }
    }
}

/// The rank where a pawn of `side` promotes.
pub open spec fn on_promo_rank(side: int, t: int) -> bool {
    if side == 0 { t >= 56 } else { t < 8 }
}

/// The pawn of `side`.
pub open spec fn pawn_of(side: int) -> u8 {
    if side == 0 { WP } else { BP }
}

/// One rank forward for `side`, as a square offset.
pub open spec fn fwd(side: int) -> int {
    if side == 0 { 8 } else { -8 }
}

/// The move of a pawn of `side` from `from` to `to` with `flags`: on the promotion rank, a
/// promotion to one of the four pieces; a capture takes the piece on `to`.
pub open spec fn pawn_move_to(p: Position, from: int, to: int, flags: u32, m: u32) -> bool {
    if on_promo_rank(p.side as int, to) {
        exists|k: int| 0 <= k < 4 && m == #[trigger] pack_move(from as u8, to as u8, pawn_of(p.side as int), pawn_cap(p, to, flags), promo_piece(p.side as int, k), flags | FLAG_PROMOTION)
    } else {
        m == pack_move(from as u8, to as u8, pawn_of(p.side as int), pawn_cap(p, to, flags), 0, flags)
    }
}

/// The piece a pawn move to `to` records as captured: the occupant for a capture, else none.
pub open spec fn pawn_cap(p: Position, to: int, flags: u32) -> u8 {
    if flags & FLAG_CAPTURE != 0 { p.mailbox[to] } else { 0 }
}

/// A single push: a pawn steps forward onto an empty square.
pub open spec fn pawn_push(p: Position, m: u32) -> bool {
    let side = p.side as int;
    exists|to: int| #![trigger p.mailbox[to]] 0 <= to < 64 && 0 <= to - fwd(side) < 64 && p.mailbox[to - fwd(side)] == pawn_of(side)
        && p.mailbox[to] == 0 && pawn_move_to(p, to - fwd(side), to, 0, m)
}

/// The rank a pawn of `side` starts on.
pub open spec fn on_start_rank(side: int, sq: int) -> bool {
    if side == 0 { 8 <= sq < 16 } else { 48 <= sq < 56 }
}

/// A double push: a pawn on its start rank moves two squares over two empty squares.
pub open spec fn pawn_double(p: Position, m: u32) -> bool {
    let side = p.side as int;
    let f = fwd(side);
    exists|to: int| #![trigger p.mailbox[to]] 0 <= to < 64 && 0 <= to - 2 * f < 64 && on_start_rank(side, to - 2 * f)
        && p.mailbox[to - 2 * f] == pawn_of(side) && p.mailbox[to - f] == 0 && p.mailbox[to] == 0
        && m == pack_move((to - 2 * f) as u8, to as u8, pawn_of(side), 0, 0, FLAG_DOUBLE)
}

/// The square a pawn of `side` captures from when it takes on `to` towards file side `dx`
/// (-1 toward the a-file, 1 toward the h-file), if the pawn does not wrap around the board.
pub open spec fn capture_from(side: int, to: int, dx: int) -> int {
    to - fwd(side) - dx
}

/// `from` is a square from which a diagonal step toward `dx` stays on the board's files.
pub open spec fn diagonal_ok(from: int, dx: int) -> bool {
    if dx == -1 { from % 8 != 0 } else { from % 8 != 7 }
}

/// A capture: a pawn takes an enemy piece diagonally forward.
pub open spec fn pawn_capture(p: Position, m: u32) -> bool {
    let side = p.side as int;
    exists|to: int, dx: int| #![trigger capture_from(side, to, dx), p.mailbox[to]] 0 <= to < 64 && (dx == -1 || dx == 1)
        && 0 <= capture_from(side, to, dx) < 64 && diagonal_ok(capture_from(side, to, dx), dx)
        && p.mailbox[capture_from(side, to, dx)] == pawn_of(side) && enemy_at(p, to)
        && pawn_move_to(p, capture_from(side, to, dx), to, FLAG_CAPTURE, m)
}

/// An en-passant capture onto the en-passant square.
pub open spec fn pawn_ep(p: Position, m: u32) -> bool {
    let side = p.side as int;
    let ep = p.ep as int;
    ep_target_ok(p) && exists|dx: int| #![trigger capture_from(side, ep, dx)] (dx == -1 || dx == 1)
        && 0 <= capture_from(side, ep, dx) < 64 && diagonal_ok(capture_from(side, ep, dx), dx)
        && p.mailbox[capture_from(side, ep, dx)] == pawn_of(side)
        && m == pack_move(capture_from(side, ep, dx) as u8, p.ep, pawn_of(side), pawn_of(1 - side), 0, FLAG_CAPTURE | FLAG_EP)
}

/// A pseudo-legal pawn move of the side to move.
pub open spec fn pawn_pseudo(p: Position, m: u32) -> bool {
    pawn_push(p, m) || pawn_double(p, m) || pawn_capture(p, m) || pawn_ep(p, m)
}

/// A pawn capture, ordinary or en passant, of the side to move.
pub open spec fn pawn_pseudo_capture(p: Position, m: u32) -> bool {
    pawn_capture(p, m) || pawn_ep(p, m)
}

/// The pawn move to `t` from the square `delta` away.
pub open spec fn pawn_target(p: Position, t: int, delta: int, flags: u32, m: u32) -> bool {
    pawn_move_to(p, t + delta, t, flags, m)
}

/// `m` is a pawn move to a square of `bb` that is no longer in `rest`.
pub open spec fn popped_pawn(p: Position, bb: u64, rest: u64, delta: int, flags: u32, m: u32) -> bool {
    exists|t: u64| #![trigger pawn_target(p, t as int, delta, flags, m)] t < 64 && bit(bb, t) && !bit(rest, t) && pawn_target(p, t as int, delta, flags, m)
}

/// Flags a pawn move may carry before promotion is decided.
pub open spec fn pawn_flags_ok(flags: u32) -> bool {
    flags == 0 || flags == FLAG_CAPTURE || flags == FLAG_DOUBLE
}

/// Promotion flags fit the flag bits of a move.
proof fn lemma_double_promo_flags()
    by (bit_vector)
    ensures
        (0x0200_0000u32 | 0x1000_0000u32) & 0xE0FF_FFFFu32 == 0,
        0x0200_0000u32 | 0x1000_0000u32 == 0x1200_0000u32,
{
}

/// The fields of the pawn move to `t` from the square `d` away.
pub proof fn lemma_pawn_target_fields(p: Position, t: int, d: int, flags: u32, m: u32)
    requires
        crate::board::mailbox_ok(p.mailbox),
        p.side <= 1,
        0 <= t < 64,
        0 <= t + d < 64,
        pawn_flags_ok(flags),
        pawn_target(p, t, d, flags, m),
    ensures
        m_to(m) == t,
        m_from(m) == t + d,
        m_piece(m) == pawn_of(p.side as int),
        on_promo_rank(p.side as int, t) ==> m_flags(m) == flags | FLAG_PROMOTION,
        !on_promo_rank(p.side as int, t) ==> m_flags(m) == flags && m_promo(m) == 0,
{
    crate::position::lemma_flag_values();
    lemma_double_promo_flags();
    let side = p.side as int;
    let cap = pawn_cap(p, t, flags);
    assert(cap <= 12) by {
        if flags & FLAG_CAPTURE != 0 {
            assert(p.mailbox[t] <= 12);
        }
    }
    if on_promo_rank(side, t) {
        let k = choose|k: int| 0 <= k < 4 && m == #[trigger] pack_move((t + d) as u8, t as u8, pawn_of(side), cap, promo_piece(side, k), flags | FLAG_PROMOTION);
        lemma_pack_fields((t + d) as u8, t as u8, pawn_of(side), cap, promo_piece(side, k), flags | FLAG_PROMOTION);
    } else {
        lemma_pack_fields((t + d) as u8, t as u8, pawn_of(side), cap, 0, flags);
    }
}

impl Board {
    /// A move already appended goes to a square that is no longer in `rest`.
    proof fn lemma_popped_to(&self, bb: u64, rest: u64, d: int, flags: u32, m: u32)
        requires
            self.wf(),
            pawn_flags_ok(flags),
            forall|t: u64| t < 64 && #[trigger] bit(bb, t) ==> 0 <= t + d < 64,
            popped_pawn(self@, bb, rest, d, flags, m),
        ensures
            m_to(m) < 64,
            !bit(rest, m_to(m) as u64),
    {
        let p = self@;
        let t = choose|t: u64| #![trigger pawn_target(p, t as int, d, flags, m)] t < 64 && bit(bb, t) && !bit(rest, t) && pawn_target(p, t as int, d, flags, m);
        lemma_pawn_target_fields(p, t as int, d, flags, m);
    }

    /// Appends, for each square `t` of `bb` from the lowest, the pawn move to `t` from
    /// `t + delta`: four promotions (queen, rook, bishop, knight) on the last rank, one move
    /// otherwise; with `FLAG_CAPTURE` each move takes the piece on `t`.
    fn push_pawn_targets(&self, bb: u64, delta: i8, flags: u32, list: &mut MoveList)
        requires
            self.wf(),
            pawn_flags_ok(flags),
            forall|t: u64| t < 64 && #[trigger] bit(bb, t) ==> 0 <= t + delta < 64,
        ensures
            extends(old(list)@, final(list)@),
            forall|i: int| old(list)@.len() <= i < final(list)@.len() ==> popped_pawn(self@, bb, 0, delta as int, flags, #[trigger] final(list)@[i]@),
            forall|t: u64, m: u32| t < 64 && bit(bb, t) && #[trigger] pawn_target(self@, t as int, delta as int, flags, m)
                ==> has_move(final(list)@, old(list)@.len() as int, m),
            distinct_after(final(list)@, old(list)@.len() as int),
    {
        let ghost p = self@;
        let ghost side = p.side as int;
        let ghost d = delta as int;
        let ghost old_list = list@;
        let ghost lo = old_list.len() as int;
        let white = self.side_to_move == WHITE as u8;
        let pawn = if white { WP } else { BP };
        let capture = flags & FLAG_CAPTURE != 0;
        let mut rest = bb;
        while rest != 0
            invariant
                self.wf(),
                p == self@,
                side == p.side as int,
                d == delta as int,
                pawn_flags_ok(flags),
                capture == (flags & FLAG_CAPTURE != 0),
                pawn == pawn_of(side),
                white == (side == 0),
                forall|t: u64| t < 64 && #[trigger] bit(bb, t) ==> 0 <= t + delta < 64,
                lo == old_list.len(),
                lo <= list@.len(),
                list@.subrange(0, lo) == old_list,
                forall|t: u64| t < 64 && #[trigger] bit(rest, t) ==> bit(bb, t),
                forall|i: int| lo <= i < list@.len() ==> popped_pawn(p, bb, rest, d, flags, #[trigger] list@[i]@),
                forall|t: u64, m: u32| t < 64 && bit(bb, t) && !bit(rest, t) && #[trigger] pawn_target(p, t as int, d, flags, m)
                    ==> has_move(list@, lo, m),
                distinct_after(list@, lo),
            decreases rest,
        {
            let to = lsb(rest);
            let ghost prev = rest;
            rest = pop_lsb(rest);
            let ghost tt = to as u64;
            proof {
                assert(bit(bb, tt));
                lemma_capture_flag(flags);
            }
            let from = (to as i8 + delta) as u8;
            proof {
                assert(from as int == tt + d);
                assert(on_promo_rank(side, tt as int) == (if white { to >= 56 } else { to < 8 }));
            }
            let cap = if capture { self.mailbox[to as usize] } else { 0 };
            let ghost before = list@;
            let promo_rank = if white { to >= 56 } else { to < 8 };
            if promo_rank {
                let pf = flags | FLAG_PROMOTION;
                let (q, r, b, n) = if white { (WQ, WR, WB, WN) } else { (BQ, BR, BB, BN) };
                list.push(Move::new(from, to, pawn, cap, q, pf));
                list.push(Move::new(from, to, pawn, cap, r, pf));
                list.push(Move::new(from, to, pawn, cap, b, pf));
                list.push(Move::new(from, to, pawn, cap, n, pf));
                proof {
                    assert(list@.subrange(0, lo) =~= old_list);
                    assert forall|k: int| 0 <= k < 4 implies list@[before.len() + k]@ == #[trigger] pack_move(from, to, pawn, cap, promo_piece(side, k), pf) by {}
                    assert forall|i: int| lo <= i < list@.len() implies popped_pawn(p, bb, rest, d, flags, #[trigger] list@[i]@) by {
                        if i < before.len() {
                            assert(list@[i] == before[i]);
                            assert(popped_pawn(p, bb, prev, d, flags, before[i]@));
                            let t = choose|t: u64| #![trigger pawn_target(p, t as int, d, flags, before[i]@)] t < 64 && bit(bb, t) && !bit(prev, t) && pawn_target(p, t as int, d, flags, before[i]@);
                            assert(!bit(rest, t));
                        } else {
                            let k = i - before.len();
                            assert(list@[i]@ == pack_move(from, to, pawn, cap, promo_piece(side, k), pf));
                            let capv: u8 = if flags & FLAG_CAPTURE != 0 { p.mailbox[tt as int] } else { 0 };
                            assert(cap == capv);
                            assert(list@[i]@ == pack_move(((tt as int) + d) as u8, (tt as int) as u8, pawn_of(side), capv, promo_piece(side, k), flags | FLAG_PROMOTION));
                            assert(0 <= k < 4);
                            assert(on_promo_rank(side, tt as int));
                            assert(exists|k: int| 0 <= k < 4 && list@[i]@ == #[trigger] pack_move(((tt as int) + d) as u8, (tt as int) as u8, pawn_of(side), capv, promo_piece(side, k), flags | FLAG_PROMOTION));
                            let fromi = (tt as int) + d;
                            let toi = tt as int;
                            let capw: u8 = pawn_cap(p, toi, flags);
                            assert(capw == capv);
                            assert(on_promo_rank(p.side as int, toi));
                            assert(list@[i]@ == pack_move(fromi as u8, toi as u8, pawn_of(p.side as int), capw, promo_piece(p.side as int, k), flags | FLAG_PROMOTION));
                            assert(pawn_move_to(p, fromi, toi, flags, list@[i]@));
                            assert(pawn_target(p, tt as int, d, flags, list@[i]@));
                            assert(!bit(rest, tt));
                        }
                    }
                    assert forall|t: u64, m: u32| t < 64 && bit(bb, t) && !bit(rest, t) && #[trigger] pawn_target(p, t as int, d, flags, m)
                        implies has_move(list@, lo, m) by {
                        if t == tt {
                            let k = choose|k: int| 0 <= k < 4 && m == #[trigger] pack_move(((t as int) + d) as u8, (t as int) as u8, pawn_of(p.side as int), pawn_cap(p, t as int, flags), promo_piece(p.side as int, k), flags | FLAG_PROMOTION);
                            assert(list@[before.len() + k]@ == m);
                        } else {
                            assert(!bit(prev, t));
                            assert(has_move(before, lo, m));
                            let i = choose|i: int| lo <= i < before.len() && #[trigger] before[i]@ == m;
                            assert(list@[i] == before[i]);
                        }
                    }
                    assert forall|i: int, j: int| lo <= i < j < list@.len() implies #[trigger] list@[i]@ != #[trigger] list@[j]@ by {
                        if j < before.len() {
                            assert(list@[i] == before[i] && list@[j] == before[j]);
                        } else if i < before.len() {
                            assert(list@[i] == before[i]);
                            self.lemma_popped_to(bb, prev, d, flags, before[i]@);
                            crate::position::lemma_flag_values();
                            lemma_double_promo_flags();
                            assert(list@[j]@ == pack_move(from, to, pawn, cap, promo_piece(side, j - before.len()), pf));
                            lemma_pack_fields(from, to, pawn, cap, promo_piece(side, j - before.len()), pf);
                        } else {
                            crate::position::lemma_flag_values();
                            lemma_double_promo_flags();
                            let ki = i - before.len();
                            let kj = j - before.len();
                            lemma_pack_fields(from, to, pawn, cap, promo_piece(side, ki), pf);
                            lemma_pack_fields(from, to, pawn, cap, promo_piece(side, kj), pf);
                        }
                    }
                }
            } else {
                list.push(Move::new(from, to, pawn, cap, 0, flags));
                proof {
                    assert(list@.subrange(0, lo) =~= old_list);
                    assert forall|i: int| lo <= i < list@.len() implies popped_pawn(p, bb, rest, d, flags, #[trigger] list@[i]@) by {
                        if i < before.len() {
                            assert(list@[i] == before[i]);
                            assert(popped_pawn(p, bb, prev, d, flags, before[i]@));
                            let t = choose|t: u64| #![trigger pawn_target(p, t as int, d, flags, before[i]@)] t < 64 && bit(bb, t) && !bit(prev, t) && pawn_target(p, t as int, d, flags, before[i]@);
                            assert(!bit(rest, t));
                        } else {
                            assert(pawn_target(p, tt as int, d, flags, list@[i]@));
                            assert(!bit(rest, tt));
                        }
                    }
                    assert forall|t: u64, m: u32| t < 64 && bit(bb, t) && !bit(rest, t) && #[trigger] pawn_target(p, t as int, d, flags, m)
                        implies has_move(list@, lo, m) by {
                        if t == tt {
                            assert(list@[before.len() as int]@ == m);
                        } else {
                            assert(!bit(prev, t));
                            assert(has_move(before, lo, m));
                            let i = choose|i: int| lo <= i < before.len() && #[trigger] before[i]@ == m;
                            assert(list@[i] == before[i]);
                        }
                    }
                    assert forall|i: int, j: int| lo <= i < j < list@.len() implies #[trigger] list@[i]@ != #[trigger] list@[j]@ by {
                        if j < before.len() {
                            assert(list@[i] == before[i] && list@[j] == before[j]);
                        } else {
                            assert(list@[i] == before[i]);
                            self.lemma_popped_to(bb, prev, d, flags, before[i]@);
                            lemma_pawn_target_fields(p, tt as int, d, flags, list@[j]@);
                        }
                    }
                }
            }
        }
        proof {
            assert forall|t: u64| t < 64 implies !#[trigger] bit(rest, t) by {
                crate::bits::lemma_bit_zero(t);
            }
            assert forall|i: int| lo <= i < list@.len() implies popped_pawn(p, bb, 0, d, flags, #[trigger] list@[i]@) by {
                assert(popped_pawn(p, bb, rest, d, flags, list@[i]@));
            }
        }
    }
}

/// A pawn of the side to move can step onto `t`: the square behind it holds the pawn and `t` is empty.
pub open spec fn single_ok(p: Position, t: int) -> bool {
    let side = p.side as int;
    0 <= t < 64 && 0 <= t - fwd(side) < 64 && p.mailbox[t - fwd(side)] == pawn_of(side) && p.mailbox[t] == 0
}

/// A pawn of the side to move can double-push onto `t`.
pub open spec fn double_ok(p: Position, t: int) -> bool {
    let side = p.side as int;
    let f = fwd(side);
    0 <= t < 64 && 0 <= t - 2 * f < 64 && on_start_rank(side, t - 2 * f) && p.mailbox[t - 2 * f] == pawn_of(side)
        && p.mailbox[t - f] == 0 && p.mailbox[t] == 0
}

/// A pawn of the side to move can capture on `t` toward `dx`.
pub open spec fn capture_ok(p: Position, t: int, dx: int) -> bool {
    let side = p.side as int;
    0 <= t < 64 && 0 <= capture_from(side, t, dx) < 64 && diagonal_ok(capture_from(side, t, dx), dx)
        && p.mailbox[capture_from(side, t, dx)] == pawn_of(side) && enemy_at(p, t)
}

/// The en-passant square is set, empty, and has an enemy pawn right behind it (ahead of
/// the capturing side).
pub open spec fn ep_target_ok(p: Position) -> bool {
    let side = p.side as int;
    let ep = p.ep as int;
    let victim = ep - fwd(side);
    &&& p.ep < 64
    &&& p.mailbox[ep] == 0
    &&& 0 <= victim < 64
    &&& p.mailbox[victim] == pawn_of(1 - side)
}

/// A pawn of the side to move can take en passant toward `dx`.
pub open spec fn ep_ok(p: Position, dx: int) -> bool {
    let side = p.side as int;
    let ep = p.ep as int;
    ep_target_ok(p) && 0 <= capture_from(side, ep, dx) < 64 && diagonal_ok(capture_from(side, ep, dx), dx)
        && p.mailbox[capture_from(side, ep, dx)] == pawn_of(side)
}

/// The en-passant capture toward `dx`.
pub open spec fn ep_move(p: Position, dx: int) -> u32 {
    let side = p.side as int;
    pack_move(capture_from(side, p.ep as int, dx) as u8, p.ep, pawn_of(side), pawn_of(1 - side), 0, FLAG_CAPTURE | FLAG_EP)
}

impl Board {
    /// Whether an en-passant capture can land: the square is set and empty and the pawn to
    /// take stands behind it.
    fn ep_target_ready(&self) -> (r: bool)
        requires
            self.wf(),
        ensures
            r == ep_target_ok(self@),
    {
        let ep = self.ep_square;
        if ep >= 64 {
            return false;
        }
        if self.mailbox[ep as usize] != 0 {
            return false;
        }
        if self.side_to_move == WHITE as u8 {
            ep >= 8 && self.mailbox[(ep - 8) as usize] == BP
        } else {
            ep < 56 && self.mailbox[(ep + 8) as usize] == WP
        }
    }

    /// What each move of a run appended by `push_pawn_targets` looks like: it goes to a square
    /// of `bb` from the square `d` away, with the promotion flag exactly on the last rank.
    proof fn lemma_pawn_run(&self, a: Seq<Move>, b: Seq<Move>, c: Seq<Move>, bb: u64, d: int, flags: u32)
        requires
            self.wf(),
            pawn_flags_ok(flags),
            forall|t: u64| t < 64 && #[trigger] bit(bb, t) ==> 0 <= t + d < 64,
            extends(a, b),
            extends(b, c),
            forall|i: int| a.len() <= i < b.len() ==> popped_pawn(self@, bb, 0, d, flags, #[trigger] b[i]@),
        ensures
            forall|i: int| a.len() <= i < b.len() ==> {
                &&& m_to(#[trigger] c[i]@) < 64
                &&& bit(bb, m_to(c[i]@) as u64)
                &&& m_to(c[i]@) - m_from(c[i]@) == -d
                &&& on_promo_rank(self.side_to_move as int, m_to(c[i]@) as int) ==> m_flags(c[i]@) == flags | FLAG_PROMOTION
                &&& !on_promo_rank(self.side_to_move as int, m_to(c[i]@) as int) ==> m_flags(c[i]@) == flags
            },
    {
        let p = self@;
        assert forall|i: int| a.len() <= i < b.len() implies {
            &&& m_to(#[trigger] c[i]@) < 64
            &&& bit(bb, m_to(c[i]@) as u64)
            &&& m_to(c[i]@) - m_from(c[i]@) == -d
            &&& on_promo_rank(self.side_to_move as int, m_to(c[i]@) as int) ==> m_flags(c[i]@) == flags | FLAG_PROMOTION
            &&& !on_promo_rank(self.side_to_move as int, m_to(c[i]@) as int) ==> m_flags(c[i]@) == flags
        } by {
            lemma_extends_index(b, c, i);
            let m = b[i]@;
            let t = choose|t: u64| #![trigger pawn_target(p, t as int, d, flags, m)] t < 64 && bit(bb, t) && !bit(0u64, t) && pawn_target(p, t as int, d, flags, m);
            lemma_pawn_target_fields(p, t as int, d, flags, m);
        }
    }

    /// The runs `push_pawn_sets` appends never repeat a move: each run is free of repeats,
    /// and moves of different runs differ in their flags or in how far they go.
    proof fn lemma_pawn_sets_distinct(&self, normal: u64, promo: u64, double: u64, left: u64, right: u64, ep_left: bool,
        ep_right: bool, caps_only: bool, l0: Seq<Move>, l1: Seq<Move>, l2: Seq<Move>, l3: Seq<Move>, l4: Seq<Move>,
        l5: Seq<Move>, l6: Seq<Move>, l7: Seq<Move>)
        requires
            self.wf(),
            forall|t: u64| t < 64 ==> (#[trigger] bit(normal, t) <==> (!caps_only && single_ok(self@, t as int) && !on_promo_rank(self.side_to_move as int, t as int))),
            forall|t: u64| t < 64 ==> (#[trigger] bit(promo, t) <==> (!caps_only && single_ok(self@, t as int) && on_promo_rank(self.side_to_move as int, t as int))),
            forall|t: u64| t < 64 ==> (#[trigger] bit(double, t) <==> (!caps_only && double_ok(self@, t as int))),
            forall|t: u64| t < 64 ==> (#[trigger] bit(left, t) <==> capture_ok(self@, t as int, -1)),
            forall|t: u64| t < 64 ==> (#[trigger] bit(right, t) <==> capture_ok(self@, t as int, 1)),
            extends(l0, l1), extends(l1, l2), extends(l2, l3), extends(l3, l4), extends(l4, l5), extends(l5, l6), extends(l6, l7),
            extends(l1, l7), extends(l2, l7), extends(l3, l7), extends(l4, l7), extends(l5, l7),
            forall|i: int| l0.len() <= i < l1.len() ==> popped_pawn(self@, normal, 0, -fwd(self.side_to_move as int), 0, #[trigger] l1[i]@),
            forall|i: int| l1.len() <= i < l2.len() ==> popped_pawn(self@, promo, 0, -fwd(self.side_to_move as int), 0, #[trigger] l2[i]@),
            forall|i: int| l2.len() <= i < l3.len() ==> popped_pawn(self@, double, 0, -2 * fwd(self.side_to_move as int), FLAG_DOUBLE, #[trigger] l3[i]@),
            forall|i: int| l3.len() <= i < l4.len() ==> popped_pawn(self@, left, 0, -fwd(self.side_to_move as int) + 1, FLAG_CAPTURE, #[trigger] l4[i]@),
            forall|i: int| l4.len() <= i < l5.len() ==> popped_pawn(self@, right, 0, -fwd(self.side_to_move as int) - 1, FLAG_CAPTURE, #[trigger] l5[i]@),
            distinct_after(l1, l0.len() as int),
            distinct_after(l2, l1.len() as int),
            distinct_after(l3, l2.len() as int),
            distinct_after(l4, l3.len() as int),
            distinct_after(l5, l4.len() as int),
            ep_left == ep_ok(self@, -1),
            ep_right == ep_ok(self@, 1),
            ep_left ==> l6.len() == l5.len() + 1 && l6[l5.len() as int]@ == ep_move(self@, -1),
            !ep_left ==> l6 == l5,
            ep_right ==> l7.len() == l6.len() + 1 && l7[l6.len() as int]@ == ep_move(self@, 1),
            !ep_right ==> l7 == l6,
        ensures
            distinct_after(l7, l0.len() as int),
    {
        let p = self@;
        let side = p.side as int;
        let f = fwd(side);
        crate::position::lemma_flag_values();
        lemma_double_promo_flags();
        self.lemma_pawn_run(l0, l1, l7, normal, -f, 0);
        self.lemma_pawn_run(l1, l2, l7, promo, -f, 0);
        self.lemma_pawn_run(l2, l3, l7, double, -2 * f, FLAG_DOUBLE);
        self.lemma_pawn_run(l3, l4, l7, left, -f + 1, FLAG_CAPTURE);
        self.lemma_pawn_run(l4, l5, l7, right, -f - 1, FLAG_CAPTURE);
        let a = l0.len() as int;
        let b1 = l1.len() as int;
        let b2 = l2.len() as int;
        let b3 = l3.len() as int;
        let b4 = l4.len() as int;
        let b5 = l5.len() as int;
        let b6 = l6.len() as int;
        // the flags and reach of each run
        assert forall|i: int| a <= i < b1 implies m_flags(#[trigger] l7[i]@) == 0 by {
            assert(bit(normal, m_to(l7[i]@) as u64));
        }
        assert forall|i: int| b1 <= i < b2 implies m_flags(#[trigger] l7[i]@) == FLAG_PROMOTION by {
            assert(bit(promo, m_to(l7[i]@) as u64));
        }
        assert forall|i: int| b2 <= i < b3 implies m_flags(#[trigger] l7[i]@) == FLAG_DOUBLE by {
            assert(bit(double, m_to(l7[i]@) as u64));
        }
        if ep_left {
            let e = p.ep as int;
            lemma_pack_fields(capture_from(side, e, -1) as u8, p.ep, pawn_of(side), pawn_of(1 - side), 0, FLAG_CAPTURE | FLAG_EP);
            assert(l7[b5] == l6[b5]) by {
                lemma_extends_index(l6, l7, b5);
            }
        }
        if ep_right {
            let e = p.ep as int;
            lemma_pack_fields(capture_from(side, e, 1) as u8, p.ep, pawn_of(side), pawn_of(1 - side), 0, FLAG_CAPTURE | FLAG_EP);
        }
        assert forall|i: int, j: int| a <= i < j < l7.len() implies #[trigger] l7[i]@ != #[trigger] l7[j]@ by {
            if j < b1 {
                lemma_extends_index(l1, l7, i);
                lemma_extends_index(l1, l7, j);
            } else if j < b2 {
                if i >= b1 {
                    lemma_extends_index(l2, l7, i);
                    lemma_extends_index(l2, l7, j);
                }
            } else if j < b3 {
                if i >= b2 {
                    lemma_extends_index(l3, l7, i);
                    lemma_extends_index(l3, l7, j);
                }
            } else if j < b4 {
                if i >= b3 {
                    lemma_extends_index(l4, l7, i);
                    lemma_extends_index(l4, l7, j);
                }
            } else if j < b5 {
                if i >= b4 {
                    lemma_extends_index(l5, l7, i);
                    lemma_extends_index(l5, l7, j);
                }
            }
        }
    }

    /// Appends the pawn moves given by their target sets: pushes, promotions, double
    /// pushes, captures toward the a-file and toward the h-file, then en passant.
    #[verifier::rlimit(60)]
    fn push_pawn_sets(&self, normal: u64, promo: u64, double: u64, left: u64, right: u64, ep_left: bool, ep_right: bool, caps_only: bool, list: &mut MoveList)
        requires
            self.wf(),
            forall|t: u64| t < 64 ==> (#[trigger] bit(normal, t) <==> (!caps_only && single_ok(self@, t as int) && !on_promo_rank(self.side_to_move as int, t as int))),
            forall|t: u64| t < 64 ==> (#[trigger] bit(promo, t) <==> (!caps_only && single_ok(self@, t as int) && on_promo_rank(self.side_to_move as int, t as int))),
            forall|t: u64| t < 64 ==> (#[trigger] bit(double, t) <==> (!caps_only && double_ok(self@, t as int))),
            forall|t: u64| t < 64 ==> (#[trigger] bit(left, t) <==> capture_ok(self@, t as int, -1)),
            forall|t: u64| t < 64 ==> (#[trigger] bit(right, t) <==> capture_ok(self@, t as int, 1)),
            ep_left == ep_ok(self@, -1),
            ep_right == ep_ok(self@, 1),
        ensures
            extends(old(list)@, final(list)@),
            !caps_only ==> forall|i: int| old(list)@.len() <= i < final(list)@.len() ==> pawn_pseudo(self@, #[trigger] final(list)@[i]@),
            !caps_only ==> forall|m: u32| pawn_pseudo(self@, m) ==> #[trigger] has_move(final(list)@, old(list)@.len() as int, m),
            caps_only ==> forall|i: int| old(list)@.len() <= i < final(list)@.len() ==> pawn_pseudo_capture(self@, #[trigger] final(list)@[i]@),
            caps_only ==> forall|m: u32| pawn_pseudo_capture(self@, m) ==> #[trigger] has_move(final(list)@, old(list)@.len() as int, m),
            distinct_after(final(list)@, old(list)@.len() as int),
    {
        let ghost p = self@;
        let ghost side = p.side as int;
        let white = self.side_to_move == WHITE as u8;
        let f: i8 = if white { 8 } else { -8 };
        let ghost l0 = list@;
        let ghost lo = l0.len() as int;
        self.push_pawn_targets(normal, -f, 0, list);
        let ghost l1 = list@;
        self.push_pawn_targets(promo, -f, 0, list);
        let ghost l2 = list@;
        self.push_pawn_targets(double, -2 * f, FLAG_DOUBLE, list);
        let ghost l3 = list@;
        self.push_pawn_targets(left, -f + 1, FLAG_CAPTURE, list);
        let ghost l4 = list@;
        self.push_pawn_targets(right, -f - 1, FLAG_CAPTURE, list);
        let ghost l5 = list@;
        let pawn = if white { WP } else { BP };
        let victim = if white { BP } else { WP };
        let ep = self.ep_square;
        if ep_left {
            list.push(Move::new((ep as i8 - f + 1) as u8, ep, pawn, victim, 0, FLAG_CAPTURE | FLAG_EP));
        }
        let ghost l6 = list@;
        if ep_right {
            list.push(Move::new((ep as i8 - f - 1) as u8, ep, pawn, victim, 0, FLAG_CAPTURE | FLAG_EP));
        }
        let ghost l7 = list@;
        proof {
            assert(fwd(side) == f as int);
            lemma_extends_trans(l0, l1, l2);
            lemma_extends_trans(l0, l2, l3);
            lemma_extends_trans(l0, l3, l4);
            lemma_extends_trans(l0, l4, l5);
            assert(extends(l5, l6)) by { assert(l6.subrange(0, l5.len() as int) =~= l5); }
            assert(extends(l6, l7)) by { assert(l7.subrange(0, l6.len() as int) =~= l6); }
            lemma_extends_trans(l0, l5, l6);
            lemma_extends_trans(l0, l6, l7);
            lemma_extends_trans(l1, l2, l3);
            lemma_extends_trans(l1, l3, l4);
            lemma_extends_trans(l1, l4, l5);
            lemma_extends_trans(l1, l5, l6);
            lemma_extends_trans(l1, l6, l7);
            lemma_extends_trans(l2, l3, l4);
            lemma_extends_trans(l2, l4, l5);
            lemma_extends_trans(l2, l5, l6);
            lemma_extends_trans(l2, l6, l7);
            lemma_extends_trans(l3, l4, l5);
            lemma_extends_trans(l3, l5, l6);
            lemma_extends_trans(l3, l6, l7);
            lemma_extends_trans(l4, l5, l6);
            lemma_extends_trans(l4, l6, l7);
            lemma_extends_trans(l5, l6, l7);
            if ep_left {
                assert(l6[l5.len() as int]@ == ep_move(p, -1));
            }
            if ep_right {
                assert(l7[l6.len() as int]@ == ep_move(p, 1));
            }
            // every appended move is a pawn move of the right kind
            assert forall|i: int| lo <= i < l7.len() implies (if caps_only { pawn_pseudo_capture(p, #[trigger] l7[i]@) } else { pawn_pseudo(p, l7[i]@) }) by {
                let m = l7[i]@;
                if i < l1.len() {
                    lemma_extends_index(l1, l7, i);
                    let t = choose|t: u64| #![trigger pawn_target(p, t as int, -(f as int), 0, m)] t < 64 && bit(normal, t) && !bit(0u64, t) && pawn_target(p, t as int, -(f as int), 0, m);
                    assert(p.mailbox[t as int] == 0);
                } else if i < l2.len() {
                    lemma_extends_index(l2, l7, i);
                    let t = choose|t: u64| #![trigger pawn_target(p, t as int, -(f as int), 0, m)] t < 64 && bit(promo, t) && !bit(0u64, t) && pawn_target(p, t as int, -(f as int), 0, m);
                    assert(p.mailbox[t as int] == 0);
                } else if i < l3.len() {
                    lemma_extends_index(l3, l7, i);
                    let t = choose|t: u64| #![trigger pawn_target(p, t as int, -2 * (f as int), FLAG_DOUBLE, m)] t < 64 && bit(double, t) && !bit(0u64, t) && pawn_target(p, t as int, -2 * (f as int), FLAG_DOUBLE, m);
                    assert(double_ok(p, t as int));
                    assert(!on_promo_rank(side, t as int));
                    assert(pawn_cap(p, t as int, FLAG_DOUBLE) == 0) by {
                        lemma_capture_flag(FLAG_DOUBLE);
                    }
                    assert(p.mailbox[t as int] == 0);
                } else if i < l4.len() {
                    lemma_extends_index(l4, l7, i);
                    let t = choose|t: u64| #![trigger pawn_target(p, t as int, -(f as int) + 1, FLAG_CAPTURE, m)] t < 64 && bit(left, t) && !bit(0u64, t) && pawn_target(p, t as int, -(f as int) + 1, FLAG_CAPTURE, m);
                    assert(capture_ok(p, t as int, -1));
                    assert(capture_from(side, t as int, -1) == t - f + 1);
                    assert(p.mailbox[capture_from(side, t as int, -1)] == pawn_of(side));
                } else if i < l5.len() {
                    lemma_extends_index(l5, l7, i);
                    let t = choose|t: u64| #![trigger pawn_target(p, t as int, -(f as int) - 1, FLAG_CAPTURE, m)] t < 64 && bit(right, t) && !bit(0u64, t) && pawn_target(p, t as int, -(f as int) - 1, FLAG_CAPTURE, m);
                    assert(capture_ok(p, t as int, 1));
                    assert(capture_from(side, t as int, 1) == t - f - 1);
                    assert(p.mailbox[capture_from(side, t as int, 1)] == pawn_of(side));
                } else if i < l6.len() {
                    lemma_extends_index(l6, l7, i);
                    assert(m == ep_move(p, -1));
                    assert(capture_from(side, p.ep as int, -1) == p.ep - f + 1);
                } else {
                    assert(m == ep_move(p, 1));
                    assert(capture_from(side, p.ep as int, 1) == p.ep - f - 1);
                }
            }
            assert forall|m: u32| (if caps_only { pawn_pseudo_capture(p, m) } else { pawn_pseudo(p, m) }) implies #[trigger] has_move(l7, lo, m) by {
                if pawn_push(p, m) && !caps_only {
                    let to = choose|to: int| #![trigger p.mailbox[to]] 0 <= to < 64 && 0 <= to - fwd(side) < 64 && p.mailbox[to - fwd(side)] == pawn_of(side)
                        && p.mailbox[to] == 0 && pawn_move_to(p, to - fwd(side), to, 0, m);
                    let t = to as u64;
                    assert(single_ok(p, to));
                    assert(pawn_target(p, t as int, -(f as int), 0, m));
                    if on_promo_rank(side, to) {
                        assert(bit(promo, t));
                        assert(has_move(l2, l1.len() as int, m));
                        lemma_has_move_extends(l2, l7, l1.len() as int, m);
                        lemma_has_move_lower(l7, lo, l1.len() as int, m);
                    } else {
                        assert(bit(normal, t));
                        assert(has_move(l1, lo, m));
                        lemma_has_move_extends(l1, l7, lo, m);
                    }
                } else if pawn_double(p, m) && !caps_only {
                    let to = choose|to: int| #![trigger p.mailbox[to]] 0 <= to < 64 && 0 <= to - 2 * fwd(side) < 64 && on_start_rank(side, to - 2 * fwd(side))
                        && p.mailbox[to - 2 * fwd(side)] == pawn_of(side) && p.mailbox[to - fwd(side)] == 0 && p.mailbox[to] == 0
                        && m == pack_move((to - 2 * fwd(side)) as u8, to as u8, pawn_of(side), 0, 0, FLAG_DOUBLE);
                    let t = to as u64;
                    assert(double_ok(p, to));
                    assert(bit(double, t));
                    assert(pawn_cap(p, to, FLAG_DOUBLE) == 0) by {
                        lemma_capture_flag(FLAG_DOUBLE);
                    }
                    assert(!on_promo_rank(side, to));
                    assert(pawn_target(p, t as int, -2 * (f as int), FLAG_DOUBLE, m));
                    assert(has_move(l3, l2.len() as int, m));
                    lemma_has_move_extends(l3, l7, l2.len() as int, m);
                    lemma_has_move_lower(l7, lo, l2.len() as int, m);
                } else if pawn_capture(p, m) {
                    let (to, dx) = choose|to: int, dx: int| #![trigger capture_from(side, to, dx), p.mailbox[to]] 0 <= to < 64 && (dx == -1 || dx == 1)
                        && 0 <= capture_from(side, to, dx) < 64 && diagonal_ok(capture_from(side, to, dx), dx)
                        && p.mailbox[capture_from(side, to, dx)] == pawn_of(side) && enemy_at(p, to)
                        && pawn_move_to(p, capture_from(side, to, dx), to, FLAG_CAPTURE, m);
                    let t = to as u64;
                    assert(capture_ok(p, to, dx));
                    if dx == -1 {
                        assert(bit(left, t));
                        assert(capture_from(side, to, dx) == to - f + 1);
                        assert(pawn_target(p, t as int, -(f as int) + 1, FLAG_CAPTURE, m));
                        assert(has_move(l4, l3.len() as int, m));
                        lemma_has_move_extends(l4, l7, l3.len() as int, m);
                        lemma_has_move_lower(l7, lo, l3.len() as int, m);
                    } else {
                        assert(bit(right, t));
                        assert(capture_from(side, to, dx) == to - f - 1);
                        assert(pawn_target(p, t as int, -(f as int) - 1, FLAG_CAPTURE, m));
                        assert(has_move(l5, l4.len() as int, m));
                        lemma_has_move_extends(l5, l7, l4.len() as int, m);
                        lemma_has_move_lower(l7, lo, l4.len() as int, m);
                    }
                } else {
                    assert(pawn_ep(p, m));
                    let dx = choose|dx: int| #![trigger capture_from(side, p.ep as int, dx)] (dx == -1 || dx == 1)
                        && 0 <= capture_from(side, p.ep as int, dx) < 64 && diagonal_ok(capture_from(side, p.ep as int, dx), dx)
                        && p.mailbox[capture_from(side, p.ep as int, dx)] == pawn_of(side)
                        && m == pack_move(capture_from(side, p.ep as int, dx) as u8, p.ep, pawn_of(side), pawn_of(1 - side), 0, FLAG_CAPTURE | FLAG_EP);
                    if dx == -1 {
                        assert(ep_left);
                        assert(l6[l5.len() as int]@ == m);
                        lemma_extends_index(l6, l7, l5.len() as int);
                    } else {
                        assert(ep_right);
                        assert(l7[l6.len() as int]@ == m);
                    }
                }
            }
            self.lemma_pawn_sets_distinct(normal, promo, double, left, right, ep_left, ep_right, caps_only, l0, l1, l2, l3, l4, l5, l6, l7);
        }
    }
}

/// Bit `t` of `x << k` is bit `t - k` of `x`.
pub proof fn lemma_shl_bit(x: u64, k: u64, t: u64)
    requires
        k < 64,
        t < 64,
    ensures
        bit(x << k, t) <==> (t >= k && bit(x, (t - k) as u64)),
{
    assert(((x << k) >> t) & 1u64 == 1u64 <==> (t >= k && (x >> ((t - k) as u64)) & 1u64 == 1u64)) by (bit_vector)
        requires
            k < 64,
            t < 64,
    ;
}

/// Bit `t` of `x >> k` is bit `t + k` of `x`.
pub proof fn lemma_shr_bit(x: u64, k: u64, t: u64)
    requires
        k < 64,
        t < 64,
    ensures
        bit(x >> k, t) <==> (t + k < 64 && bit(x, (t + k) as u64)),
{
    assert(((x >> k) >> t) & 1u64 == 1u64 <==> (t + k < 64 && (x >> ((t + k) as u64)) & 1u64 == 1u64)) by (bit_vector)
        requires
            k < 64,
            t < 64,
    ;
}

/// The squares of the file and rank masks.
pub proof fn lemma_mask_bits(t: u64)
    requires
        t < 64,
    ensures
        bit(FILE_A, t) <==> t % 8 == 0,
        bit(FILE_H, t) <==> t % 8 == 7,
        bit(RANK_2, t) <==> 8 <= t < 16,
        bit(RANK_7, t) <==> 48 <= t < 56,
        bit(PROMO_RANK_WHITE, t) <==> t >= 56,
        bit(PROMO_RANK_BLACK, t) <==> t < 8,
        bit(NOT_A, t) <==> t % 8 != 0,
        bit(NOT_H, t) <==> t % 8 != 7,
{
    lemma_mask_words(t);
}

proof fn lemma_mask_words(t: u64)
    by (bit_vector)
    requires
        t < 64,
    ensures
        (0x0101_0101_0101_0101u64 >> t) & 1u64 == 1u64 <==> t % 8 == 0,
        (0x8080_8080_8080_8080u64 >> t) & 1u64 == 1u64 <==> t % 8 == 7,
        (0x0000_0000_0000_FF00u64 >> t) & 1u64 == 1u64 <==> 8 <= t < 16,
        (0x00FF_0000_0000_0000u64 >> t) & 1u64 == 1u64 <==> 48 <= t < 56,
        (0xFF00_0000_0000_0000u64 >> t) & 1u64 == 1u64 <==> t >= 56,
        (0x0000_0000_0000_00FFu64 >> t) & 1u64 == 1u64 <==> t < 8,
        (0xFEFE_FEFE_FEFE_FEFEu64 >> t) & 1u64 == 1u64 <==> t % 8 != 0,
        (0x7F7F_7F7F_7F7F_7F7Fu64 >> t) & 1u64 == 1u64 <==> t % 8 != 7,
{
}

/// Among the flags a pawn move carries before promotion, only a capture has the capture bit.
proof fn lemma_capture_flag(flags: u32)
    by (bit_vector)
    ensures
        (flags == 0 || flags == 0x0100_0000u32 || flags == 0x0200_0000u32) ==> (flags & 0x0100_0000u32 != 0 <==> flags == 0x0100_0000u32),
        0x0200_0000u32 & 0x0100_0000u32 == 0,
{
}

/// `x & (1 << s)` is non-zero exactly when square `s` is in `x`.
pub proof fn lemma_single_test(x: u64, s: u64)
    requires
        s < 64,
    ensures
        (x & (1u64 << s) != 0) <==> bit(x, s),
{
    assert((x & (1u64 << s) != 0) <==> ((x >> s) & 1u64 == 1u64)) by (bit_vector) requires s < 64;
}

impl Board {
    /// White's pawn moves (only captures when `caps_only`), from the pawn, empty and enemy bitboards.
    fn gen_white_pawns(&self, pawns: u64, empty: u64, enemy: u64, caps_only: bool, list: &mut MoveList)
        requires
            self.wf(),
            self.side_to_move == WHITE,
            pawns == self.pieces@[0],
            empty == !self.occ@[2],
            enemy == self.occ@[1],
        ensures
            extends(old(list)@, final(list)@),
            !caps_only ==> forall|i: int| old(list)@.len() <= i < final(list)@.len() ==> pawn_pseudo(self@, #[trigger] final(list)@[i]@),
            !caps_only ==> forall|m: u32| pawn_pseudo(self@, m) ==> #[trigger] has_move(final(list)@, old(list)@.len() as int, m),
            caps_only ==> forall|i: int| old(list)@.len() <= i < final(list)@.len() ==> pawn_pseudo_capture(self@, #[trigger] final(list)@[i]@),
            caps_only ==> forall|m: u32| pawn_pseudo_capture(self@, m) ==> #[trigger] has_move(final(list)@, old(list)@.len() as int, m),
            distinct_after(final(list)@, old(list)@.len() as int),
    {
        let ghost p = self@;
        let single = if caps_only { 0 } else { (pawns << 8u64) & empty };
        let double = if caps_only { 0 } else { ((((pawns & RANK_2) << 8u64) & empty) << 8u64) & empty };
        let promo_push = single & PROMO_RANK_WHITE;
        let normal_push = single & !PROMO_RANK_WHITE;
        let left = ((pawns & !FILE_A) << 7u64) & enemy;
        let right = ((pawns & !FILE_H) << 9u64) & enemy;
        let mut ep_left = false;
        let mut ep_right = false;
        if self.ep_square != 64 && self.ep_target_ready() {
            let ep = self.ep_square;
            let ep_bb = 1u64 << ep;
            ep_left = ((pawns & !FILE_A) << 7u64) & ep_bb != 0;
            ep_right = ((pawns & !FILE_H) << 9u64) & ep_bb != 0;
            proof {
                let e = ep as u64;
                lemma_single_test((pawns & !FILE_A) << 7u64, e);
                lemma_single_test((pawns & !FILE_H) << 9u64, e);
                lemma_shl_bit(pawns & !FILE_A, 7, e);
                lemma_shl_bit(pawns & !FILE_H, 9, e);
                if e >= 7 {
                    lemma_bit_and(pawns, !FILE_A, (e - 7) as u64);
                    lemma_bit_not(FILE_A, (e - 7) as u64);
                    lemma_mask_bits((e - 7) as u64);
                }
                if e >= 9 {
                    lemma_bit_and(pawns, !FILE_H, (e - 9) as u64);
                    lemma_bit_not(FILE_H, (e - 9) as u64);
                    lemma_mask_bits((e - 9) as u64);
                }
                assert(piece_bb_ok(pawns, p.mailbox, WP));
                assert(capture_from(0, e as int, -1) == e - 7);
                assert(capture_from(0, e as int, 1) == e - 9);
            }
        }
        proof {
            assert(piece_bb_ok(pawns, p.mailbox, WP));
            assert forall|t: u64| t < 64 implies #[trigger] bit(empty, t) <==> p.mailbox[t as int] == 0 by {
                lemma_bit_not(self.occ@[2], t);
                lemma_sides(self, t);
            }
            assert forall|t: u64| t < 64 implies #[trigger] bit(enemy, t) <==> enemy_at(p, t as int) by {
                lemma_sides(self, t);
            }
            let s1 = (pawns << 8u64) & empty;
            assert forall|t: u64| t < 64 implies (#[trigger] bit(s1, t) <==> single_ok(p, t as int)) by {
                lemma_bit_and(pawns << 8u64, empty, t);
                lemma_shl_bit(pawns, 8, t);
            }
            assert forall|t: u64| t < 64 implies (#[trigger] bit(single, t) <==> (!caps_only && single_ok(p, t as int))) by {
                if caps_only { crate::bits::lemma_bit_zero(t); }
            }
            assert forall|t: u64| t < 64 implies (#[trigger] bit(normal_push, t) <==> (!caps_only && single_ok(p, t as int) && !on_promo_rank(0, t as int))) by {
                lemma_bit_and(single, !PROMO_RANK_WHITE, t);
                lemma_bit_not(PROMO_RANK_WHITE, t);
                lemma_mask_bits(t);
            }
            assert forall|t: u64| t < 64 implies (#[trigger] bit(promo_push, t) <==> (!caps_only && single_ok(p, t as int) && on_promo_rank(0, t as int))) by {
                lemma_bit_and(single, PROMO_RANK_WHITE, t);
                lemma_mask_bits(t);
            }
            let d0 = pawns & RANK_2;
            let d1 = (d0 << 8u64) & empty;
            let d2 = (d1 << 8u64) & empty;
            assert forall|t: u64| t < 64 implies (#[trigger] bit(d2, t) <==> double_ok(p, t as int)) by {
                lemma_bit_and(d1 << 8u64, empty, t);
                lemma_shl_bit(d1, 8, t);
                if t >= 8 {
                    lemma_bit_and(d0 << 8u64, empty, (t - 8) as u64);
                    lemma_shl_bit(d0, 8, (t - 8) as u64);
                    if t >= 16 {
                        lemma_bit_and(pawns, RANK_2, (t - 16) as u64);
                        lemma_mask_bits((t - 16) as u64);
                    }
                }
            }
            assert forall|t: u64| t < 64 implies (#[trigger] bit(double, t) <==> (!caps_only && double_ok(p, t as int))) by {
                if caps_only { crate::bits::lemma_bit_zero(t); }
            }
            assert forall|t: u64| t < 64 implies (#[trigger] bit(left, t) <==> capture_ok(p, t as int, -1)) by {
                lemma_bit_and((pawns & !FILE_A) << 7u64, enemy, t);
                lemma_shl_bit(pawns & !FILE_A, 7, t);
                if t >= 7 {
                    lemma_bit_and(pawns, !FILE_A, (t - 7) as u64);
                    lemma_bit_not(FILE_A, (t - 7) as u64);
                    lemma_mask_bits((t - 7) as u64);
                }
                assert(capture_from(0, t as int, -1) == t - 7);
            }
            assert forall|t: u64| t < 64 implies (#[trigger] bit(right, t) <==> capture_ok(p, t as int, 1)) by {
                lemma_bit_and((pawns & !FILE_H) << 9u64, enemy, t);
                lemma_shl_bit(pawns & !FILE_H, 9, t);
                if t >= 9 {
                    lemma_bit_and(pawns, !FILE_H, (t - 9) as u64);
                    lemma_bit_not(FILE_H, (t - 9) as u64);
                    lemma_mask_bits((t - 9) as u64);
                }
                assert(capture_from(0, t as int, 1) == t - 9);
            }
        }
        self.push_pawn_sets(normal_push, promo_push, double, left, right, ep_left, ep_right, caps_only, list);
    }

    /// Black's pawn moves (only captures when `caps_only`), from the pawn, empty and enemy bitboards.
    fn gen_black_pawns(&self, pawns: u64, empty: u64, enemy: u64, caps_only: bool, list: &mut MoveList)
        requires
            self.wf(),
            self.side_to_move == BLACK,
            pawns == self.pieces@[6],
            empty == !self.occ@[2],
            enemy == self.occ@[0],
        ensures
            extends(old(list)@, final(list)@),
            !caps_only ==> forall|i: int| old(list)@.len() <= i < final(list)@.len() ==> pawn_pseudo(self@, #[trigger] final(list)@[i]@),
            !caps_only ==> forall|m: u32| pawn_pseudo(self@, m) ==> #[trigger] has_move(final(list)@, old(list)@.len() as int, m),
            caps_only ==> forall|i: int| old(list)@.len() <= i < final(list)@.len() ==> pawn_pseudo_capture(self@, #[trigger] final(list)@[i]@),
            caps_only ==> forall|m: u32| pawn_pseudo_capture(self@, m) ==> #[trigger] has_move(final(list)@, old(list)@.len() as int, m),
            distinct_after(final(list)@, old(list)@.len() as int),
    {
        let ghost p = self@;
        let single = if caps_only { 0 } else { (pawns >> 8u64) & empty };
        let double = if caps_only { 0 } else { ((((pawns & RANK_7) >> 8u64) & empty) >> 8u64) & empty };
        let promo = single & PROMO_RANK_BLACK;
        let normal = single & !PROMO_RANK_BLACK;
        let left = ((pawns & !FILE_A) >> 9u64) & enemy;
        let right = ((pawns & !FILE_H) >> 7u64) & enemy;
        let mut ep_left = false;
        let mut ep_right = false;
        if self.ep_square != 64 && self.ep_target_ready() {
            let ep = self.ep_square;
            let ep_bb = 1u64 << ep;
            ep_left = ((pawns & !FILE_A) >> 9u64) & ep_bb != 0;
            ep_right = ((pawns & !FILE_H) >> 7u64) & ep_bb != 0;
            proof {
                let e = ep as u64;
                lemma_single_test((pawns & !FILE_A) >> 9u64, e);
                lemma_single_test((pawns & !FILE_H) >> 7u64, e);
                lemma_shr_bit(pawns & !FILE_A, 9, e);
                lemma_shr_bit(pawns & !FILE_H, 7, e);
                if e + 9 < 64 {
                    lemma_bit_and(pawns, !FILE_A, (e + 9) as u64);
                    lemma_bit_not(FILE_A, (e + 9) as u64);
                    lemma_mask_bits((e + 9) as u64);
                }
                if e + 7 < 64 {
                    lemma_bit_and(pawns, !FILE_H, (e + 7) as u64);
                    lemma_bit_not(FILE_H, (e + 7) as u64);
                    lemma_mask_bits((e + 7) as u64);
                }
                assert(piece_bb_ok(pawns, p.mailbox, BP));
                assert(capture_from(1, e as int, -1) == e + 9);
                assert(capture_from(1, e as int, 1) == e + 7);
            }
        }
        proof {
            assert(piece_bb_ok(pawns, p.mailbox, BP));
            assert forall|t: u64| t < 64 implies #[trigger] bit(empty, t) <==> p.mailbox[t as int] == 0 by {
                lemma_bit_not(self.occ@[2], t);
                lemma_sides(self, t);
            }
            assert forall|t: u64| t < 64 implies #[trigger] bit(enemy, t) <==> enemy_at(p, t as int) by {
                lemma_sides(self, t);
            }
            let s1 = (pawns >> 8u64) & empty;
            assert forall|t: u64| t < 64 implies (#[trigger] bit(s1, t) <==> single_ok(p, t as int)) by {
                lemma_bit_and(pawns >> 8u64, empty, t);
                lemma_shr_bit(pawns, 8, t);
            }
            assert forall|t: u64| t < 64 implies (#[trigger] bit(single, t) <==> (!caps_only && single_ok(p, t as int))) by {
                if caps_only { crate::bits::lemma_bit_zero(t); }
            }
            assert forall|t: u64| t < 64 implies (#[trigger] bit(normal, t) <==> (!caps_only && single_ok(p, t as int) && !on_promo_rank(1, t as int))) by {
                lemma_bit_and(single, !PROMO_RANK_BLACK, t);
                lemma_bit_not(PROMO_RANK_BLACK, t);
                lemma_mask_bits(t);
            }
            assert forall|t: u64| t < 64 implies (#[trigger] bit(promo, t) <==> (!caps_only && single_ok(p, t as int) && on_promo_rank(1, t as int))) by {
                lemma_bit_and(single, PROMO_RANK_BLACK, t);
                lemma_mask_bits(t);
            }
            let d0 = pawns & RANK_7;
            let d1 = (d0 >> 8u64) & empty;
            let d2 = (d1 >> 8u64) & empty;
            assert forall|t: u64| t < 64 implies (#[trigger] bit(d2, t) <==> double_ok(p, t as int)) by {
                lemma_bit_and(d1 >> 8u64, empty, t);
                lemma_shr_bit(d1, 8, t);
                if t + 8 < 64 {
                    lemma_bit_and(d0 >> 8u64, empty, (t + 8) as u64);
                    lemma_shr_bit(d0, 8, (t + 8) as u64);
                    if t + 16 < 64 {
                        lemma_bit_and(pawns, RANK_7, (t + 16) as u64);
                        lemma_mask_bits((t + 16) as u64);
                    }
                }
            }
            assert forall|t: u64| t < 64 implies (#[trigger] bit(double, t) <==> (!caps_only && double_ok(p, t as int))) by {
                if caps_only { crate::bits::lemma_bit_zero(t); }
            }
            assert forall|t: u64| t < 64 implies (#[trigger] bit(left, t) <==> capture_ok(p, t as int, -1)) by {
                lemma_bit_and((pawns & !FILE_A) >> 9u64, enemy, t);
                lemma_shr_bit(pawns & !FILE_A, 9, t);
                if t + 9 < 64 {
                    lemma_bit_and(pawns, !FILE_A, (t + 9) as u64);
                    lemma_bit_not(FILE_A, (t + 9) as u64);
                    lemma_mask_bits((t + 9) as u64);
                }
                assert(capture_from(1, t as int, -1) == t + 9);
            }
            assert forall|t: u64| t < 64 implies (#[trigger] bit(right, t) <==> capture_ok(p, t as int, 1)) by {
                lemma_bit_and((pawns & !FILE_H) >> 7u64, enemy, t);
                lemma_shr_bit(pawns & !FILE_H, 7, t);
                if t + 7 < 64 {
                    lemma_bit_and(pawns, !FILE_H, (t + 7) as u64);
                    lemma_bit_not(FILE_H, (t + 7) as u64);
                    lemma_mask_bits((t + 7) as u64);
                }
                assert(capture_from(1, t as int, 1) == t + 7);
            }
        }
        self.push_pawn_sets(normal, promo, double, left, right, ep_left, ep_right, caps_only, list);
    }

    /// Appends the pseudo-legal pawn moves of the side to move.
    pub fn generate_pawn_moves(&self, list: &mut MoveList)
        requires
            self.wf(),
        ensures
            extends(old(list)@, final(list)@),
            forall|i: int| old(list)@.len() <= i < final(list)@.len() ==> pawn_pseudo(self@, #[trigger] final(list)@[i]@),
            forall|m: u32| pawn_pseudo(self@, m) ==> #[trigger] has_move(final(list)@, old(list)@.len() as int, m),
            distinct_after(final(list)@, old(list)@.len() as int),
    {
        let white = self.side_to_move == WHITE as u8;
        let pawns = self.pieces[(if white { WP } else { BP }) as usize - 1];
        let empty = !self.occ[BOTH];
        let enemy = if white { self.occ[BLACK] } else { self.occ[WHITE] };
        if white {
            self.gen_white_pawns(pawns, empty, enemy, false, list);
        } else {
            self.gen_black_pawns(pawns, empty, enemy, false, list);
        }
    }

    /// Appends the pseudo-legal pawn captures, en passant included, of the side to move.
    pub fn generate_pawn_captures(&self, list: &mut MoveList)
        requires
            self.wf(),
        ensures
            extends(old(list)@, final(list)@),
            forall|i: int| old(list)@.len() <= i < final(list)@.len() ==> pawn_pseudo_capture(self@, #[trigger] final(list)@[i]@),
            forall|m: u32| pawn_pseudo_capture(self@, m) ==> #[trigger] has_move(final(list)@, old(list)@.len() as int, m),
            distinct_after(final(list)@, old(list)@.len() as int),
    {
        let white = self.side_to_move == WHITE as u8;
        let pawns = self.pieces[(if white { WP } else { BP }) as usize - 1];
        let empty = !self.occ[BOTH];
        let enemy = if white { self.occ[BLACK] } else { self.occ[WHITE] };
        if white {
            self.gen_white_pawns(pawns, empty, enemy, true, list);
        } else {
            self.gen_black_pawns(pawns, empty, enemy, true, list);
        }
    }
}

/// Every pseudo-legal pawn move moves a pawn of the side to move.
pub proof fn lemma_pawn_piece(p: Position, m: u32)
    requires
        crate::board::mailbox_ok(p.mailbox),
        p.side <= 1,
        pawn_pseudo(p, m),
    ensures
        m_piece(m) == pawn_of(p.side as int),
{
    let side = p.side as int;
    crate::position::lemma_flag_values();
    if pawn_push(p, m) {
        let to = choose|to: int| #![trigger p.mailbox[to]] 0 <= to < 64 && 0 <= to - fwd(side) < 64 && p.mailbox[to - fwd(side)] == pawn_of(side)
            && p.mailbox[to] == 0 && pawn_move_to(p, to - fwd(side), to, 0, m);
        assert(pawn_target(p, to, -fwd(side), 0, m));
        lemma_pawn_target_fields(p, to, -fwd(side), 0, m);
    } else if pawn_double(p, m) {
        let f = fwd(side);
        let to = choose|to: int| #![trigger p.mailbox[to]] 0 <= to < 64 && 0 <= to - 2 * f < 64 && on_start_rank(side, to - 2 * f)
            && p.mailbox[to - 2 * f] == pawn_of(side) && p.mailbox[to - f] == 0 && p.mailbox[to] == 0
            && m == pack_move((to - 2 * f) as u8, to as u8, pawn_of(side), 0, 0, FLAG_DOUBLE);
        lemma_pack_fields((to - 2 * f) as u8, to as u8, pawn_of(side), 0, 0, FLAG_DOUBLE);
    } else if pawn_capture(p, m) {
        let (to, dx) = choose|to: int, dx: int| #![trigger capture_from(side, to, dx), p.mailbox[to]] 0 <= to < 64 && (dx == -1 || dx == 1)
            && 0 <= capture_from(side, to, dx) < 64 && diagonal_ok(capture_from(side, to, dx), dx)
            && p.mailbox[capture_from(side, to, dx)] == pawn_of(side) && enemy_at(p, to)
            && pawn_move_to(p, capture_from(side, to, dx), to, FLAG_CAPTURE, m);
        let d = capture_from(side, to, dx) - to;
        assert(pawn_target(p, to, d, FLAG_CAPTURE, m));
        lemma_pawn_target_fields(p, to, d, FLAG_CAPTURE, m);
    } else {
        let e = p.ep as int;
        let dx = choose|dx: int| #![trigger capture_from(side, e, dx)] (dx == -1 || dx == 1)
            && 0 <= capture_from(side, e, dx) < 64 && diagonal_ok(capture_from(side, e, dx), dx)
            && p.mailbox[capture_from(side, e, dx)] == pawn_of(side)
            && m == pack_move(capture_from(side, e, dx) as u8, p.ep, pawn_of(side), pawn_of(1 - side), 0, FLAG_CAPTURE | FLAG_EP);
        lemma_pack_fields(capture_from(side, e, dx) as u8, p.ep, pawn_of(side), pawn_of(1 - side), 0, FLAG_CAPTURE | FLAG_EP);
    }
}

} // verus!
