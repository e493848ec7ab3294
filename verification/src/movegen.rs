//! Pseudo-legal move generation for knights, bishops, rooks, queens and kings.
use vstd::prelude::*;
use crate::attacks::{king_attacks, king_attacks_spec, knight_attacks, knight_attacks_spec};
use crate::bits::{bit, lemma_bit_and, lemma_bit_not, lsb, pop_lsb};
use crate::board::{occ_ok, piece_bb_ok, piece_of_side, Board, Position, BLACK, BOTH, WHITE, WK, WN, WB, WR, WQ, BR};
use crate::moves::{lemma_pack_fields, m_flags, m_from, m_piece, m_to, pack_move, Move, MoveList, FLAG_CAPTURE, FLAG_CASTLE};
use crate::generation::{CASTLE_WK, CASTLE_WQ, CASTLE_BK, CASTLE_BQ, WK_EMPTY, WQ_EMPTY, BK_EMPTY, BQ_EMPTY};
use crate::board::{BK};
use crate::sliders::{bishop_attacks, bishop_hit, queen_attacks, rook_attacks, rook_hit};

verus! {

/// `new` is `old` with moves appended.
pub open spec fn extends(old: Seq<Move>, new: Seq<Move>) -> bool {
    &&& old.len() <= new.len()
    &&& new.subrange(0, old.len() as int) == old
}

/// The piece of type `kind` (its white code, 1..=6) belonging to `side`.
pub open spec fn piece_code(kind: u8, side: int) -> u8 {
    if side == 0 {
        kind
    } else {
        (kind + 6) as u8
    }
}

/// A piece of `side` stands on `t`.
pub open spec fn own_at(p: Position, t: int) -> bool {
    piece_of_side(p.mailbox[t], p.side as int)
}

/// A piece of the side not to move stands on `t`.
pub open spec fn enemy_at(p: Position, t: int) -> bool {
    piece_of_side(p.mailbox[t], 1 - p.side)
}

/// Whether a piece of type `kind` on `from` attacks `to` with the occupancy `occ`.
pub open spec fn kind_attacks(kind: u8, from: u64, to: u64, occ: u64) -> bool {
    if kind == WN {
        bit(knight_attacks_spec(from), to)
    } else if kind == WK {
        bit(king_attacks_spec(from), to)
    } else if kind == WB {
        bishop_hit(from, to, occ)
    } else if kind == WR {
        rook_hit(from, to, occ)
    } else {
        rook_hit(from, to, occ) || bishop_hit(from, to, occ)
    }
}

/// The move of `piece` from `from` to `to`: a capture of the occupant if there is one.
pub open spec fn step_move(mb: Seq<u8>, from: u64, to: u64, piece: u8) -> u32 {
    if mb[to as int] == 0 {
        pack_move(from as u8, to as u8, piece, 0, 0, 0)
    } else {
        pack_move(from as u8, to as u8, piece, mb[to as int], 0, FLAG_CAPTURE)
    }
}

/// A pseudo-legal move of a piece of type `kind` of the side to move: from one of its
/// squares to an attacked square that holds no piece of its own side.
pub open spec fn piece_move(p: Position, occ: u64, kind: u8, m: u32) -> bool {
    exists|from: u64, to: u64|
        #![trigger step_move(p.mailbox, from, to, piece_code(kind, p.side as int))]
        from < 64 && to < 64 && p.mailbox[from as int] == piece_code(kind, p.side as int)
            && kind_attacks(kind, from, to, occ) && !own_at(p, to as int) && m == step_move(
            p.mailbox,
            from,
            to,
            piece_code(kind, p.side as int),
        )
}

/// A pseudo-legal capture of a piece of type `kind` of the side to move.
pub open spec fn piece_capture(p: Position, occ: u64, kind: u8, m: u32) -> bool {
    exists|from: u64, to: u64|
        #![trigger step_move(p.mailbox, from, to, piece_code(kind, p.side as int))]
        from < 64 && to < 64 && p.mailbox[from as int] == piece_code(kind, p.side as int)
            && kind_attacks(kind, from, to, occ) && enemy_at(p, to as int) && m == step_move(
            p.mailbox,
            from,
            to,
            piece_code(kind, p.side as int),
        )
}

/// The move of `piece` to a target square: a quiet move, or a capture of the occupant.
pub open spec fn target_move(mb: Seq<u8>, from: u64, t: u64, piece: u8, capture: bool) -> u32 {
    if capture {
        pack_move(from as u8, t as u8, piece, mb[t as int], 0, FLAG_CAPTURE)
    } else {
        pack_move(from as u8, t as u8, piece, 0, 0, 0)
    }
}

/// A move of `piece` from `from` to a square of `bb`.
pub open spec fn target_in(mb: Seq<u8>, from: u64, bb: u64, piece: u8, capture: bool, m: u32) -> bool {
    exists|t: u64| #![trigger target_move(mb, from, t, piece, capture)] t < 64 && bit(bb, t) && m == target_move(mb, from, t, piece, capture)
}

/// `m` is one of the moves of `list` from position `lo` on.
pub open spec fn has_move(list: Seq<Move>, lo: int, m: u32) -> bool {
    exists|i: int| lo <= i < list.len() && #[trigger] list[i]@ == m
}

/// `m` goes to a square of `bb` that is no longer in `rest`.
pub open spec fn popped_target(mb: Seq<u8>, from: u64, bb: u64, rest: u64, piece: u8, capture: bool, m: u32) -> bool {
    exists|t: u64| #![trigger target_move(mb, from, t, piece, capture)] t < 64 && bit(bb, t) && !bit(rest, t) && m == target_move(mb, from, t, piece, capture)
}

/// The moves of `s` from position `lo` on are pairwise different.
pub open spec fn distinct_after(s: Seq<Move>, lo: int) -> bool {
    forall|i: int, j: int| #![trigger s[i], s[j]] lo <= i < j < s.len() ==> s[i]@ != s[j]@
}

/// The fields of a move to a target square.
pub proof fn lemma_target_fields(mb: Seq<u8>, from: u64, t: u64, piece: u8, capture: bool)
    requires
        from < 64,
        t < 64,
        piece < 16,
        mb.len() == 64,
        mb[t as int] <= 12,
    ensures
        m_from(target_move(mb, from, t, piece, capture)) == from,
        m_to(target_move(mb, from, t, piece, capture)) == t,
        m_piece(target_move(mb, from, t, piece, capture)) == piece,
        m_flags(target_move(mb, from, t, piece, capture)) == (if capture {
            FLAG_CAPTURE
        } else {
            0u32
        }),
{
    crate::position::lemma_flag_values();
    if capture {
        lemma_pack_fields(from as u8, t as u8, piece, mb[t as int], 0, FLAG_CAPTURE);
    } else {
        lemma_pack_fields(from as u8, t as u8, piece, 0, 0, 0);
    }
}

/// The fields of a step of `piece` from `from` to `to`.
pub proof fn lemma_step_fields(mb: Seq<u8>, from: u64, to: u64, piece: u8)
    requires
        from < 64,
        to < 64,
        piece < 16,
        mb.len() == 64,
        mb[to as int] <= 12,
    ensures
        step_move(mb, from, to, piece) == target_move(mb, from, to, piece, mb[to as int] != 0),
        m_from(step_move(mb, from, to, piece)) == from,
        m_to(step_move(mb, from, to, piece)) == to,
        m_piece(step_move(mb, from, to, piece)) == piece,
        m_flags(step_move(mb, from, to, piece)) & FLAG_CASTLE == 0,
{
    lemma_target_fields(mb, from, to, piece, mb[to as int] != 0);
    crate::position::lemma_flag_values();
}

/// Two runs of distinct moves, none of the first equal to one of the second, make one run of
/// distinct moves.
pub proof fn lemma_distinct_join(a: Seq<Move>, b: Seq<Move>, lo: int)
    requires
        extends(a, b),
        0 <= lo <= a.len(),
        distinct_after(a, lo),
        distinct_after(b, a.len() as int),
        forall|i: int, j: int| lo <= i < a.len() <= j < b.len() ==> #[trigger] a[i]@ != #[trigger] b[j]@,
    ensures
        distinct_after(b, lo),
{
    assert forall|i: int, j: int| lo <= i < j < b.len() implies #[trigger] b[i]@ != #[trigger] b[j]@ by {
        if j < a.len() {
            lemma_extends_index(a, b, i);
            lemma_extends_index(a, b, j);
            assert(a[i]@ != a[j]@);
        } else if i < a.len() {
            lemma_extends_index(a, b, i);
            assert(a[i]@ != b[j]@);
        }
    }
}

impl Board {
    /// Appends a move of `piece` from `from` to each square of `bb`, lowest square first;
    /// when `capture` is set, each move captures the piece on its target square.
    fn push_targets(&self, from: u8, bb: u64, piece: u8, capture: bool, list: &mut MoveList)
        requires
            self.wf(),
            from < 64,
            piece <= 12,
        ensures
            extends(old(list)@, final(list)@),
            forall|i: int| old(list)@.len() <= i < final(list)@.len() ==> target_in(self.mailbox@, from as u64, bb, piece, capture, #[trigger] final(list)@[i]@),
            forall|t: u64| t < 64 && bit(bb, t) ==> has_move(final(list)@, old(list)@.len() as int, #[trigger] target_move(self.mailbox@, from as u64, t, piece, capture)),
            distinct_after(final(list)@, old(list)@.len() as int),
    {
        let ghost old_list = list@;
        let ghost lo = old_list.len() as int;
        let ghost mb = self.mailbox@;
        let ghost f = from as u64;
        let mut rest = bb;
        while rest != 0
            invariant
                self.wf(),
                mb == self.mailbox@,
                f == from as u64,
                from < 64,
                lo == old_list.len(),
                lo <= list@.len(),
                list@.subrange(0, lo) == old_list,
                forall|t: u64| t < 64 && #[trigger] bit(rest, t) ==> bit(bb, t),
                forall|i: int| lo <= i < list@.len() ==> popped_target(mb, f, bb, rest, piece, capture, #[trigger] list@[i]@),
                forall|t: u64| t < 64 && bit(bb, t) && !bit(rest, t) ==> has_move(list@, lo, #[trigger] target_move(mb, f, t, piece, capture)),
                piece <= 12,
                distinct_after(list@, lo),
            decreases rest,
        {
            let to = lsb(rest);
            let ghost prev = rest;
            rest = pop_lsb(rest);
            let captured = if capture { self.mailbox[to as usize] } else { 0 };
            let flags = if capture { FLAG_CAPTURE } else { 0 };
            let mv = Move::new(from, to, piece, captured, 0, flags);
            let ghost before = list@;
            list.push(mv);
            proof {
                let tt = to as u64;
                assert(mv@ == target_move(mb, f, tt, piece, capture));
                assert(list@.subrange(0, lo) =~= old_list);
                assert forall|i: int| lo <= i < list@.len() implies popped_target(mb, f, bb, rest, piece, capture, #[trigger] list@[i]@) by {
                    if i < before.len() {
                        assert(list@[i] == before[i]);
                        assert(popped_target(mb, f, bb, prev, piece, capture, before[i]@));
                        let t = choose|t: u64| #![trigger target_move(mb, f, t, piece, capture)]
                            t < 64 && bit(bb, t) && !bit(prev, t) && before[i]@ == target_move(mb, f, t, piece, capture);
                        assert(!bit(rest, t));
                    } else {
                        assert(list@[i] == mv);
                        assert(!bit(rest, tt));
                    }
                }
                assert forall|t: u64| t < 64 && bit(bb, t) && !bit(rest, t) implies has_move(list@, lo, #[trigger] target_move(mb, f, t, piece, capture)) by {
                    if t == tt {
                        assert(list@[before.len() as int] == mv);
                    } else {
                        assert(!bit(prev, t));
                        assert(has_move(before, lo, target_move(mb, f, t, piece, capture)));
                        let i = choose|i: int| lo <= i < before.len() && #[trigger] before[i]@ == target_move(mb, f, t, piece, capture);
                        assert(list@[i] == before[i]);
                    }
                }
                assert(mb[tt as int] <= 12);
                lemma_target_fields(mb, f, tt, piece, capture);
                assert forall|i: int, j: int| lo <= i < j < list@.len() implies #[trigger] list@[i]@ != #[trigger] list@[j]@ by {
                    if j < before.len() {
                        assert(list@[i] == before[i] && list@[j] == before[j]);
                    } else {
                        assert(list@[i] == before[i]);
                        assert(popped_target(mb, f, bb, prev, piece, capture, before[i]@));
                        let t = choose|t: u64| #![trigger target_move(mb, f, t, piece, capture)]
                            t < 64 && bit(bb, t) && !bit(prev, t) && before[i]@ == target_move(mb, f, t, piece, capture);
                        assert(mb[t as int] <= 12);
                        lemma_target_fields(mb, f, t, piece, capture);
                        assert(t != tt);
                    }
                }
            }
        }
        proof {
            assert forall|t: u64| t < 64 implies !#[trigger] bit(rest, t) by {
                crate::bits::lemma_bit_zero(t);
            }
            assert forall|i: int| lo <= i < list@.len() implies target_in(mb, f, bb, piece, capture, #[trigger] list@[i]@) by {
                assert(popped_target(mb, f, bb, rest, piece, capture, list@[i]@));
            }
        }
    }
}

/// `m` moves a piece of type `kind` from a square of `bb` no longer in `rest`; only
/// captures when `caps_only`.
pub open spec fn popped_piece_move(p: Position, occ: u64, kind: u8, bb: u64, rest: u64, caps_only: bool, m: u32) -> bool {
    exists|from: u64, to: u64|
        #![trigger step_move(p.mailbox, from, to, piece_code(kind, p.side as int))]
        from < 64 && to < 64 && bit(bb, from) && !bit(rest, from) && p.mailbox[from as int] == piece_code(kind, p.side as int)
            && kind_attacks(kind, from, to, occ) && !own_at(p, to as int) && (caps_only ==> enemy_at(p, to as int))
            && m == step_move(p.mailbox, from, to, piece_code(kind, p.side as int))
}

/// A piece type that moves by attack sets: knight, bishop, rook, queen or king.
pub open spec fn is_attack_kind(kind: u8) -> bool {
    kind == WN || kind == WB || kind == WR || kind == WQ || kind == WK
}

/// The squares a piece of type `kind` on `from` attacks.
fn attacks_of(kind: u8, from: u8, occ: u64) -> (r: u64)
    requires
        from < 64,
        is_attack_kind(kind),
    ensures
        forall|t: u64| t < 64 ==> (#[trigger] bit(r, t) <==> kind_attacks(kind, from as u64, t, occ)),
{
    if kind == WN {
        knight_attacks(from)
    } else if kind == WK {
        king_attacks(from)
    } else if kind == WB {
        bishop_attacks(from as usize, occ)
    } else if kind == WR {
        rook_attacks(from as usize, occ)
    } else {
        queen_attacks(from as usize, occ)
    }
}

/// Occupancy facts of a well-formed board for the side to move.
pub proof fn lemma_sides(b: &Board, t: u64)
    requires
        b.wf(),
        t < 64,
    ensures
        bit(b.occ@[b.side_to_move as int], t) <==> own_at(b@, t as int),
        bit(b.occ@[1 - b.side_to_move], t) <==> enemy_at(b@, t as int),
        bit(b.occ@[2], t) <==> b.mailbox@[t as int] != 0,
        b.mailbox@[t as int] <= 12,
        (!own_at(b@, t as int) && !enemy_at(b@, t as int)) <==> b.mailbox@[t as int] == 0,
{
    assert(occ_ok(b.occ@, b.mailbox@));
    assert(b.mailbox@[t as int] <= 12);
}

impl Board {
    fn push_quiets(&self, from: u8, bb: u64, piece: u8, list: &mut MoveList)
        requires
            self.wf(),
            from < 64,
            piece <= 12,
        ensures
            extends(old(list)@, final(list)@),
            forall|i: int| old(list)@.len() <= i < final(list)@.len() ==> target_in(self.mailbox@, from as u64, bb, piece, false, #[trigger] final(list)@[i]@),
            forall|t: u64| t < 64 && bit(bb, t) ==> has_move(final(list)@, old(list)@.len() as int, #[trigger] target_move(self.mailbox@, from as u64, t, piece, false)),
            distinct_after(final(list)@, old(list)@.len() as int),
    {
        self.push_targets(from, bb, piece, false, list);
    }

    fn push_caps(&self, from: u8, bb: u64, piece: u8, list: &mut MoveList)
        requires
            self.wf(),
            from < 64,
            piece <= 12,
        ensures
            extends(old(list)@, final(list)@),
            forall|i: int| old(list)@.len() <= i < final(list)@.len() ==> target_in(self.mailbox@, from as u64, bb, piece, true, #[trigger] final(list)@[i]@),
            forall|t: u64| t < 64 && bit(bb, t) ==> has_move(final(list)@, old(list)@.len() as int, #[trigger] target_move(self.mailbox@, from as u64, t, piece, true)),
            distinct_after(final(list)@, old(list)@.len() as int),
    {
        self.push_targets(from, bb, piece, true, list);
    }

    /// Appends the moves of every piece of type `kind` of the side to move (only its
    /// captures when `caps_only`), piece by piece from the lowest square, quiet moves
    /// before captures.
    fn generate_kind_moves(&self, kind: u8, caps_only: bool, list: &mut MoveList)
        requires
            self.wf(),
            is_attack_kind(kind),
        ensures
            extends(old(list)@, final(list)@),
            forall|i: int| old(list)@.len() <= i < final(list)@.len() ==> popped_piece_move(self@, self.occ@[2], kind, self.pieces@[piece_code(kind, self.side_to_move as int) - 1], 0, caps_only, #[trigger] final(list)@[i]@),
            forall|from: u64, to: u64| from < 64 && to < 64 && self.mailbox@[from as int] == piece_code(kind, self.side_to_move as int)
                && kind_attacks(kind, from, to, self.occ@[2]) && !own_at(self@, to as int) && (caps_only ==> enemy_at(self@, to as int))
                ==> has_move(final(list)@, old(list)@.len() as int, #[trigger] step_move(self.mailbox@, from, to, piece_code(kind, self.side_to_move as int))),
            distinct_after(final(list)@, old(list)@.len() as int),
    {
        let ghost p = self@;
        let ghost occ = self.occ@[2];
        let white = self.side_to_move == WHITE as u8;
        let piece = if white { kind } else { kind + 6 };
        let own = if white { self.occ[WHITE] } else { self.occ[BLACK] };
        let enemy = if white { self.occ[BLACK] } else { self.occ[WHITE] };
        let all = self.occ[BOTH];
        let bb0 = self.pieces[(piece - 1) as usize];
        let ghost old_list = list@;
        let ghost lo = old_list.len() as int;
        let mut rest = bb0;
        proof {
            assert(piece == piece_code(kind, p.side as int));
            assert(piece_bb_ok(bb0, p.mailbox, piece));
        }
        while rest != 0
            invariant
                self.wf(),
                p == self@,
                occ == self.occ@[2],
                all == occ,
                is_attack_kind(kind),
                piece == piece_code(kind, p.side as int),
                1 <= piece <= 12,
                bb0 == self.pieces@[piece - 1],
                piece_bb_ok(bb0, p.mailbox, piece),
                own == self.occ@[p.side as int],
                enemy == self.occ@[1 - p.side],
                lo == old_list.len(),
                lo <= list@.len(),
                list@.subrange(0, lo) == old_list,
                forall|t: u64| t < 64 && #[trigger] bit(rest, t) ==> bit(bb0, t),
                forall|i: int| lo <= i < list@.len() ==> popped_piece_move(p, occ, kind, bb0, rest, caps_only, #[trigger] list@[i]@),
                forall|from: u64, to: u64| from < 64 && to < 64 && bit(bb0, from) && !bit(rest, from)
                    && kind_attacks(kind, from, to, occ) && !own_at(p, to as int) && (caps_only ==> enemy_at(p, to as int))
                    ==> has_move(list@, lo, #[trigger] step_move(p.mailbox, from, to, piece)),
                distinct_after(list@, lo),
            decreases rest,
        {
            let from = lsb(rest);
            let ghost prev = rest;
            rest = pop_lsb(rest);
            let att = attacks_of(kind, from, all);
            let attacks = att & !own;
            let caps = attacks & enemy;
            let ghost l0 = list@;
            let ghost f = from as u64;
            proof {
                assert(bit(prev, f));
                assert(bit(bb0, f));
                assert(p.mailbox[f as int] == piece);
            }
            let quiet = attacks & !enemy;
            if !caps_only {
                self.push_quiets(from, quiet, piece, list);
                proof {
                    assert forall|t: u64| t < 64 implies (#[trigger] bit(quiet, t) <==> (kind_attacks(kind, f, t, occ) && p.mailbox[t as int] == 0)) by {
                        lemma_bit_and(attacks, !enemy, t);
                        lemma_bit_and(att, !own, t);
                        lemma_bit_not(enemy, t);
                        lemma_bit_not(own, t);
                        lemma_sides(self, t);
                    }
                }
            }
            let ghost l1 = list@;
            self.push_caps(from, caps, piece, list);
            let ghost l2 = list@;
            proof {
                assert forall|t: u64| t < 64 implies (#[trigger] bit(caps, t) <==> (kind_attacks(kind, f, t, occ) && enemy_at(p, t as int))) by {
                    lemma_bit_and(attacks, enemy, t);
                    lemma_bit_and(att, !own, t);
                    lemma_bit_not(own, t);
                    lemma_sides(self, t);
                }
                if caps_only {
                    assert(l1 == l0);
                }
                assert(l1.subrange(0, l0.len() as int) == l0);
                assert(l2.subrange(0, l1.len() as int) == l1);
                assert forall|i: int| 0 <= i < l0.len() implies #[trigger] l2[i] == l0[i] by {
                    assert(l2.subrange(0, l1.len() as int)[i] == l1[i]);
                    assert(l1.subrange(0, l0.len() as int)[i] == l0[i]);
                }
                assert forall|i: int| 0 <= i < l1.len() implies #[trigger] l2[i] == l1[i] by {
                    assert(l2.subrange(0, l1.len() as int)[i] == l1[i]);
                }
                assert(l2.subrange(0, lo) =~= old_list) by {
                    assert forall|i: int| 0 <= i < lo implies l2.subrange(0, lo)[i] == old_list[i] by {
                        assert(l0.subrange(0, lo)[i] == old_list[i]);
                    }
                }
                assert forall|i: int| lo <= i < l2.len() implies popped_piece_move(p, occ, kind, bb0, rest, caps_only, #[trigger] l2[i]@) by {
                    if i < l0.len() {
                        assert(popped_piece_move(p, occ, kind, bb0, prev, caps_only, l0[i]@));
                        let (fr, to) = choose|fr: u64, to: u64|
                            #![trigger step_move(p.mailbox, fr, to, piece_code(kind, p.side as int))]
                            fr < 64 && to < 64 && bit(bb0, fr) && !bit(prev, fr) && p.mailbox[fr as int] == piece_code(kind, p.side as int)
                                && kind_attacks(kind, fr, to, occ) && !own_at(p, to as int) && (caps_only ==> enemy_at(p, to as int))
                                && l0[i]@ == step_move(p.mailbox, fr, to, piece_code(kind, p.side as int));
                        assert(!bit(rest, fr));
                        assert(l2[i] == l0[i]);
                    } else if i < l1.len() {
                        assert(!caps_only);
                        assert(l2[i] == l1[i]);
                        let t = choose|t: u64| #![trigger target_move(p.mailbox, f, t, piece, false)] t < 64 && bit(quiet, t) && l1[i]@ == target_move(p.mailbox, f, t, piece, false);
                        assert(step_move(p.mailbox, f, t, piece) == target_move(p.mailbox, f, t, piece, false));
                        lemma_sides(self, t);
                    } else {
                        let t = choose|t: u64| #![trigger target_move(p.mailbox, f, t, piece, true)] t < 64 && bit(caps, t) && l2[i]@ == target_move(p.mailbox, f, t, piece, true);
                        lemma_sides(self, t);
                        assert(step_move(p.mailbox, f, t, piece) == target_move(p.mailbox, f, t, piece, true));
                    }
                }
                assert forall|fr: u64, to: u64| fr < 64 && to < 64 && bit(bb0, fr) && !bit(rest, fr)
                    && kind_attacks(kind, fr, to, occ) && !own_at(p, to as int) && (caps_only ==> enemy_at(p, to as int))
                    implies has_move(l2, lo, #[trigger] step_move(p.mailbox, fr, to, piece)) by {
                    if fr != f {
                        assert(!bit(prev, fr));
                        assert(has_move(l0, lo, step_move(p.mailbox, fr, to, piece)));
                        let i = choose|i: int| lo <= i < l0.len() && #[trigger] l0[i]@ == step_move(p.mailbox, fr, to, piece);
                        assert(l2[i] == l0[i]);
                    } else {
                        lemma_sides(self, to);
                        if p.mailbox[to as int] == 0 {
                            assert(!caps_only);
                            assert(bit(quiet, to));
                            assert(has_move(l1, l0.len() as int, target_move(p.mailbox, f, to, piece, false)));
                            let i = choose|i: int| l0.len() <= i < l1.len() && #[trigger] l1[i]@ == target_move(p.mailbox, f, to, piece, false);
                            assert(l2[i] == l1[i]);
                        } else {
                            assert(bit(caps, to));
                            assert(has_move(l2, l1.len() as int, target_move(p.mailbox, f, to, piece, true)));
                            let i = choose|i: int| l1.len() <= i < l2.len() && #[trigger] l2[i]@ == target_move(p.mailbox, f, to, piece, true);
                        }
                    }
                }
                // the new moves start on `f`, which no earlier move starts on; quiet moves and
                // captures differ in their flags
                assert(extends(l0, l1));
                assert(extends(l1, l2));
                assert forall|i: int, j: int| l0.len() <= i < l1.len() <= j < l2.len() implies #[trigger] l1[i]@ != #[trigger] l2[j]@ by {
                    let t1 = choose|t: u64| #![trigger target_move(p.mailbox, f, t, piece, false)] t < 64 && bit(quiet, t) && l1[i]@ == target_move(p.mailbox, f, t, piece, false);
                    let t2 = choose|t: u64| #![trigger target_move(p.mailbox, f, t, piece, true)] t < 64 && bit(caps, t) && l2[j]@ == target_move(p.mailbox, f, t, piece, true);
                    lemma_sides(self, t1);
                    lemma_sides(self, t2);
                    lemma_target_fields(p.mailbox, f, t1, piece, false);
                    lemma_target_fields(p.mailbox, f, t2, piece, true);
                    crate::position::lemma_flag_values();
                }
                lemma_distinct_join(l1, l2, l0.len() as int);
                assert forall|i: int, j: int| lo <= i < l0.len() <= j < l2.len() implies #[trigger] l0[i]@ != #[trigger] l2[j]@ by {
                    assert(popped_piece_move(p, occ, kind, bb0, prev, caps_only, l0[i]@));
                    let (fr, to) = choose|fr: u64, to: u64|
                        #![trigger step_move(p.mailbox, fr, to, piece_code(kind, p.side as int))]
                        fr < 64 && to < 64 && bit(bb0, fr) && !bit(prev, fr) && p.mailbox[fr as int] == piece_code(kind, p.side as int)
                            && kind_attacks(kind, fr, to, occ) && !own_at(p, to as int) && (caps_only ==> enemy_at(p, to as int))
                            && l0[i]@ == step_move(p.mailbox, fr, to, piece_code(kind, p.side as int));
                    lemma_sides(self, to);
                    lemma_step_fields(p.mailbox, fr, to, piece);
                    if j < l1.len() {
                        let t = choose|t: u64| #![trigger target_move(p.mailbox, f, t, piece, false)] t < 64 && bit(quiet, t) && l1[j]@ == target_move(p.mailbox, f, t, piece, false);
                        lemma_sides(self, t);
                        lemma_target_fields(p.mailbox, f, t, piece, false);
                        assert(l2[j] == l1[j]);
                    } else {
                        let t = choose|t: u64| #![trigger target_move(p.mailbox, f, t, piece, true)] t < 64 && bit(caps, t) && l2[j]@ == target_move(p.mailbox, f, t, piece, true);
                        lemma_sides(self, t);
                        lemma_target_fields(p.mailbox, f, t, piece, true);
                    }
                    assert(fr != f);
                }
                lemma_extends_trans(l0, l1, l2);
                lemma_distinct_join(l0, l2, lo);
            }
        }
        proof {
            assert forall|t: u64| t < 64 implies !#[trigger] bit(rest, t) by {
                crate::bits::lemma_bit_zero(t);
            }
            assert forall|i: int| lo <= i < list@.len() implies popped_piece_move(p, occ, kind, bb0, 0, caps_only, #[trigger] list@[i]@) by {
                assert(popped_piece_move(p, occ, kind, bb0, rest, caps_only, list@[i]@));
            }
            assert forall|fr: u64, to: u64| fr < 64 && to < 64 && p.mailbox[fr as int] == piece
                && kind_attacks(kind, fr, to, occ) && !own_at(p, to as int) && (caps_only ==> enemy_at(p, to as int))
                implies has_move(list@, lo, #[trigger] step_move(p.mailbox, fr, to, piece)) by {
                assert(bit(bb0, fr));
            }
        }
    }
}

impl Board {
    /// Turns the square-by-square description of the moves of `kind` into the move relation.
    proof fn lemma_kind_moves(&self, kind: u8, caps_only: bool, list: Seq<Move>, lo: int)
        requires
            self.wf(),
            is_attack_kind(kind),
            forall|i: int| lo <= i < list.len() ==> popped_piece_move(self@, self.occ@[2], kind, self.pieces@[piece_code(kind, self.side_to_move as int) - 1], 0, caps_only, #[trigger] list[i]@),
            forall|from: u64, to: u64| from < 64 && to < 64 && self.mailbox@[from as int] == piece_code(kind, self.side_to_move as int)
                && kind_attacks(kind, from, to, self.occ@[2]) && !own_at(self@, to as int) && (caps_only ==> enemy_at(self@, to as int))
                ==> has_move(list, lo, #[trigger] step_move(self.mailbox@, from, to, piece_code(kind, self.side_to_move as int))),
        ensures
            !caps_only ==> forall|i: int| lo <= i < list.len() ==> piece_move(self@, self.occ@[2], kind, #[trigger] list[i]@),
            !caps_only ==> forall|m: u32| piece_move(self@, self.occ@[2], kind, m) ==> #[trigger] has_move(list, lo, m),
            caps_only ==> forall|i: int| lo <= i < list.len() ==> piece_capture(self@, self.occ@[2], kind, #[trigger] list[i]@),
            caps_only ==> forall|m: u32| piece_capture(self@, self.occ@[2], kind, m) ==> #[trigger] has_move(list, lo, m),
    {
        let p = self@;
        let occ = self.occ@[2];
        let bb0 = self.pieces@[piece_code(kind, self.side_to_move as int) - 1];
        assert forall|i: int| lo <= i < list.len() implies (if caps_only { piece_capture(p, occ, kind, #[trigger] list[i]@) } else { piece_move(p, occ, kind, list[i]@) }) by {
            assert(popped_piece_move(p, occ, kind, bb0, 0, caps_only, list[i]@));
            let (fr, to) = choose|fr: u64, to: u64|
                #![trigger step_move(p.mailbox, fr, to, piece_code(kind, p.side as int))]
                fr < 64 && to < 64 && bit(bb0, fr) && !bit(0u64, fr) && p.mailbox[fr as int] == piece_code(kind, p.side as int)
                    && kind_attacks(kind, fr, to, occ) && !own_at(p, to as int) && (caps_only ==> enemy_at(p, to as int))
                    && list[i]@ == step_move(p.mailbox, fr, to, piece_code(kind, p.side as int));
        }
        if !caps_only {
            assert forall|m: u32| piece_move(p, occ, kind, m) implies #[trigger] has_move(list, lo, m) by {
                let (fr, to) = choose|fr: u64, to: u64|
                    #![trigger step_move(p.mailbox, fr, to, piece_code(kind, p.side as int))]
                    fr < 64 && to < 64 && p.mailbox[fr as int] == piece_code(kind, p.side as int)
                        && kind_attacks(kind, fr, to, occ) && !own_at(p, to as int) && m == step_move(p.mailbox, fr, to, piece_code(kind, p.side as int));
            }
        } else {
            assert forall|m: u32| piece_capture(p, occ, kind, m) implies #[trigger] has_move(list, lo, m) by {
                let (fr, to) = choose|fr: u64, to: u64|
                    #![trigger step_move(p.mailbox, fr, to, piece_code(kind, p.side as int))]
                    fr < 64 && to < 64 && p.mailbox[fr as int] == piece_code(kind, p.side as int)
                        && kind_attacks(kind, fr, to, occ) && enemy_at(p, to as int) && m == step_move(p.mailbox, fr, to, piece_code(kind, p.side as int));
                lemma_sides(self, to);
            }
        }
    }

    /// Appends the pseudo-legal moves of the side to move's knights.
    pub fn generate_knight_moves(&self, list: &mut MoveList)
        requires
            self.wf(),
        ensures
            extends(old(list)@, final(list)@),
            forall|i: int| old(list)@.len() <= i < final(list)@.len() ==> piece_move(self@, self.occ@[2], WN, #[trigger] final(list)@[i]@),
            forall|m: u32| piece_move(self@, self.occ@[2], WN, m) ==> #[trigger] has_move(final(list)@, old(list)@.len() as int, m),
            distinct_after(final(list)@, old(list)@.len() as int),
    {
        let ghost lo = list@.len() as int;
        self.generate_kind_moves(WN, false, list);
        proof {
            self.lemma_kind_moves(WN, false, list@, lo);
        }
    }

    /// Appends the pseudo-legal moves of the side to move's bishops.
    pub fn generate_bishop_moves(&self, list: &mut MoveList)
        requires
            self.wf(),
        ensures
            extends(old(list)@, final(list)@),
            forall|i: int| old(list)@.len() <= i < final(list)@.len() ==> piece_move(self@, self.occ@[2], WB, #[trigger] final(list)@[i]@),
            forall|m: u32| piece_move(self@, self.occ@[2], WB, m) ==> #[trigger] has_move(final(list)@, old(list)@.len() as int, m),
            distinct_after(final(list)@, old(list)@.len() as int),
    {
        let ghost lo = list@.len() as int;
        self.generate_kind_moves(WB, false, list);
        proof {
            self.lemma_kind_moves(WB, false, list@, lo);
        }
    }

    /// Appends the pseudo-legal moves of the side to move's rooks.
    pub fn generate_rook_moves(&self, list: &mut MoveList)
        requires
            self.wf(),
        ensures
            extends(old(list)@, final(list)@),
            forall|i: int| old(list)@.len() <= i < final(list)@.len() ==> piece_move(self@, self.occ@[2], WR, #[trigger] final(list)@[i]@),
            forall|m: u32| piece_move(self@, self.occ@[2], WR, m) ==> #[trigger] has_move(final(list)@, old(list)@.len() as int, m),
            distinct_after(final(list)@, old(list)@.len() as int),
    {
        let ghost lo = list@.len() as int;
        self.generate_kind_moves(WR, false, list);
        proof {
            self.lemma_kind_moves(WR, false, list@, lo);
        }
    }

    /// Appends the pseudo-legal moves of the side to move's queens.
    pub fn generate_queen_moves(&self, list: &mut MoveList)
        requires
            self.wf(),
        ensures
            extends(old(list)@, final(list)@),
            forall|i: int| old(list)@.len() <= i < final(list)@.len() ==> piece_move(self@, self.occ@[2], WQ, #[trigger] final(list)@[i]@),
            forall|m: u32| piece_move(self@, self.occ@[2], WQ, m) ==> #[trigger] has_move(final(list)@, old(list)@.len() as int, m),
            distinct_after(final(list)@, old(list)@.len() as int),
    {
        let ghost lo = list@.len() as int;
        self.generate_kind_moves(WQ, false, list);
        proof {
            self.lemma_kind_moves(WQ, false, list@, lo);
        }
    }

    /// Appends the pseudo-legal captures of the side to move's knights.
    pub fn generate_knight_captures(&self, list: &mut MoveList)
        requires
            self.wf(),
        ensures
            extends(old(list)@, final(list)@),
            forall|i: int| old(list)@.len() <= i < final(list)@.len() ==> piece_capture(self@, self.occ@[2], WN, #[trigger] final(list)@[i]@),
            forall|m: u32| piece_capture(self@, self.occ@[2], WN, m) ==> #[trigger] has_move(final(list)@, old(list)@.len() as int, m),
            distinct_after(final(list)@, old(list)@.len() as int),
    {
        let ghost lo = list@.len() as int;
        self.generate_kind_moves(WN, true, list);
        proof {
            self.lemma_kind_moves(WN, true, list@, lo);
        }
    }

    /// Appends the pseudo-legal captures of the side to move's bishops.
    pub fn generate_bishop_captures(&self, list: &mut MoveList)
        requires
            self.wf(),
        ensures
            extends(old(list)@, final(list)@),
            forall|i: int| old(list)@.len() <= i < final(list)@.len() ==> piece_capture(self@, self.occ@[2], WB, #[trigger] final(list)@[i]@),
            forall|m: u32| piece_capture(self@, self.occ@[2], WB, m) ==> #[trigger] has_move(final(list)@, old(list)@.len() as int, m),
            distinct_after(final(list)@, old(list)@.len() as int),
    {
        let ghost lo = list@.len() as int;
        self.generate_kind_moves(WB, true, list);
        proof {
            self.lemma_kind_moves(WB, true, list@, lo);
        }
    }

    /// Appends the pseudo-legal captures of the side to move's rooks.
    pub fn generate_rook_captures(&self, list: &mut MoveList)
        requires
            self.wf(),
        ensures
            extends(old(list)@, final(list)@),
            forall|i: int| old(list)@.len() <= i < final(list)@.len() ==> piece_capture(self@, self.occ@[2], WR, #[trigger] final(list)@[i]@),
            forall|m: u32| piece_capture(self@, self.occ@[2], WR, m) ==> #[trigger] has_move(final(list)@, old(list)@.len() as int, m),
            distinct_after(final(list)@, old(list)@.len() as int),
    {
        let ghost lo = list@.len() as int;
        self.generate_kind_moves(WR, true, list);
        proof {
            self.lemma_kind_moves(WR, true, list@, lo);
        }
    }

    /// Appends the pseudo-legal captures of the side to move's queens.
    pub fn generate_queen_captures(&self, list: &mut MoveList)
        requires
            self.wf(),
        ensures
            extends(old(list)@, final(list)@),
            forall|i: int| old(list)@.len() <= i < final(list)@.len() ==> piece_capture(self@, self.occ@[2], WQ, #[trigger] final(list)@[i]@),
            forall|m: u32| piece_capture(self@, self.occ@[2], WQ, m) ==> #[trigger] has_move(final(list)@, old(list)@.len() as int, m),
            distinct_after(final(list)@, old(list)@.len() as int),
    {
        let ghost lo = list@.len() as int;
        self.generate_kind_moves(WQ, true, list);
        proof {
            self.lemma_kind_moves(WQ, true, list@, lo);
        }
    }
}

/// A castling move the side to move may try: its right is kept and the squares between
/// king and rook are empty (whether the king passes through check is decided later).
pub open spec fn castle_move(p: Position, m: u32) -> bool {
    let mb = p.mailbox;
    let c = p.castling;
    if p.side == 0 {
        (c & CASTLE_WK != 0 && mb[4] == WK && mb[7] == WR && mb[5] == 0 && mb[6] == 0 && m == pack_move(4, 6, WK, 0, 0, FLAG_CASTLE))
            || (c & CASTLE_WQ != 0 && mb[4] == WK && mb[0] == WR && mb[1] == 0 && mb[2] == 0 && mb[3] == 0 && m == pack_move(4, 2, WK, 0, 0, FLAG_CASTLE))
    } else {
        (c & CASTLE_BK != 0 && mb[60] == BK && mb[63] == BR && mb[61] == 0 && mb[62] == 0 && m == pack_move(60, 62, BK, 0, 0, FLAG_CASTLE))
            || (c & CASTLE_BQ != 0 && mb[60] == BK && mb[56] == BR && mb[57] == 0 && mb[58] == 0 && mb[59] == 0 && m == pack_move(60, 58, BK, 0, 0, FLAG_CASTLE))
    }
}

/// A non-empty square set and the mask test `occ & mask == 0` agree on the listed squares.
proof fn lemma_empty_masks(occ: u64)
    ensures
        (occ & WK_EMPTY == 0) <==> (!bit(occ, 5) && !bit(occ, 6)),
        (occ & WQ_EMPTY == 0) <==> (!bit(occ, 1) && !bit(occ, 2) && !bit(occ, 3)),
        (occ & BK_EMPTY == 0) <==> (!bit(occ, 61) && !bit(occ, 62)),
        (occ & BQ_EMPTY == 0) <==> (!bit(occ, 57) && !bit(occ, 58) && !bit(occ, 59)),
{
    assert((occ & 0x60u64 == 0) <==> ((occ >> 5u64) & 1u64 != 1u64 && (occ >> 6u64) & 1u64 != 1u64)) by (bit_vector);
    assert((occ & 0x0Eu64 == 0) <==> ((occ >> 1u64) & 1u64 != 1u64 && (occ >> 2u64) & 1u64 != 1u64 && (occ >> 3u64) & 1u64 != 1u64)) by (bit_vector);
    assert((occ & 0x6000_0000_0000_0000u64 == 0) <==> ((occ >> 61u64) & 1u64 != 1u64 && (occ >> 62u64) & 1u64 != 1u64)) by (bit_vector);
    assert((occ & 0x0E00_0000_0000_0000u64 == 0) <==> ((occ >> 57u64) & 1u64 != 1u64 && (occ >> 58u64) & 1u64 != 1u64 && (occ >> 59u64) & 1u64 != 1u64)) by (bit_vector);
}

/// The king of the side to move on `from`, the lowest square holding one, can take an
/// enemy piece on `to`.
pub open spec fn king_capture_from(p: Position, from: u64, to: u64) -> bool {
    let king = piece_code(WK, p.side as int);
    &&& from < 64
    &&& to < 64
    &&& p.mailbox[from as int] == king
    &&& forall|u: u64| u < from ==> p.mailbox[u as int] != king
    &&& bit(king_attacks_spec(from), to)
    &&& enemy_at(p, to as int)
}

/// A capture by the king of the side to move that stands on the lowest square.
pub open spec fn king_capture(p: Position, m: u32) -> bool {
    exists|from: u64, to: u64|
        #![trigger step_move(p.mailbox, from, to, piece_code(WK, p.side as int))]
        king_capture_from(p, from, to) && m == step_move(p.mailbox, from, to, piece_code(WK, p.side as int))
}

/// The castling moves, in the order they are generated: king side, then queen side, each
/// when its right is kept, king and rook stand on their starting squares and the squares
/// between them are empty (attacks are not looked at here).
pub open spec fn castle_list(white: bool, castling: u8, occ: u64, mb: Seq<u8>) -> Seq<u32> {
    if white {
        (if castling & CASTLE_WK != 0 && mb[4] == WK && mb[7] == WR && occ & WK_EMPTY == 0 {
            seq![pack_move(4, 6, WK, 0, 0, FLAG_CASTLE)]
        } else {
            Seq::empty()
        }) + (if castling & CASTLE_WQ != 0 && mb[4] == WK && mb[0] == WR && occ & WQ_EMPTY == 0 {
            seq![pack_move(4, 2, WK, 0, 0, FLAG_CASTLE)]
        } else {
            Seq::empty()
        })
    } else {
        (if castling & CASTLE_BK != 0 && mb[60] == BK && mb[63] == BR && occ & BK_EMPTY == 0 {
            seq![pack_move(60, 62, BK, 0, 0, FLAG_CASTLE)]
        } else {
            Seq::empty()
        }) + (if castling & CASTLE_BQ != 0 && mb[60] == BK && mb[56] == BR && occ & BQ_EMPTY == 0 {
            seq![pack_move(60, 58, BK, 0, 0, FLAG_CASTLE)]
        } else {
            Seq::empty()
        })
    }
}

impl Board {
    /// Appends the castling moves whose right is kept, whose king and rook stand on their
    /// starting squares, and whose path is empty.
    pub fn generate_castling(&self, list: &mut MoveList)
        requires
            self.wf(),
        ensures
            final(list)@.len() == old(list)@.len() + castle_list(self.side_to_move == WHITE as u8, self.castling, self.occ[BOTH as int], self.mailbox@).len(),
            forall|i: int| 0 <= i < castle_list(self.side_to_move == WHITE as u8, self.castling, self.occ[BOTH as int], self.mailbox@).len()
                ==> #[trigger] final(list)@[old(list)@.len() + i]@ == castle_list(self.side_to_move == WHITE as u8, self.castling, self.occ[BOTH as int], self.mailbox@)[i],
            extends(old(list)@, final(list)@),
            forall|i: int| old(list)@.len() <= i < final(list)@.len() ==> castle_move(self@, #[trigger] final(list)@[i]@),
            forall|m: u32| castle_move(self@, m) ==> #[trigger] has_move(final(list)@, old(list)@.len() as int, m),
            distinct_after(final(list)@, old(list)@.len() as int),
    {
        let ghost l0 = list@;
        proof {
            crate::position::lemma_flag_values();
            lemma_pack_fields(4, 6, WK, 0, 0, FLAG_CASTLE);
            lemma_pack_fields(4, 2, WK, 0, 0, FLAG_CASTLE);
            lemma_pack_fields(60, 62, BK, 0, 0, FLAG_CASTLE);
            lemma_pack_fields(60, 58, BK, 0, 0, FLAG_CASTLE);
        }
        let white = self.side_to_move == WHITE as u8;
        let occ = self.occ[BOTH];
        proof {
            lemma_empty_masks(occ);
            lemma_sides(self, 1);
            lemma_sides(self, 2);
            lemma_sides(self, 3);
            lemma_sides(self, 5);
            lemma_sides(self, 6);
            lemma_sides(self, 57);
            lemma_sides(self, 58);
            lemma_sides(self, 59);
            lemma_sides(self, 61);
            lemma_sides(self, 62);
        }
        if white {
            if self.castling & CASTLE_WK != 0 && self.mailbox[4] == WK && self.mailbox[7] == WR && occ & WK_EMPTY == 0 {
                list.push(Move::new(4, 6, WK, 0, 0, FLAG_CASTLE));
            }
            let ghost l1 = list@;
            if self.castling & CASTLE_WQ != 0 && self.mailbox[4] == WK && self.mailbox[0] == WR && occ & WQ_EMPTY == 0 {
                list.push(Move::new(4, 2, WK, 0, 0, FLAG_CASTLE));
            }
            proof {
                assert(list@.subrange(0, l0.len() as int) =~= l0);
                assert forall|m: u32| castle_move(self@, m) implies #[trigger] has_move(list@, l0.len() as int, m) by {
                    if m == pack_move(4, 6, WK, 0, 0, FLAG_CASTLE) && self.castling & CASTLE_WK != 0 && self.mailbox[4] == WK && self.mailbox[7] == WR && occ & WK_EMPTY == 0 {
                        assert(list@[l0.len() as int]@ == m);
                    } else {
                        assert(list@[l1.len() as int]@ == m);
                    }
                }
            }
        } else {
            if self.castling & CASTLE_BK != 0 && self.mailbox[60] == BK && self.mailbox[63] == BR && occ & BK_EMPTY == 0 {
                list.push(Move::new(60, 62, BK, 0, 0, FLAG_CASTLE));
            }
            let ghost l1 = list@;
            if self.castling & CASTLE_BQ != 0 && self.mailbox[60] == BK && self.mailbox[56] == BR && occ & BQ_EMPTY == 0 {
                list.push(Move::new(60, 58, BK, 0, 0, FLAG_CASTLE));
            }
            proof {
                assert(list@.subrange(0, l0.len() as int) =~= l0);
                assert forall|m: u32| castle_move(self@, m) implies #[trigger] has_move(list@, l0.len() as int, m) by {
                    if m == pack_move(60, 62, BK, 0, 0, FLAG_CASTLE) && self.castling & CASTLE_BK != 0 && self.mailbox[60] == BK && self.mailbox[63] == BR && occ & BK_EMPTY == 0 {
                        assert(list@[l0.len() as int]@ == m);
                    } else {
                        assert(list@[l1.len() as int]@ == m);
                    }
                }
            }
        }
    }

    /// Appends the king's pseudo-legal moves: steps to squares without a piece of its own
    /// side, then castling.
    pub fn generate_king_moves(&self, list: &mut MoveList)
        requires
            self.wf(),
        ensures
            extends(old(list)@, final(list)@),
            forall|i: int| old(list)@.len() <= i < final(list)@.len() ==> (piece_move(self@, self.occ@[2], WK, #[trigger] final(list)@[i]@)
                || castle_move(self@, final(list)@[i]@)),
            forall|m: u32| (piece_move(self@, self.occ@[2], WK, m) || castle_move(self@, m)) ==> #[trigger] has_move(final(list)@, old(list)@.len() as int, m),
            distinct_after(final(list)@, old(list)@.len() as int),
    {
        let ghost l0 = list@;
        self.generate_kind_moves(WK, false, list);
        proof {
            self.lemma_kind_moves(WK, false, list@, l0.len() as int);
        }
        let ghost l1 = list@;
        self.generate_castling(list);
        proof {
            lemma_extends_trans(l0, l1, list@);
            assert forall|i: int| l0.len() <= i < list@.len() implies (piece_move(self@, self.occ@[2], WK, #[trigger] list@[i]@)
                || castle_move(self@, list@[i]@)) by {
                if i < l1.len() {
                    lemma_extends_index(l1, list@, i);
                }
            }
            assert forall|m: u32| (piece_move(self@, self.occ@[2], WK, m) || castle_move(self@, m)) implies #[trigger] has_move(list@, l0.len() as int, m) by {
                if piece_move(self@, self.occ@[2], WK, m) {
                    assert(has_move(l1, l0.len() as int, m));
                    lemma_has_move_extends(l1, list@, l0.len() as int, m);
                } else {
                    assert(has_move(list@, l1.len() as int, m));
                    lemma_has_move_lower(list@, l0.len() as int, l1.len() as int, m);
                }
            }
            // king steps carry no castling flag
            assert forall|i: int, j: int| l0.len() <= i < l1.len() <= j < list@.len() implies #[trigger] l1[i]@ != #[trigger] list@[j]@ by {
                let p = self@;
                let occ = self.occ@[2];
                assert(piece_move(p, occ, WK, l1[i]@));
                let (fr, to) = choose|fr: u64, to: u64|
                    #![trigger step_move(p.mailbox, fr, to, piece_code(WK, p.side as int))]
                    fr < 64 && to < 64 && p.mailbox[fr as int] == piece_code(WK, p.side as int)
                        && kind_attacks(WK, fr, to, occ) && !own_at(p, to as int) && l1[i]@ == step_move(p.mailbox, fr, to, piece_code(WK, p.side as int));
                lemma_sides(self, to);
                lemma_step_fields(p.mailbox, fr, to, piece_code(WK, p.side as int));
                assert(castle_move(p, list@[j]@));
                crate::position::lemma_flag_values();
                lemma_pack_fields(4, 6, WK, 0, 0, FLAG_CASTLE);
                lemma_pack_fields(4, 2, WK, 0, 0, FLAG_CASTLE);
                lemma_pack_fields(60, 62, BK, 0, 0, FLAG_CASTLE);
                lemma_pack_fields(60, 58, BK, 0, 0, FLAG_CASTLE);
            }
            lemma_distinct_join(l1, list@, l0.len() as int);
        }
    }

    /// Appends the captures of the king on the lowest square holding one; a king is only
    /// looked for when the side to move has one.
    pub fn generate_king_captures(&self, list: &mut MoveList)
        requires
            self.wf(),
        ensures
            extends(old(list)@, final(list)@),
            forall|i: int| old(list)@.len() <= i < final(list)@.len() ==> king_capture(self@, #[trigger] final(list)@[i]@),
            forall|m: u32| king_capture(self@, m) ==> #[trigger] has_move(final(list)@, old(list)@.len() as int, m),
            distinct_after(final(list)@, old(list)@.len() as int),
    {
        let ghost p = self@;
        let ghost l0 = list@;
        let white = self.side_to_move == WHITE as u8;
        let piece = if white { WK } else { BK };
        let own = if white { self.occ[WHITE] } else { self.occ[BLACK] };
        let enemy = if white { self.occ[BLACK] } else { self.occ[WHITE] };
        let king = self.pieces[(piece - 1) as usize];
        proof {
            assert(piece == piece_code(WK, p.side as int));
            assert(piece_bb_ok(king, p.mailbox, piece));
        }
        if king == 0 {
            proof {
                assert(list@.subrange(0, l0.len() as int) =~= l0);
                assert forall|from: u64| from < 64 implies self.mailbox@[from as int] != piece by {
                    crate::bits::lemma_bit_zero(from);
                    assert(!bit(king, from));
                }
                assert forall|m: u32| king_capture(p, m) implies #[trigger] has_move(list@, l0.len() as int, m) by {
                    let (fr, to) = choose|fr: u64, to: u64| #![trigger step_move(p.mailbox, fr, to, piece_code(WK, p.side as int))]
                        king_capture_from(p, fr, to) && m == step_move(p.mailbox, fr, to, piece_code(WK, p.side as int));
                    assert(self.mailbox@[fr as int] != piece);
                }
            }
            return;
        }
        let from = lsb(king);
        let caps = king_attacks(from) & !own & enemy;
        self.push_caps(from, caps, piece, list);
        proof {
            let f = from as u64;
            assert forall|t: u64| t < 64 implies (#[trigger] bit(caps, t) <==> (bit(king_attacks_spec(f), t) && enemy_at(p, t as int))) by {
                lemma_bit_and(king_attacks_spec(f) & !own, enemy, t);
                lemma_bit_and(king_attacks_spec(f), !own, t);
                lemma_bit_not(own, t);
                lemma_sides(self, t);
            }
            assert forall|u: u64| u < f implies p.mailbox[u as int] != piece by {
                assert(!bit(king, u));
            }
            assert forall|i: int| l0.len() <= i < list@.len() implies king_capture(p, #[trigger] list@[i]@) by {
                let t = choose|t: u64| #![trigger target_move(p.mailbox, f, t, piece, true)] t < 64 && bit(caps, t) && list@[i]@ == target_move(p.mailbox, f, t, piece, true);
                lemma_sides(self, t);
                assert(step_move(p.mailbox, f, t, piece) == target_move(p.mailbox, f, t, piece, true));
            }
            assert forall|fr: u64, to: u64| fr < 64 && to < 64 && self.mailbox@[fr as int] == piece
                && (forall|u: u64| u < fr ==> self.mailbox@[u as int] != piece)
                && bit(king_attacks_spec(fr), to) && enemy_at(p, to as int)
                implies has_move(list@, l0.len() as int, #[trigger] step_move(self.mailbox@, fr, to, piece)) by {
                assert(bit(king, fr));
                if fr != f {
                    if fr < f {
                        assert(!bit(king, fr));
                    } else {
                        assert(bit(king, f));
                        assert(self.mailbox@[f as int] == piece);
                    }
                }
                lemma_sides(self, to);
                assert(step_move(p.mailbox, f, to, piece) == target_move(p.mailbox, f, to, piece, true));
            }
            assert forall|m: u32| king_capture(p, m) implies #[trigger] has_move(list@, l0.len() as int, m) by {
                let (fr, to) = choose|fr: u64, to: u64| #![trigger step_move(p.mailbox, fr, to, piece_code(WK, p.side as int))]
                    king_capture_from(p, fr, to) && m == step_move(p.mailbox, fr, to, piece_code(WK, p.side as int));
                assert(has_move(list@, l0.len() as int, step_move(self.mailbox@, fr, to, piece)));
            }
        }
    }
}

/// Extending is transitive.
pub proof fn lemma_extends_trans(a: Seq<Move>, b: Seq<Move>, c: Seq<Move>)
    requires
        extends(a, b),
        extends(b, c),
    ensures
        extends(a, c),
{
    assert(c.subrange(0, a.len() as int) =~= a) by {
        assert forall|i: int| 0 <= i < a.len() implies c.subrange(0, a.len() as int)[i] == a[i] by {
            assert(c.subrange(0, b.len() as int)[i] == b[i]);
            assert(b.subrange(0, a.len() as int)[i] == a[i]);
        }
    }
}

/// An extension keeps the entries it extends.
pub proof fn lemma_extends_index(a: Seq<Move>, b: Seq<Move>, i: int)
    requires
        extends(a, b),
        0 <= i < a.len(),
    ensures
        b[i] == a[i],
{
    assert(b.subrange(0, a.len() as int)[i] == a[i]);
}

/// A move found in a list is still found after the list is extended.
pub proof fn lemma_has_move_extends(a: Seq<Move>, b: Seq<Move>, lo: int, m: u32)
    requires
        extends(a, b),
        0 <= lo,
        has_move(a, lo, m),
    ensures
        has_move(b, lo, m),
{
    let i = choose|i: int| lo <= i < a.len() && #[trigger] a[i]@ == m;
    lemma_extends_index(a, b, i);
}

/// A move found from position `hi` on is found from any lower position.
pub proof fn lemma_has_move_lower(a: Seq<Move>, lo: int, hi: int, m: u32)
    requires
        lo <= hi,
        has_move(a, hi, m),
    ensures
        has_move(a, lo, m),
{
    let i = choose|i: int| hi <= i < a.len() && #[trigger] a[i]@ == m;
}

} // verus!
