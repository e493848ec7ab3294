//! Perft: counting the leaves of the legal move tree, the standard test of move generation.
use vstd::prelude::*;
use crate::board::{extras_kept, Board, Position, BK, BP, BR, WK, WP, WR};
use crate::legality::{attacked_by, has_king, in_check, king_of, king_square, legal_move, lowest_king_at, occ_of};
use crate::makemove::{ep_victim, lemma_unmake_undoes_make, make_spec, moved_mailbox};
use crate::movegen::{castle_move, has_move};
use crate::moves::{lemma_pack_fields, m_from, m_is_castle, m_is_double, m_is_ep, m_piece, m_to, pack_move, Move, MoveList, FLAG_CASTLE, FLAG_DOUBLE};
use crate::pawns::{fwd, on_start_rank, pawn_of};
use crate::position::{lemma_flag_values, lemma_pseudo_makeable, lemma_pseudo_shape, sound_position};

verus! {

/// What perft needs of a position to look `depth` plies below it: a sound position, a king
/// for each side, the side that has just moved not left in check, and room in both move
/// counters for `depth` more moves.
pub open spec fn perft_ready(p: Position, depth: nat) -> bool {
    &&& sound_position(p)
    &&& has_king(p.mailbox, 1 - p.side)
    &&& !in_check(p.mailbox, 1 - p.side)
    &&& p.halfmove + depth <= 65535
    &&& p.fullmove + depth <= 65535
}

/// A side with a king has a lowest one.
pub proof fn lemma_lowest_king(mb: Seq<u8>, side: int)
    requires
        mb.len() == 64,
        has_king(mb, side),
    ensures
        lowest_king_at(mb, side, king_square(mb, side)),
{
    lemma_first_king(mb, side, 0);
}

proof fn lemma_first_king(mb: Seq<u8>, side: int, n: int)
    requires
        mb.len() == 64,
        0 <= n <= 64,
        has_king(mb, side),
        forall|u: int| 0 <= u < n ==> #[trigger] mb[u] != king_of(side),
    ensures
        lowest_king_at(mb, side, king_square(mb, side)),
    decreases 64 - n,
{
    if n == 64 {
        let s = choose|s: int| 0 <= s < 64 && #[trigger] mb[s] == king_of(side);
        assert(mb[s] != king_of(side));
    } else if mb[n] == king_of(side) {
        assert(lowest_king_at(mb, side, n));
    } else {
        lemma_first_king(mb, side, n + 1);
    }
}

/// Making a legal move (or legal capture) of a position ready for `d + 1` plies gives a
/// position ready for `d`: legal moves keep positions sound, keep both kings, and never leave
/// the mover in check.
pub proof fn lemma_legal_keeps_ready(p: Position, m: u32, d: nat)
    requires
        d >= 1,
        perft_ready(p, d + 1),
        legal_move(p, m) || crate::legality::legal_capture(p, m),
        crate::board::mailbox_ok(make_spec(p, m).mailbox),
        make_spec(p, m).castling < 16,
        make_spec(p, m).ep <= 64,
    ensures
        perft_ready(make_spec(p, m), d),
{
    let mb = p.mailbox;
    let side = p.side as int;
    let occ = occ_of(mb);
    let q = make_spec(p, m);
    let from = m_from(m) as int;
    let to = m_to(m) as int;
    if legal_move(p, m) {
        lemma_pseudo_makeable(p, occ, m);
    } else {
        crate::position::lemma_capture_makeable(p, occ, m);
    }
    lemma_pseudo_shape(p, occ, m);
    crate::board::lemma_side_flip(p.side);
    crate::moves::lemma_fields_in_range(m);
    lemma_flag_values();
    assert(q.side as int == 1 - side);
    assert(q.mailbox == moved_mailbox(mb, m));
    // The other side keeps its king: the king on its lowest square is not attacked, so no
    // move lands on it.
    lemma_lowest_king(mb, 1 - side);
    let k = king_square(mb, 1 - side);
    assert(mb[k] == king_of(1 - side));
    assert(k != from);
    if k == to && !m_is_castle(m) {
        assert(attacked_by(mb, occ, to as u64, side));
        assert(in_check(mb, 1 - side));
    }
    if m_is_ep(m) {
        assert(mb[ep_victim(m_piece(m), m_to(m))] == pawn_of(1 - side));
    }
    if m_is_castle(m) {
        assert(castle_move(p, m));
        if side == 0 {
            if m == pack_move(4, 6, WK, 0, 0, FLAG_CASTLE) {
                lemma_pack_fields(4, 6, WK, 0, 0, FLAG_CASTLE);
            } else {
                lemma_pack_fields(4, 2, WK, 0, 0, FLAG_CASTLE);
            }
        } else {
            if m == pack_move(60, 62, BK, 0, 0, FLAG_CASTLE) {
                lemma_pack_fields(60, 62, BK, 0, 0, FLAG_CASTLE);
            } else {
                lemma_pack_fields(60, 58, BK, 0, 0, FLAG_CASTLE);
            }
        }
    }
    assert(q.mailbox[k] == king_of(1 - side));
    assert(has_king(q.mailbox, q.side as int));
}

/// `s` lists each legal move of `p` exactly once.
pub open spec fn legal_seq(p: Position, s: Seq<u32>) -> bool {
    &&& s.no_duplicates()
    &&& forall|i: int| 0 <= i < s.len() ==> legal_move(p, #[trigger] s[i])
    &&& forall|m: u32| legal_move(p, m) ==> s.contains(m)
}

/// The legal moves of `p`, each once, in some order.
pub open spec fn legal_moves_of(p: Position) -> Seq<u32> {
    choose|s: Seq<u32>| legal_seq(p, s)
}

/// The number of leaves of the legal move tree of `p`, `d` plies deep: one for the position
/// itself at depth 0, else the sum over its legal moves of the count one ply less deep.
pub open spec fn perft_count(p: Position, d: nat) -> int
    decreases d, 0nat,
{
    if d == 0 {
        1
    } else {
        children_count(p, legal_moves_of(p), (d - 1) as nat)
    }
}

/// The leaf counts, `e` plies deep, below the moves `s` of `p`, added up.
pub open spec fn children_count(p: Position, s: Seq<u32>, e: nat) -> int
    decreases e, s.len() + 1,
{
    if s.len() == 0 {
        0
    } else {
        children_count(p, s.drop_last(), e) + perft_count(make_spec(p, s.last()), e)
    }
}

/// The step that adds one move's leaf count.
pub open spec fn count_step(p: Position, e: nat) -> spec_fn(int, u32) -> int {
    |acc: int, m: u32| acc + perft_count(make_spec(p, m), e)
}

/// Adding up the leaf counts is a fold.
proof fn lemma_children_fold(p: Position, s: Seq<u32>, e: nat)
    ensures
        children_count(p, s, e) == s.fold_left(0int, count_step(p, e)),
    decreases s.len(),
{
    if s.len() > 0 {
        lemma_children_fold(p, s.drop_last(), e);
    }
}

/// The sum of the leaf counts does not depend on the order of the moves.
proof fn lemma_children_permutation(p: Position, a: Seq<u32>, b: Seq<u32>, e: nat)
    requires
        a.no_duplicates(),
        b.no_duplicates(),
        forall|m: u32| a.contains(m) <==> b.contains(m),
    ensures
        children_count(p, a, e) == children_count(p, b, e),
{
    broadcast use vstd::seq_lib::group_to_multiset_ensures;
    a.lemma_multiset_has_no_duplicates();
    b.lemma_multiset_has_no_duplicates();
    assert(a.to_multiset() =~= b.to_multiset()) by {
        assert forall|m: u32| a.to_multiset().count(m) == b.to_multiset().count(m) by {
            if a.contains(m) {
                assert(a.to_multiset().contains(m));
                assert(b.to_multiset().contains(m));
            }
        }
    }
    let f = count_step(p, e);
    assert(vstd::seq_lib::commutative_foldl(f));
    vstd::seq_lib::lemma_fold_left_permutation(a, b, f, 0int);
    lemma_children_fold(p, a, e);
    lemma_children_fold(p, b, e);
}

/// A list of the legal moves without repeats counts the same leaves as any other.
pub proof fn lemma_count_any_order(p: Position, s: Seq<u32>, e: nat)
    requires
        legal_seq(p, s),
    ensures
        children_count(p, s, e) == perft_count(p, e + 1),
{
    let c = legal_moves_of(p);
    assert(legal_seq(p, c));
    assert forall|m: u32| s.contains(m) <==> c.contains(m) by {
        if s.contains(m) {
            let i = choose|i: int| 0 <= i < s.len() && s[i] == m;
            assert(legal_move(p, s[i]));
        }
        if c.contains(m) {
            let i = choose|i: int| 0 <= i < c.len() && c[i] == m;
            assert(legal_move(p, c[i]));
        }
    }
    lemma_children_permutation(p, s, c, e);
}

/// At depth one every move is one leaf.
proof fn lemma_children_leaves(p: Position, s: Seq<u32>)
    ensures
        children_count(p, s, 0) == s.len(),
    decreases s.len(),
{
    if s.len() > 0 {
        lemma_children_leaves(p, s.drop_last());
        assert(perft_count(make_spec(p, s.last()), 0) == 1);
    }
}

impl Board {
    /// The number of leaves of the legal move tree `depth` plies deep; the board is left as
    /// it was. Leaf counts are added modulo 2^64.
    pub fn perft(&mut self, depth: u8) -> (r: u64)
        requires
            old(self).wf(),
            depth > 0 ==> perft_ready(old(self)@, depth as nat),
        ensures
            final(self).wf(),
            final(self)@ == old(self)@,
            extras_kept(*old(self), *final(self)),
            final(self).pieces@ == old(self).pieces@,
            final(self).occ@ == old(self).occ@,
            r as int == perft_count(old(self)@, depth as nat) % 0x1_0000_0000_0000_0000,
        decreases depth,
    {
        if depth == 0 {
            return 1;
        }
        let ghost p = self@;
        let ghost b0 = *self;
        let mut list = MoveList::new();
        self.generate_legal_moves(&mut list);
        proof {
            assert(list@.subrange(0, 0) =~= Seq::<Move>::empty());
            assert(legal_list(p, list@)) by {
                assert forall|m: u32| legal_move(p, m) implies exists|i: int| 0 <= i < list@.len() && #[trigger] list@[i]@ == m by {
                    assert(has_move(list@, 0, m));
                }
            }
        }
        let ghost moves = list@.map_values(|mv: Move| mv@);
        proof {
            assert forall|i: int| 0 <= i < moves.len() implies legal_move(p, #[trigger] moves[i]) by {
                assert(legal_move(p, list@[i]@));
            }
            assert forall|m: u32| legal_move(p, m) implies moves.contains(m) by {
                assert(has_move(list@, 0, m));
                let i = choose|i: int| 0 <= i < list@.len() && #[trigger] list@[i]@ == m;
                assert(moves[i] == m);
            }
            assert(moves.no_duplicates()) by {
                assert forall|i: int, j: int| 0 <= i < moves.len() && 0 <= j < moves.len() && i != j implies moves[i] != moves[j] by {
                    if i < j {
                        assert(list@[i]@ != list@[j]@);
                    } else {
                        assert(list@[j]@ != list@[i]@);
                    }
                }
            }
            lemma_count_any_order(p, moves, (depth - 1) as nat);
        }
        if depth == 1 {
            proof {
                lemma_children_leaves(p, moves);
            }
            return list.len() as u64;
        }
        let mut nodes = 0u64;
        let n = list.len();
        let mut i: usize = 0;
        while i < n
            invariant
                b0.wf(),
                b0@ == p,
                perft_ready(p, depth as nat),
                depth >= 2,
                self.wf(),
                self@ == p,
                extras_kept(b0, *self),
                self.pieces@ == b0.pieces@,
                self.occ@ == b0.occ@,
                n == list@.len(),
                i <= n,
                forall|j: int| 0 <= j < n ==> legal_move(p, #[trigger] list@[j]@),
                moves == list@.map_values(|mv: Move| mv@),
                nodes as int == children_count(p, moves.take(i as int), (depth - 1) as nat) % 0x1_0000_0000_0000_0000,
            decreases n - i,
        {
            let mv = list.get(i);
            let ghost m = mv@;
            assert(legal_move(p, list@[i as int]@));
            proof {
                lemma_pseudo_makeable(p, occ_of(p.mailbox), m);
                lemma_unmake_undoes_make(p, m);
            }
            let undo = self.make_move(mv);
            proof {
                lemma_legal_keeps_ready(p, m, (depth - 1) as nat);
            }
            let sub = self.perft(depth - 1);
            let ghost before = nodes;
            nodes = nodes.wrapping_add(sub);
            self.unmake_move(mv, undo);
            proof {
                crate::legality::lemma_same_bitboards(*self, b0);
                let e = (depth - 1) as nat;
                let t = moves.take(i + 1);
                assert(t.drop_last() =~= moves.take(i as int));
                assert(t.last() == m);
                let a = children_count(p, moves.take(i as int), e);
                let c = perft_count(make_spec(p, m), e);
                assert(children_count(p, t, e) == a + c);
                vstd::arithmetic::div_mod::lemma_add_mod_noop(a, c, 0x1_0000_0000_0000_0000);
            }
            i += 1;
        }
        proof {
            assert(moves.take(n as int) =~= moves);
        }
        nodes
    }
}

/// `s` lists the legal moves of `p`: each entry is legal and each legal move is an entry.
pub open spec fn legal_list(p: Position, s: Seq<Move>) -> bool {
    &&& forall|i: int| 0 <= i < s.len() ==> legal_move(p, #[trigger] s[i]@)
    &&& forall|m: u32| legal_move(p, m) ==> exists|i: int| 0 <= i < s.len() && #[trigger] s[i]@ == m
}

/// The leaf counts of a divided perft added up modulo 2^64.
pub open spec fn divide_total(s: Seq<(Move, u64)>) -> u64
    decreases s.len(),
{
    if s.len() == 0 {
        0
    } else {
        ((divide_total(s.drop_last()) + s.last().1) % 0x1_0000_0000_0000_0000) as u64
    }
}

impl Board {
    /// Perft split by first move: each legal move with the number of leaves below it, and
    /// the total of those counts (modulo 2^64). The board is left as it was.
    pub fn perft_divide(&mut self, depth: u8) -> (r: (Vec<(Move, u64)>, u64))
        requires
            old(self).wf(),
            depth >= 1,
            perft_ready(old(self)@, depth as nat),
        ensures
            final(self).wf(),
            final(self)@ == old(self)@,
            extras_kept(*old(self), *final(self)),
            legal_list(old(self)@, r.0@.map_values(|e: (Move, u64)| e.0)),
            r.1 == divide_total(r.0@),
            forall|i: int| 0 <= i < r.0@.len() ==> (#[trigger] r.0@[i]).1 as int == perft_count(
                make_spec(old(self)@, r.0@[i].0@),
                (depth - 1) as nat,
            ) % 0x1_0000_0000_0000_0000,
            r.1 as int == perft_count(old(self)@, depth as nat) % 0x1_0000_0000_0000_0000,
    {
        let ghost p = self@;
        let ghost b0 = *self;
        let mut list = MoveList::new();
        self.generate_legal_moves(&mut list);
        let ghost moves = list@.map_values(|mv: Move| mv@);
        proof {
            assert forall|i: int| 0 <= i < moves.len() implies legal_move(p, #[trigger] moves[i]) by {
                assert(legal_move(p, list@[i]@));
            }
            assert forall|m: u32| legal_move(p, m) implies moves.contains(m) by {
                assert(has_move(list@, 0, m));
                let i = choose|i: int| 0 <= i < list@.len() && #[trigger] list@[i]@ == m;
                assert(moves[i] == m);
            }
            assert(moves.no_duplicates()) by {
                assert forall|i: int, j: int| 0 <= i < moves.len() && 0 <= j < moves.len() && i != j implies moves[i] != moves[j] by {
                    if i < j {
                        assert(list@[i]@ != list@[j]@);
                    } else {
                        assert(list@[j]@ != list@[i]@);
                    }
                }
            }
            lemma_count_any_order(p, moves, (depth - 1) as nat);
        }
        let mut out: Vec<(Move, u64)> = Vec::new();
        let mut total = 0u64;
        let n = list.len();
        let mut i: usize = 0;
        while i < n
            invariant
                b0.wf(),
                b0@ == p,
                perft_ready(p, depth as nat),
                depth >= 1,
                self.wf(),
                self@ == p,
                extras_kept(b0, *self),
                self.pieces@ == b0.pieces@,
                self.occ@ == b0.occ@,
                n == list@.len(),
                i <= n,
                out@.len() == i,
                forall|j: int| 0 <= j < n ==> legal_move(p, #[trigger] list@[j]@),
                forall|j: int| 0 <= j < i ==> (#[trigger] out@[j]).0 == list@[j],
                forall|j: int| 0 <= j < i ==> (#[trigger] out@[j]).1 as int == perft_count(
                    make_spec(p, list@[j]@),
                    (depth - 1) as nat,
                ) % 0x1_0000_0000_0000_0000,
                total == divide_total(out@),
                moves == list@.map_values(|mv: Move| mv@),
                total as int == children_count(p, moves.take(i as int), (depth - 1) as nat) % 0x1_0000_0000_0000_0000,
            decreases n - i,
        {
            let mv = list.get(i);
            let ghost m = mv@;
            assert(legal_move(p, list@[i as int]@));
            proof {
                lemma_pseudo_makeable(p, occ_of(p.mailbox), m);
                lemma_unmake_undoes_make(p, m);
            }
            let undo = self.make_move(mv);
            proof {
                if depth >= 2 {
                    lemma_legal_keeps_ready(p, m, (depth - 1) as nat);
                }
            }
            let nodes = self.perft(depth - 1);
            self.unmake_move(mv, undo);
            proof {
                crate::legality::lemma_same_bitboards(*self, b0);
            }
            let ghost before = out@;
            out.push((mv, nodes));
            proof {
                assert(out@.drop_last() =~= before);
            }
            total = total.wrapping_add(nodes);
            proof {
                let e = (depth - 1) as nat;
                let t = moves.take(i + 1);
                assert(t.drop_last() =~= moves.take(i as int));
                assert(t.last() == m);
                let a = children_count(p, moves.take(i as int), e);
                let c = perft_count(make_spec(p, m), e);
                assert(children_count(p, t, e) == a + c);
                vstd::arithmetic::div_mod::lemma_add_mod_noop(a, c, 0x1_0000_0000_0000_0000);
                if depth == 1 {
                    assert(c == 1);
                }
            }
            i += 1;
        }
        proof {
            assert(moves.take(n as int) =~= moves);
        }
        proof {
            let s = out@.map_values(|e: (Move, u64)| e.0);
            assert(s =~= list@);
            assert forall|m: u32| legal_move(p, m) implies exists|j: int| 0 <= j < s.len() && #[trigger] s[j]@ == m by {
                assert(has_move(list@, 0, m));
            }
        }
        (out, total)
    }
}

impl Board {
    /// Whether `side` (0 white, 1 black) has a king on the board.
    fn king_present(&self, side: u8) -> (r: bool)
        requires
            self.wf(),
            side <= 1,
        ensures
            r == has_king(self.mailbox@, side as int),
    {
        let king = if side == 0 {
            WK
        } else {
            BK
        };
        let mut s: usize = 0;
        while s < 64
            invariant
                s <= 64,
                king == king_of(side as int),
                forall|t: int| 0 <= t < s ==> #[trigger] self.mailbox@[t] != king,
            decreases 64 - s,
        {
            if self.mailbox[s] == king {
                return true;
            }
            s += 1;
        }
        false
    }

    /// Whether every pseudo-legal move of the position can be made and taken back: the side
    /// to move has a king, and the move counters are not at their limit.
    pub fn is_sound(&self) -> (r: bool)
        requires
            self.wf(),
        ensures
            r == sound_position(self@),
    {
        self.halfmove_clock < 65535 && !(self.side_to_move == 1 && self.fullmove_number == 65535)
            && self.king_present(self.side_to_move)
    }

    /// Whether the position can be searched `plies` plies deep by `perft` and the search: it
    /// is sound, both sides have a king, the side that has just moved is not in check,
    /// and both move counters have room for `plies` more moves.
    pub fn perft_ready_for(&self, plies: u32) -> (r: bool)
        requires
            self.wf(),
        ensures
            r == perft_ready(self@, plies as nat),
    {
        let side = self.side_to_move;
        let other: u8 = if side == 0 {
            1
        } else {
            0
        };
        if self.halfmove_clock as u64 + plies as u64 > 65535 || self.fullmove_number as u64 + plies as u64 > 65535 {
            return false;
        }
        if self.halfmove_clock == 65535 || (side == 1 && self.fullmove_number == 65535) {
            return false;
        }
        if !self.king_present(side) || !self.king_present(other) {
            return false;
        }
        !self.king_in_check(other as usize)
    }
}

} // verus!
