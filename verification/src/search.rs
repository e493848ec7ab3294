//! Alpha-beta search: negamax with a transposition table, null-move pruning and a
//! capture-only quiescence search.
use vstd::prelude::*;
use std::sync::Arc;
use std::sync::atomic::{AtomicBool, AtomicU64};
use std::sync::atomic::Ordering;
use crate::board::{extras_kept, lemma_null_move_roundtrip, null_move_spec, repetition_spec, Board, Position, MAX_DEPTH};
use crate::legality::{capture_move, in_check, legal_capture, legal_move, occ_of};
use crate::makemove::{ep_victim, make_spec, moved_mailbox};
use crate::move_ordering::{next_best, scorable};
use crate::movegen::{piece_capture, piece_code, step_move};
use crate::moves::{lemma_pack_fields, m_from, m_is_capture, m_is_castle, m_is_ep, m_is_promotion, m_piece, m_to, m_captured, Move, MoveList, pack_move, FLAG_CAPTURE, FLAG_EP, FLAG_PROMOTION};
use crate::pawns::{capture_from, diagonal_ok, on_promo_rank, pawn_cap, pawn_capture, pawn_ep, pawn_move_to, pawn_of, promo_piece};
use crate::perft::{lemma_legal_keeps_ready, perft_ready};
use crate::position::{lemma_capture_makeable, lemma_flag_values, lemma_pseudo_makeable, lemma_pseudo_shape, sound_position};
use crate::tt::{probe_entry, slot, TTFlag, TranspositionTable};

verus! {

/// A score above any evaluation.
pub const INF: i32 = 1_000_000;

/// The score of giving mate now; mates further away score less.
pub const MATE_SCORE: i32 = 900_000;

/// The outcome of a completed search depth.
#[derive(Debug, Clone, Copy, PartialEq, Eq, Structural)]
pub struct SearchResult {
    pub best_move: Option<Move>,
    pub score: i32,
    pub depth: u8,
}

/// The number of occupied squares among the first `n`.
pub open spec fn occupied(mb: Seq<u8>, n: nat) -> nat
    decreases n,
{
    if n == 0 {
        0
    } else {
        occupied(mb, (n - 1) as nat) + (if mb[n - 1] != 0 {
            1nat
        } else {
            0nat
        })
    }
}

/// Writing one square changes the count by what left and what arrived.
proof fn lemma_occupied_update(mb: Seq<u8>, i: int, v: u8, n: nat)
    requires
        0 <= i < mb.len(),
        n <= mb.len(),
    ensures
        occupied(mb.update(i, v), n) + (if i < n && mb[i] != 0 {
            1int
        } else {
            0int
        }) == occupied(mb, n) + (if i < n && v != 0 {
            1int
        } else {
            0int
        }),
    decreases n,
{
    if n > 0 {
        lemma_occupied_update(mb, i, v, (n - 1) as nat);
    }
}

/// The count is at most the number of squares looked at, and at least one when one of them
/// is occupied.
proof fn lemma_occupied_bounds(mb: Seq<u8>, n: nat, s: int)
    requires
        n <= mb.len(),
    ensures
        occupied(mb, n) <= n,
        0 <= s < n && mb[s] != 0 ==> occupied(mb, n) >= 1,
    decreases n,
{
    if n > 0 {
        lemma_occupied_bounds(mb, (n - 1) as nat, s);
    }
}

/// A pseudo-legal capture carries the capture flag and is not castling.
proof fn lemma_capture_flagged(p: Position, occ: u64, m: u32)
    requires
        sound_position(p),
        capture_move(p, occ, m),
    ensures
        m_is_capture(m),
        !m_is_castle(m),
{
    let side = p.side as int;
    let mb = p.mailbox;
    lemma_flag_values();
    if pawn_capture(p, m) {
        let (to, dx) = choose|to: int, dx: int| #![trigger capture_from(side, to, dx), p.mailbox[to]] 0 <= to < 64 && (dx == -1 || dx == 1)
            && 0 <= capture_from(side, to, dx) < 64 && diagonal_ok(capture_from(side, to, dx), dx)
            && p.mailbox[capture_from(side, to, dx)] == pawn_of(side) && crate::movegen::enemy_at(p, to)
            && pawn_move_to(p, capture_from(side, to, dx), to, FLAG_CAPTURE, m);
        let from = capture_from(side, to, dx);
        assert(mb[to] <= 12);
        if on_promo_rank(side, to) {
            let k = choose|k: int| 0 <= k < 4 && m == #[trigger] pack_move(from as u8, to as u8, pawn_of(side), pawn_cap(p, to, FLAG_CAPTURE), promo_piece(side, k), FLAG_CAPTURE | FLAG_PROMOTION);
            lemma_pack_fields(from as u8, to as u8, pawn_of(side), mb[to], promo_piece(side, k), FLAG_CAPTURE | FLAG_PROMOTION);
        } else {
            lemma_pack_fields(from as u8, to as u8, pawn_of(side), mb[to], 0, FLAG_CAPTURE);
        }
    } else if pawn_ep(p, m) {
        let e = p.ep as int;
        let dx = choose|dx: int| #![trigger capture_from(side, e, dx)] (dx == -1 || dx == 1)
            && 0 <= capture_from(side, e, dx) < 64 && diagonal_ok(capture_from(side, e, dx), dx)
            && p.mailbox[capture_from(side, e, dx)] == pawn_of(side)
            && m == pack_move(capture_from(side, e, dx) as u8, p.ep, pawn_of(side), pawn_of(1 - side), 0, FLAG_CAPTURE | FLAG_EP);
        lemma_pack_fields(capture_from(side, e, dx) as u8, p.ep, pawn_of(side), pawn_of(1 - side), 0, FLAG_CAPTURE | FLAG_EP);
    } else {
        let kind = if piece_capture(p, occ, crate::board::WN, m) {
            crate::board::WN
        } else if piece_capture(p, occ, crate::board::WB, m) {
            crate::board::WB
        } else if piece_capture(p, occ, crate::board::WR, m) {
            crate::board::WR
        } else if piece_capture(p, occ, crate::board::WQ, m) {
            crate::board::WQ
        } else {
            crate::board::WK
        };
        let pc = piece_code(kind, side);
        let (from, to) = choose|from: u64, to: u64| #![trigger step_move(p.mailbox, from, to, pc)]
            from < 64 && to < 64 && crate::movegen::enemy_at(p, to as int) && m == step_move(p.mailbox, from, to, pc);
        assert(mb[to as int] != 0 && mb[to as int] <= 12);
        lemma_pack_fields(from as u8, to as u8, pc, mb[to as int], 0, FLAG_CAPTURE);
    }
}

/// `side` has exactly one king.
pub open spec fn one_king(mb: Seq<u8>, side: int) -> bool {
    forall|a: int, b: int|
        0 <= a < 64 && 0 <= b < 64 && #[trigger] mb[a] == crate::legality::king_of(side) && #[trigger] mb[b]
            == crate::legality::king_of(side) ==> a == b
}

/// A pseudo-legal capture is a pseudo-legal move.
proof fn lemma_capture_is_pseudo(p: Position, occ: u64, m: u32)
    requires
        sound_position(p),
        capture_move(p, occ, m),
    ensures
        crate::legality::pseudo_move(p, occ, m),
{
    let side = p.side as int;
    let kinds = seq![crate::board::WN, crate::board::WB, crate::board::WR, crate::board::WQ];
    if pawn_capture(p, m) || pawn_ep(p, m) {
    } else if crate::movegen::king_capture(p, m) {
        let pc = piece_code(crate::board::WK, side);
        let (from, to) = choose|from: u64, to: u64|
            #![trigger step_move(p.mailbox, from, to, pc)]
            crate::movegen::king_capture_from(p, from, to) && m == step_move(p.mailbox, from, to, pc);
        assert(!crate::movegen::own_at(p, to as int));
        assert(crate::movegen::piece_move(p, occ, crate::board::WK, m));
    } else {
        let kind = if piece_capture(p, occ, crate::board::WN, m) {
            crate::board::WN
        } else if piece_capture(p, occ, crate::board::WB, m) {
            crate::board::WB
        } else if piece_capture(p, occ, crate::board::WR, m) {
            crate::board::WR
        } else {
            crate::board::WQ
        };
        let pc = piece_code(kind, side);
        let (from, to) = choose|from: u64, to: u64|
            #![trigger step_move(p.mailbox, from, to, pc)]
            from < 64 && to < 64 && p.mailbox[from as int] == pc && crate::movegen::kind_attacks(kind, from, to, occ)
                && crate::movegen::enemy_at(p, to as int) && m == step_move(p.mailbox, from, to, pc);
        assert(!crate::movegen::own_at(p, to as int));
        assert(crate::movegen::piece_move(p, occ, kind, m));
    }
}

/// A pseudo-legal move that captures is a pseudo-legal capture, when the side to move has
/// one king.
proof fn lemma_capturing_move_is_capture(p: Position, occ: u64, m: u32)
    requires
        sound_position(p),
        one_king(p.mailbox, p.side as int),
        crate::legality::pseudo_move(p, occ, m),
        m_is_capture(m),
    ensures
        capture_move(p, occ, m),
{
    let side = p.side as int;
    let mb = p.mailbox;
    lemma_flag_values();
    crate::moves::lemma_fields_in_range(m);
    lemma_pseudo_shape(p, occ, m);
    if crate::pawns::pawn_pseudo(p, m) {
        let f = crate::pawns::fwd(side);
        if crate::pawns::pawn_push(p, m) {
            let to = choose|to: int| #![trigger p.mailbox[to]] 0 <= to < 64 && 0 <= to - f < 64 && p.mailbox[to - f] == pawn_of(side)
                && p.mailbox[to] == 0 && pawn_move_to(p, to - f, to, 0, m);
            let from = to - f;
            if on_promo_rank(side, to) {
                let k = choose|k: int| 0 <= k < 4 && m == #[trigger] pack_move(from as u8, to as u8, pawn_of(side), pawn_cap(p, to, 0), promo_piece(side, k), 0 | FLAG_PROMOTION);
                lemma_pack_fields(from as u8, to as u8, pawn_of(side), 0, promo_piece(side, k), 0 | FLAG_PROMOTION);
            } else {
                lemma_pack_fields(from as u8, to as u8, pawn_of(side), 0, 0, 0);
            }
            assert(false);
        } else if crate::pawns::pawn_double(p, m) {
            let to = choose|to: int| #![trigger p.mailbox[to]] 0 <= to < 64 && 0 <= to - 2 * f < 64 && crate::pawns::on_start_rank(side, to - 2 * f)
                && p.mailbox[to - 2 * f] == pawn_of(side) && p.mailbox[to - f] == 0 && p.mailbox[to] == 0
                && m == pack_move((to - 2 * f) as u8, to as u8, pawn_of(side), 0, 0, crate::moves::FLAG_DOUBLE);
            lemma_pack_fields((to - 2 * f) as u8, to as u8, pawn_of(side), 0, 0, crate::moves::FLAG_DOUBLE);
            assert(false);
        }
    } else if crate::movegen::castle_move(p, m) {
        lemma_pack_fields(4, 6, crate::board::WK, 0, 0, crate::moves::FLAG_CASTLE);
        lemma_pack_fields(4, 2, crate::board::WK, 0, 0, crate::moves::FLAG_CASTLE);
        lemma_pack_fields(60, 62, crate::board::BK, 0, 0, crate::moves::FLAG_CASTLE);
        lemma_pack_fields(60, 58, crate::board::BK, 0, 0, crate::moves::FLAG_CASTLE);
        assert(false);
    } else {
        let kind = if crate::movegen::piece_move(p, occ, crate::board::WN, m) {
            crate::board::WN
        } else if crate::movegen::piece_move(p, occ, crate::board::WB, m) {
            crate::board::WB
        } else if crate::movegen::piece_move(p, occ, crate::board::WR, m) {
            crate::board::WR
        } else if crate::movegen::piece_move(p, occ, crate::board::WQ, m) {
            crate::board::WQ
        } else {
            crate::board::WK
        };
        let pc = piece_code(kind, side);
        let (from, to) = choose|from: u64, to: u64|
            #![trigger step_move(p.mailbox, from, to, pc)]
            from < 64 && to < 64 && p.mailbox[from as int] == pc && crate::movegen::kind_attacks(kind, from, to, occ)
                && !crate::movegen::own_at(p, to as int) && m == step_move(p.mailbox, from, to, pc);
        assert(mb[to as int] <= 12);
        if mb[to as int] == 0 {
            lemma_pack_fields(from as u8, to as u8, pc, 0, 0, 0);
            assert(false);
        }
        assert(crate::movegen::enemy_at(p, to as int));
        if kind == crate::board::WK {
            assert forall|u: u64| u < from implies p.mailbox[u as int] != pc by {
                if p.mailbox[u as int] == pc {
                    assert(p.mailbox[from as int] == crate::legality::king_of(side));
                }
            }
            assert(crate::movegen::king_capture_from(p, from, to));
            assert(crate::movegen::king_capture(p, m));
        } else {
            assert(piece_capture(p, occ, kind, m));
        }
    }
}

/// In a sound position whose side to move has one king, the legal captures are exactly the
/// legal moves that capture.
pub proof fn lemma_legal_captures_are_capturing_moves(p: Position, m: u32)
    requires
        sound_position(p),
        one_king(p.mailbox, p.side as int),
    ensures
        legal_capture(p, m) <==> (legal_move(p, m) && m_is_capture(m)),
{
    let occ = occ_of(p.mailbox);
    if legal_capture(p, m) {
        lemma_capture_flagged(p, occ, m);
        lemma_capture_is_pseudo(p, occ, m);
    }
    if legal_move(p, m) && m_is_capture(m) {
        lemma_capturing_move_is_capture(p, occ, m);
    }
}

/// A legal capture leaves one piece fewer on the board.
pub proof fn lemma_capture_shrinks(p: Position, m: u32)
    requires
        sound_position(p),
        legal_capture(p, m),
    ensures
        occupied(make_spec(p, m).mailbox, 64) + 1 == occupied(p.mailbox, 64),
{
    let occ = occ_of(p.mailbox);
    let mb = p.mailbox;
    lemma_capture_makeable(p, occ, m);
    lemma_pseudo_shape(p, occ, m);
    lemma_capture_flagged(p, occ, m);
    crate::moves::lemma_fields_in_range(m);
    let from = m_from(m) as int;
    let to = m_to(m) as int;
    let piece = m_piece(m);
    let mb1 = mb.update(from, 0);
    lemma_occupied_update(mb, from, 0, 64);
    assert(mb[from] != 0);
    if m_is_ep(m) {
        let v = ep_victim(piece, m_to(m));
        let mb2 = mb1.update(to, piece);
        lemma_occupied_update(mb1, to, piece, 64);
        lemma_occupied_update(mb2, v, 0, 64);
        assert(mb2[v] == mb[v]);
        assert(moved_mailbox(mb, m) == mb2.update(v, 0));
    } else if m_is_promotion(m) {
        lemma_occupied_update(mb1, to, crate::moves::m_promo(m), 64);
    } else {
        lemma_occupied_update(mb1, to, piece, 64);
    }
}

impl Board {
    /// The number of pieces on the board.
    pub fn piece_count(&self) -> (r: u32)
        ensures
            r == occupied(self.mailbox@, 64),
    {
        let mut count: u32 = 0;
        let mut s: usize = 0;
        while s < 64
            invariant
                s <= 64,
                count == occupied(self.mailbox@, s as nat),
                count <= s,
            decreases 64 - s,
        {
            if self.mailbox[s] != 0 {
                count = count + 1;
            }
            s += 1;
        }
        count
    }
}

/// A legal move never adds a piece to the board.
pub proof fn lemma_move_keeps_count(p: Position, m: u32)
    requires
        sound_position(p),
        legal_move(p, m),
    ensures
        occupied(make_spec(p, m).mailbox, 64) <= occupied(p.mailbox, 64),
{
    let occ = occ_of(p.mailbox);
    let mb = p.mailbox;
    lemma_pseudo_makeable(p, occ, m);
    lemma_pseudo_shape(p, occ, m);
    crate::moves::lemma_fields_in_range(m);
    let from = m_from(m) as int;
    let to = m_to(m) as int;
    let piece = m_piece(m);
    let mb1 = mb.update(from, 0);
    lemma_occupied_update(mb, from, 0, 64);
    assert(mb[from] != 0);
    if m_is_ep(m) {
        let v = ep_victim(piece, m_to(m));
        let mb2 = mb1.update(to, piece);
        lemma_occupied_update(mb1, to, piece, 64);
        lemma_occupied_update(mb2, v, 0, 64);
        assert(moved_mailbox(mb, m) == mb2.update(v, 0));
    } else if m_is_castle(m) {
        let rf = crate::makemove::castle_rook_from(m_to(m)) as int;
        let rt = crate::makemove::castle_rook_to(m_to(m)) as int;
        let mb2 = mb1.update(to, piece);
        lemma_occupied_update(mb1, to, piece, 64);
        let mb3 = mb2.update(rf, 0);
        lemma_occupied_update(mb2, rf, 0, 64);
        lemma_occupied_update(mb3, rt, mb2[rf], 64);
        assert(moved_mailbox(mb, m) == mb3.update(rt, mb2[rf]));
        assert(mb3[rt] == 0);
    } else if m_is_promotion(m) {
        lemma_occupied_update(mb1, to, crate::moves::m_promo(m), 64);
    } else {
        lemma_occupied_update(mb1, to, piece, 64);
    }
}

/// Passing the move in a position where the side to move is not in check keeps the
/// position ready for a search of `e` plies.
pub proof fn lemma_null_keeps_ready(p: Position, d: nat, e: nat)
    requires
        perft_ready(p, d),
        d >= 1,
        e + 1 <= d,
        p.halfmove < 100,
        !in_check(p.mailbox, p.side as int),
    ensures
        perft_ready(null_move_spec(p), e),
{
    crate::board::lemma_side_flip(p.side);
    let q = null_move_spec(p);
}

/// Every score the table holds is strictly between -INF and INF.
pub open spec fn tt_scores_bounded(tt: &TranspositionTable) -> bool {
    forall|i: int| 0 <= i < tt.slots() ==> -INF < #[trigger] tt.entries()[i].score < INF
}

/// Storing a bounded score keeps the table's scores bounded.
proof fn lemma_store_bounded(a: TranspositionTable, b: TranspositionTable, k: int, e: crate::tt::TTEntry)
    requires
        a.wf(),
        tt_scores_bounded(&a),
        b.slots() == a.slots(),
        0 <= k < a.slots(),
        -INF < e.score < INF,
        b.entries() == a.entries().update(k, e) || b.entries() == a.entries(),
    ensures
        tt_scores_bounded(&b),
{
    a.lemma_wf_len();
    assert forall|i: int| 0 <= i < b.slots() implies -INF < #[trigger] b.entries()[i].score < INF by {
        assert(-INF < a.entries()[i].score < INF);
    }
}

/// The board came back: same position, bitboards and evaluation counters (the killer slots
/// may have learned moves).
pub open spec fn restored(a: Board, b: Board) -> bool {
    &&& b@ == a@
    &&& b.material_mg == a.material_mg
    &&& b.material_eg == a.material_eg
    &&& b.pst_mg == a.pst_mg
    &&& b.pst_eg == a.pst_eg
    &&& b.pieces@ == a.pieces@
    &&& b.occ@ == a.occ@
}

/// Whether another thread has asked the search to stop.
fn stopped(stop: &Arc<AtomicBool>) -> bool {
    stop.load(Ordering::Relaxed)
}

/// Counts one more searched node.
fn count_node(nodes: &Arc<AtomicU64>) {
    nodes.fetch_add(1, Ordering::Relaxed);
}

/// Whether some move of `list` goes from the square and to the square of `mv`.
fn has_same_squares(list: &MoveList, mv: Move) -> (r: bool)
    ensures
        r == exists|i: int| 0 <= i < list@.len() && #[trigger] m_from(list@[i]@) == m_from(mv@) && m_to(list@[i]@) == m_to(mv@),
{
    let n = list.len();
    let mut i: usize = 0;
    while i < n
        invariant
            n == list@.len(),
            i <= n,
            forall|j: int| 0 <= j < i ==> !(#[trigger] m_from(list@[j]@) == m_from(mv@) && m_to(list@[j]@) == m_to(mv@)),
        decreases n - i,
    {
        let m = list.get(i);
        if m.from() == mv.from() && m.to() == mv.to() {
            return true;
        }
        i += 1;
    }
    false
}

/// Every move of a list is a legal capture of `p` and indexes the capture table.
pub open spec fn all_legal_captures(p: Position, s: Seq<Move>) -> bool {
    forall|i: int| 0 <= i < s.len() ==> legal_capture(p, #[trigger] s[i]@) && scorable(s[i]@)
}

/// Every move of a list is a legal move of `p` and indexes the capture table.
pub open spec fn all_legal_moves(p: Position, s: Seq<Move>) -> bool {
    forall|i: int| 0 <= i < s.len() ==> legal_move(p, #[trigger] s[i]@) && scorable(s[i]@)
}

/// A legal move or capture records a captured piece that indexes the capture table.
proof fn lemma_scorable(p: Position, m: u32)
    requires
        sound_position(p),
        legal_move(p, m) || legal_capture(p, m),
    ensures
        scorable(m),
{
    let occ = occ_of(p.mailbox);
    if legal_move(p, m) {
        lemma_pseudo_makeable(p, occ, m);
    } else {
        lemma_capture_makeable(p, occ, m);
    }
    crate::moves::lemma_fields_in_range(m);
    if m_is_capture(m) {
        if m_is_ep(m) {
            assert(m_captured(m) <= 12);
        } else if m_is_castle(m) {
            lemma_pseudo_shape(p, occ, m);
            let c = p.castling;
            lemma_flag_values();
            if p.side == 0 {
                if m == pack_move(4, 6, crate::board::WK, 0, 0, crate::moves::FLAG_CASTLE) {
                    lemma_pack_fields(4, 6, crate::board::WK, 0, 0, crate::moves::FLAG_CASTLE);
                } else {
                    lemma_pack_fields(4, 2, crate::board::WK, 0, 0, crate::moves::FLAG_CASTLE);
                }
            } else {
                if m == pack_move(60, 62, crate::board::BK, 0, 0, crate::moves::FLAG_CASTLE) {
                    lemma_pack_fields(60, 62, crate::board::BK, 0, 0, crate::moves::FLAG_CASTLE);
                } else {
                    lemma_pack_fields(60, 58, crate::board::BK, 0, 0, crate::moves::FLAG_CASTLE);
                }
            }
        }
    }
}

/// After a selection step the list still holds only moves of the old list.
/// Swapping two moves keeps every move in the list.
proof fn lemma_swap_covers(s: Seq<Move>, a: int, b: int)
    requires
        0 <= a < s.len(),
        0 <= b < s.len(),
    ensures
        forall|m: u32| crate::movegen::has_move(s, 0, m) ==> #[trigger] crate::movegen::has_move(s.update(a, s[b]).update(b, s[a]), 0, m),
{
    let t = s.update(a, s[b]).update(b, s[a]);
    assert forall|m: u32| crate::movegen::has_move(s, 0, m) implies #[trigger] crate::movegen::has_move(t, 0, m) by {
        let j = choose|j: int| 0 <= j < s.len() && #[trigger] s[j]@ == m;
        if j == a {
            assert(t[b]@ == m);
        } else if j == b {
            assert(t[a]@ == m);
        } else {
            assert(t[j]@ == m);
        }
    }
}

proof fn lemma_swap_keeps(p: Position, s: Seq<Move>, a: int, b: int, captures: bool)
    requires
        0 <= a < s.len(),
        0 <= b < s.len(),
        captures ==> all_legal_captures(p, s),
        !captures ==> all_legal_moves(p, s),
    ensures
        captures ==> all_legal_captures(p, s.update(a, s[b]).update(b, s[a])),
        !captures ==> all_legal_moves(p, s.update(a, s[b]).update(b, s[a])),
{
    let t = s.update(a, s[b]).update(b, s[a]);
    assert forall|i: int| 0 <= i < t.len() implies (t[i] == s[i] || t[i] == s[a] || t[i] == s[b]) by {}
    if captures {
        assert forall|i: int| 0 <= i < t.len() implies legal_capture(p, #[trigger] t[i]@) && scorable(t[i]@) by {
            assert(legal_capture(p, s[i]@) && legal_capture(p, s[a]@) && legal_capture(p, s[b]@));
        }
    } else {
        assert forall|i: int| 0 <= i < t.len() implies legal_move(p, #[trigger] t[i]@) && scorable(t[i]@) by {
            assert(legal_move(p, s[i]@) && legal_move(p, s[a]@) && legal_move(p, s[b]@));
        }
    }
}

/// `s` lists the legal captures of `p` (in any order, perhaps more than once).
pub open spec fn capture_seq(p: Position, s: Seq<u32>) -> bool {
    &&& forall|i: int| 0 <= i < s.len() ==> legal_capture(p, #[trigger] s[i])
    &&& forall|m: u32| legal_capture(p, m) ==> s.contains(m)
}

/// The legal captures of `p`, in some order.
pub open spec fn legal_captures_of(p: Position) -> Seq<u32> {
    choose|s: Seq<u32>| capture_seq(p, s)
}

/// `v` clamped to the window `alpha`..`beta`.
pub open spec fn clamp(v: int, alpha: int, beta: int) -> int {
    if v <= alpha {
        alpha
    } else if v >= beta {
        beta
    } else {
        v
    }
}

/// The quiescence value of a position: the better of standing pat on the static
/// evaluation and the best capture, each capture worth the negated value of the position it
/// leads to.
pub open spec fn qvalue(p: Position) -> int
    decreases occupied(p.mailbox, 64), 1nat, 0nat,
{
    let e = crate::eval::evaluation(p);
    let c = best_reply(p, legal_captures_of(p));
    if c > e {
        c
    } else {
        e
    }
}

/// The best of the captures `s` of `p` for the side to move (-INF when there is none); a
/// capture counts when it takes a piece off the board.
pub open spec fn best_reply(p: Position, s: Seq<u32>) -> int
    decreases occupied(p.mailbox, 64), 0nat, s.len(),
{
    if s.len() == 0 {
        -INF as int
    } else {
        let rest = best_reply(p, s.drop_last());
        let child = make_spec(p, s.last());
        let here = if occupied(child.mailbox, 64) < occupied(p.mailbox, 64) {
            -qvalue(child)
        } else {
            -INF as int
        };
        if here > rest {
            here
        } else {
            rest
        }
    }
}

/// The value of one capture in `best_reply`.
pub open spec fn reply_value(p: Position, m: u32) -> int {
    let child = make_spec(p, m);
    if occupied(child.mailbox, 64) < occupied(p.mailbox, 64) {
        -qvalue(child)
    } else {
        -INF as int
    }
}

/// `best_reply` is the largest value among its captures, or -INF when there is none larger.
proof fn lemma_best_reply_max(p: Position, s: Seq<u32>)
    ensures
        best_reply(p, s) >= -INF,
        forall|i: int| 0 <= i < s.len() ==> best_reply(p, s) >= reply_value(p, #[trigger] s[i]),
        best_reply(p, s) == -INF || exists|i: int| 0 <= i < s.len() && best_reply(p, s) == reply_value(p, #[trigger] s[i]),
    decreases s.len(),
{
    if s.len() > 0 {
        let t = s.drop_last();
        lemma_best_reply_max(p, t);
        assert(reply_value(p, s.last()) == (if occupied(make_spec(p, s.last()).mailbox, 64) < occupied(p.mailbox, 64) {
            -qvalue(make_spec(p, s.last()))
        } else {
            -INF as int
        }));
        assert forall|i: int| 0 <= i < s.len() implies best_reply(p, s) >= reply_value(p, #[trigger] s[i]) by {
            if i < s.len() - 1 {
                assert(s[i] == t[i]);
            }
        }
        if best_reply(p, s) != -INF {
            if best_reply(p, s) == reply_value(p, s.last()) {
                assert(best_reply(p, s) == reply_value(p, s[s.len() - 1]));
            } else {
                let i = choose|i: int| 0 <= i < t.len() && best_reply(p, t) == reply_value(p, #[trigger] t[i]);
                assert(s[i] == t[i]);
            }
        }
    }
}

/// Two lists of the same captures have the same best reply.
proof fn lemma_best_reply_same(p: Position, a: Seq<u32>, b: Seq<u32>)
    requires
        forall|m: u32| a.contains(m) <==> b.contains(m),
    ensures
        best_reply(p, a) == best_reply(p, b),
{
    lemma_best_reply_max(p, a);
    lemma_best_reply_max(p, b);
    if best_reply(p, a) != -INF {
        let i = choose|i: int| 0 <= i < a.len() && best_reply(p, a) == reply_value(p, #[trigger] a[i]);
        assert(a.contains(a[i]));
        let j = choose|j: int| 0 <= j < b.len() && b[j] == a[i];
        assert(best_reply(p, b) >= reply_value(p, b[j]));
    }
    if best_reply(p, b) != -INF {
        let j = choose|j: int| 0 <= j < b.len() && best_reply(p, b) == reply_value(p, #[trigger] b[j]);
        assert(b.contains(b[j]));
        let i = choose|i: int| 0 <= i < a.len() && a[i] == b[j];
        assert(best_reply(p, a) >= reply_value(p, a[i]));
    }
}

/// The move codes of a list.
pub open spec fn codes(s: Seq<Move>) -> Seq<u32> {
    s.map_values(|m: Move| m@)
}

/// The larger of two numbers.
pub open spec fn max_int(a: int, b: int) -> int {
    if a >= b {
        a
    } else {
        b
    }
}

/// The quiescence value is the best the side to move can get by standing pat or by a legal
/// capture: at least the static evaluation, at least the negated value after each legal
/// capture, and equal to one of these.
pub proof fn lemma_qvalue_is_best(p: Position, s: Seq<u32>)
    requires
        sound_position(p),
        capture_seq(p, s),
        crate::eval::evaluation(p) > -INF,
    ensures
        qvalue(p) >= crate::eval::evaluation(p),
        forall|i: int| 0 <= i < s.len() ==> qvalue(p) >= -qvalue(make_spec(p, #[trigger] s[i])),
        qvalue(p) == crate::eval::evaluation(p) || exists|i: int|
            0 <= i < s.len() && qvalue(p) == -qvalue(make_spec(p, #[trigger] s[i])),
{
    let c = legal_captures_of(p);
    assert(capture_seq(p, c));
    lemma_best_reply_same(p, c, s);
    lemma_best_reply_max(p, s);
    assert forall|i: int| 0 <= i < s.len() implies reply_value(p, #[trigger] s[i]) == -qvalue(make_spec(p, s[i])) by {
        lemma_capture_shrinks(p, s[i]);
    }
    if qvalue(p) != crate::eval::evaluation(p) {
        assert(qvalue(p) == best_reply(p, c));
        assert(best_reply(p, s) != -INF);
        let i = choose|i: int| 0 <= i < s.len() && best_reply(p, s) == reply_value(p, #[trigger] s[i]);
        assert(reply_value(p, s[i]) == -qvalue(make_spec(p, s[i])));
    }
}

/// Swapping two entries keeps the moves a list holds.
proof fn lemma_swap_codes(s: Seq<Move>, a: int, b: int)
    requires
        0 <= a < s.len(),
        0 <= b < s.len(),
    ensures
        forall|m: u32| codes(s).contains(m) <==> codes(s.update(a, s[b]).update(b, s[a])).contains(m),
{
    let t = s.update(a, s[b]).update(b, s[a]);
    assert forall|m: u32| codes(s).contains(m) <==> codes(t).contains(m) by {
        if codes(s).contains(m) {
            let j = choose|j: int| 0 <= j < codes(s).len() && codes(s)[j] == m;
            if j == a {
                assert(codes(t)[b] == m);
            } else if j == b {
                assert(codes(t)[a] == m);
            } else {
                assert(codes(t)[j] == m);
            }
        }
        if codes(t).contains(m) {
            let j = choose|j: int| 0 <= j < codes(t).len() && codes(t)[j] == m;
            if j == a {
                assert(codes(s)[b] == m);
            } else if j == b {
                assert(codes(s)[a] == m);
            } else {
                assert(codes(s)[j] == m);
            }
        }
    }
}

impl Board {
    /// Searches captures only until the position is quiet: the side to move may stand pat on
    /// the static evaluation. Scores are clamped to the window `alpha`..`beta`. `None` when a
    /// stop was requested; the board is then left mid-search.
    pub fn quiescence(
        &mut self,
        alpha: i32,
        beta: i32,
        stop: &Arc<AtomicBool>,
        tt: &mut TranspositionTable,
        nodes: &Arc<AtomicU64>,
    ) -> (r: Option<i32>)
        requires
            old(self).wf(),
            perft_ready(old(self)@, occupied(old(self).mailbox@, 64)),
            old(tt).wf(),
            old(tt).slots() > 0,
            tt_scores_bounded(old(tt)),
            -INF <= alpha < beta <= INF,
        ensures
            final(self).wf(),
            final(tt).wf(),
            final(tt).slots() == old(tt).slots(),
            tt_scores_bounded(final(tt)),
            r is Some ==> restored(*old(self), *final(self)),
            r matches Some(v) ==> alpha <= v <= beta && -INF < v < INF,
            r matches Some(v) ==> v == clamp(qvalue(old(self)@), alpha as int, beta as int),
            *final(tt) == *old(tt),
        decreases occupied(old(self).mailbox@, 64),
    {
        let ghost p = self@;
        let ghost b0 = *self;
        let ghost alpha0 = alpha;
        count_node(nodes);
        if stopped(stop) {
            return None;
        }
        let stand_pat = self.evaluate();
        let ghost sp = stand_pat as int;
        proof {
            assert(qvalue(p) >= sp);
        }
        if stand_pat >= beta {
            return Some(beta);
        }
        let mut window_low = alpha;
        if stand_pat > window_low {
            window_low = stand_pat;
        }
        let mut list = MoveList::new();
        self.generate_legal_captures(&mut list);
        proof {
            assert forall|i: int| 0 <= i < list@.len() implies legal_capture(p, #[trigger] list@[i]@) && scorable(list@[i]@) by {
                lemma_scorable(p, list@[i]@);
            }
            assert forall|m: u32| legal_capture(p, m) <==> codes(list@).contains(m) by {
                if legal_capture(p, m) {
                    assert(crate::movegen::has_move(list@, 0, m));
                    let j = choose|j: int| 0 <= j < list@.len() && #[trigger] list@[j]@ == m;
                    assert(codes(list@)[j] == m);
                }
                if codes(list@).contains(m) {
                    let j = choose|j: int| 0 <= j < codes(list@).len() && codes(list@)[j] == m;
                    assert(legal_capture(p, list@[j]@));
                }
            }
        }
        match tt.probe_move(self.zobrist) {
            Some(tt_move) => {
                let ghost before = list@;
                list.move_to_front(tt_move);
                proof {
                    if exists|i: int| 0 <= i < before.len() && #[trigger] before[i] == tt_move {
                        let i = choose|i: int| {
                            &&& 0 <= i < before.len()
                            &&& before[i] == tt_move
                            &&& forall|j: int| 0 <= j < i ==> #[trigger] before[j] != tt_move
                            &&& list@ == before.update(0, tt_move).update(i, before[0])
                        };
                        lemma_swap_keeps(p, before, 0, i, true);
                        lemma_swap_codes(before, 0, i);
                    } else {
                        assert(list@ == before);
                    }
                }
            },
            None => {},
        }
        let n = list.len();
        let mut i: usize = 0;
        let killers: [Option<Move>; 2] = [None, None];
        proof {
            assert(codes(list@).take(0) =~= Seq::<u32>::empty());
        }
        while i < n
            invariant
                b0.wf(),
                b0@ == p,
                perft_ready(p, occupied(p.mailbox, 64)),
                occupied(p.mailbox, 64) == occupied(old(self).mailbox@, 64),
                b0 == *old(self),
                self.wf(),
                restored(b0, *self),
                tt.wf(),
                tt.slots() == old(tt).slots(),
                tt.slots() > 0,
                tt_scores_bounded(tt),
                *tt == *old(tt),
                n == list@.len(),
                i <= n,
                all_legal_captures(p, list@),
                alpha0 == alpha,
                alpha <= window_low,
                -INF < window_low,
                -INF <= alpha,
                window_low < beta <= INF,
                sp == crate::eval::evaluation(p),
                sp < beta,
                forall|mm: u32| legal_capture(p, mm) <==> codes(list@).contains(mm),
                window_low as int == max_int(max_int(alpha0 as int, sp), best_reply(p, codes(list@).take(i as int))),
            decreases n - i,
        {
            if stopped(stop) {
                return None;
            }
            let ghost before = list@;
            let picked = next_best(list.as_mut_slice(), i, &killers);
            let mv = match picked {
                Some(m) => m,
                None => {
                    return None;
                },
            };
            let ghost m = mv@;
            proof {
                let b = choose|b: int| {
                    &&& crate::move_ordering::first_best(before, i as int, b, killers)
                    &&& picked == Some(before[b])
                    &&& list@ == before.update(i as int, before[b]).update(b, before[i as int])
                };
                assert(legal_capture(p, before[b]@));
                lemma_swap_keeps(p, before, i as int, b, true);
                lemma_swap_codes(before, i as int, b);
                assert(codes(list@).take(i + 1) =~= codes(before).take(i as int).push(m));
                assert(codes(list@).take(i + 1).drop_last() =~= codes(before).take(i as int));
                lemma_capture_makeable(p, occ_of(p.mailbox), m);
                crate::makemove::lemma_unmake_undoes_make(p, m);
                lemma_capture_shrinks(p, m);
            }
            let undo = self.make_move(mv);
            proof {
                let q = make_spec(p, m);
                lemma_occupied_bounds(q.mailbox, 64, 0);
                let k = choose|s: int| 0 <= s < 64 && #[trigger] q.mailbox[s] == crate::legality::king_of(p.side as int);
                lemma_occupied_bounds(q.mailbox, 64, k);
                lemma_legal_keeps_ready(p, m, occupied(q.mailbox, 64));
            }
            let ghost w = window_low as int;
            let score = match self.quiescence(-beta, -window_low, stop, tt, nodes) {
                Some(v) => -v,
                None => {
                    return None;
                },
            };
            self.unmake_move(mv, undo);
            proof {
                crate::legality::lemma_same_bitboards(*self, b0);
                let child = make_spec(p, m);
                lemma_capture_shrinks(p, m);
                assert(reply_value(p, m) == -qvalue(child));
                assert(score as int == clamp(-qvalue(child), w, beta as int));
                let pre = codes(list@).take(i + 1);
                assert(best_reply(p, pre) == max_int(reply_value(p, m), best_reply(p, codes(list@).take(i as int)))) by {
                    assert(pre.last() == m);
                    assert(pre.drop_last() =~= codes(list@).take(i as int));
                }
                assert(legal_capture(p, m));
                assert(codes(list@).contains(m)) by {
                    assert(codes(list@)[i as int] == m);
                }
                if score >= beta {
                    let all = legal_captures_of(p);
                    assert(capture_seq(p, codes(list@)));
                    assert(capture_seq(p, all));
                    lemma_best_reply_max(p, all);
                    assert(all.contains(m));
                    let k = choose|k: int| 0 <= k < all.len() && all[k] == m;
                    assert(best_reply(p, all) >= reply_value(p, all[k]));
                }
            }
            if score >= beta {
                return Some(beta);
            }
            if score > window_low {
                window_low = score;
            }
            i += 1;
        }
        proof {
            assert(codes(list@).take(n as int) =~= codes(list@));
            let all = legal_captures_of(p);
            assert(capture_seq(p, codes(list@)));
            assert(capture_seq(p, all));
            assert forall|mm: u32| codes(list@).contains(mm) <==> all.contains(mm) by {
                if all.contains(mm) {
                    let k = choose|k: int| 0 <= k < all.len() && all[k] == mm;
                    assert(legal_capture(p, all[k]));
                }
            }
            lemma_best_reply_same(p, codes(list@), all);
        }
        Some(window_low)
    }
}

/// The bound a search result `v` in the window `alpha`..`beta` is stored with: a cutoff
/// (`v >= beta`) is a lower bound, a fail-low (`v <= alpha`) an upper bound, else exact.
pub open spec fn stored_flag(v: int, alpha: int, beta: int) -> TTFlag {
    if v >= beta {
        TTFlag::LowerBound
    } else if v <= alpha {
        TTFlag::UpperBound
    } else {
        TTFlag::Exact
    }
}

/// The side to move has a legal move.
pub open spec fn has_legal_move(p: Position) -> bool {
    exists|m: u32| #[trigger] legal_move(p, m)
}

/// Names the null-move table and result and the searched moves of a full search, so that a
/// proof can point at them.
pub open spec fn search_witness(tn: Seq<crate::tt::TTEntry>, w: i32, steps: Seq<SearchStep>) -> bool {
    true
}

/// A table after storing `score` for `hash` at `depth` in a table of `n` slots: the slot is
/// replaced only when its entry is shallower.
pub open spec fn stored(
    t: Seq<crate::tt::TTEntry>,
    n: usize,
    hash: u64,
    depth: u8,
    score: i32,
    flag: TTFlag,
    mv: Option<Move>,
) -> Seq<crate::tt::TTEntry> {
    let k = slot(hash, n);
    if t[k].depth < depth {
        t.update(k, crate::tt::TTEntry { hash, depth, score, flag, best_move: mv })
    } else {
        t
    }
}

/// How much shallower the null-move search goes.
pub open spec fn null_reduction(depth: u8) -> int {
    if depth >= 6 {
        3
    } else {
        2
    }
}

/// A null move is tried: the side to move is not in check, at least three plies remain, it
/// has a piece other than pawns and king, and the static evaluation reaches `beta`.
pub open spec fn null_tried(p: Position, depth: u8, beta: i32) -> bool {
    &&& !in_check(p.mailbox, p.side as int)
    &&& depth >= 3
    &&& exists|s: int| 0 <= s < 64 && #[trigger] crate::board::non_pawn_piece_of(p.mailbox[s], p.side as int)
    &&& crate::eval::evaluation(p) >= beta
}

/// One searched move: the move, the table after its subtree, its score for the mover.
pub type SearchStep = (Move, Seq<crate::tt::TTEntry>, i32);

/// After the first `k` searched moves: the best score (from `-INF`), the lower end of the
/// window (from `alpha`), and the move that first reached the best score.
pub open spec fn fold_steps(steps: Seq<SearchStep>, alpha: i32, k: int) -> (int, int, Option<Move>)
    decreases k,
{
    if k <= 0 {
        (-INF as int, alpha as int, None)
    } else {
        let prev = fold_steps(steps, alpha, k - 1);
        let sc = steps[k - 1].2 as int;
        (
            if sc > prev.0 { sc } else { prev.0 },
            if sc > prev.1 { sc } else { prev.1 },
            if sc > prev.0 { Some(steps[k - 1].0) } else { prev.2 },
        )
    }
}

/// The table the `k`-th searched move starts from.
pub open spec fn table_before(start: Seq<crate::tt::TTEntry>, steps: Seq<SearchStep>, k: int) -> Seq<crate::tt::TTEntry> {
    if k <= 0 {
        start
    } else {
        steps[k - 1].1
    }
}

/// Every searched move is legal, and its score is the negated result of searching the
/// position after it one ply less deep, with the window `-beta`..`-w` for the window's lower
/// end `w` at that point, from the table the previous move left.
pub open spec fn steps_ok(
    p: Position,
    depth: u8,
    alpha: i32,
    beta: i32,
    n: usize,
    start: Seq<crate::tt::TTEntry>,
    steps: Seq<SearchStep>,
) -> bool
    decreases depth, 0int,
{
    &&& depth > 0
    &&& forall|k: int|
        #![trigger steps[k]]
        0 <= k < steps.len() ==> {
            &&& legal_move(p, steps[k].0@)
            &&& node_value(
                make_spec(p, steps[k].0@),
                (depth - 1) as u8,
                (-beta) as i32,
                (-fold_steps(steps, alpha, k).1) as i32,
                n,
                table_before(start, steps, k),
                steps[k].1,
                (-steps[k].2) as i32,
            )
        }
}

/// The full search of a node with moves, witnessed by the table `tn` and result `w` of the
/// null-move search (if tried) and the searched moves `steps`: a null-move result reaching
/// `beta` answers `beta`; otherwise the moves are searched in some order until one reaches
/// `beta` or all legal moves are searched, the best score is the answer, and it is stored
/// with its bound and best move.
pub open spec fn node_main(
    p: Position,
    depth: u8,
    alpha: i32,
    beta: i32,
    n: usize,
    t0: Seq<crate::tt::TTEntry>,
    t1: Seq<crate::tt::TTEntry>,
    v: i32,
    tn: Seq<crate::tt::TTEntry>,
    w: i32,
    steps: Seq<SearchStep>,
) -> bool
    decreases depth, 1int,
{
    &&& if null_tried(p, depth, beta) {
        node_value(
            null_move_spec(p),
            (depth - 1 - null_reduction(depth)) as u8,
            (-beta) as i32,
            (-beta + 1) as i32,
            n,
            t0,
            tn,
            w,
        )
    } else {
        tn == t0
    }
    &&& if null_tried(p, depth, beta) && -w >= beta {
        v == beta && t1 == tn
    } else {
        let last = fold_steps(steps, alpha, steps.len() as int);
        &&& steps.len() >= 1
        &&& steps_ok(p, depth, alpha, beta, n, tn, steps)
        &&& forall|k: int| 0 <= k < steps.len() ==> (#[trigger] fold_steps(steps, alpha, k)).1 < beta
        &&& v == last.0
        &&& (last.1 < beta ==> forall|m: u32| #[trigger] legal_move(p, m) ==> exists|k: int| 0 <= k < steps.len() && #[trigger] steps[k].0@ == m)
        &&& t1 == stored(steps.last().1, n, p.zobrist, depth, v, stored_flag(v as int, alpha as int, beta as int), last.2)
    }
}

/// The running fold over the first `k` moves does not look past them.
proof fn lemma_fold_prefix(steps: Seq<SearchStep>, x: SearchStep, alpha: i32, k: int)
    requires
        0 <= k <= steps.len(),
    ensures
        fold_steps(steps.push(x), alpha, k) == fold_steps(steps, alpha, k),
    decreases k,
{
    if k > 0 {
        lemma_fold_prefix(steps, x, alpha, k - 1);
        assert(steps.push(x)[k - 1] == steps[k - 1]);
    }
}

/// The best score never exceeds the window's lower end, which never drops below `alpha`,
/// and the best move is one of the searched moves.
proof fn lemma_fold_bounds(steps: Seq<SearchStep>, alpha: i32, k: int)
    requires
        0 <= k <= steps.len(),
        -INF <= alpha,
    ensures
        fold_steps(steps, alpha, k).0 <= fold_steps(steps, alpha, k).1,
        alpha <= fold_steps(steps, alpha, k).1,
    decreases k,
{
    if k > 0 {
        lemma_fold_bounds(steps, alpha, k - 1);
    }
}

/// Searching one more move keeps the searched moves valid.
#[verifier::spinoff_prover]
#[verifier::rlimit(40)]
proof fn lemma_steps_push(
    p: Position,
    depth: u8,
    alpha: i32,
    beta: i32,
    n: usize,
    start: Seq<crate::tt::TTEntry>,
    steps: Seq<SearchStep>,
    x: SearchStep,
)
    requires
        steps_ok(p, depth, alpha, beta, n, start, steps),
        legal_move(p, x.0@),
        node_value(
            make_spec(p, x.0@),
            (depth - 1) as u8,
            (-beta) as i32,
            (-fold_steps(steps, alpha, steps.len() as int).1) as i32,
            n,
            table_before(start, steps, steps.len() as int),
            x.1,
            (-x.2) as i32,
        ),
    ensures
        steps_ok(p, depth, alpha, beta, n, start, steps.push(x)),
        forall|k: int| 0 <= k <= steps.len() ==> #[trigger] fold_steps(steps.push(x), alpha, k) == fold_steps(steps, alpha, k),
        table_before(start, steps.push(x), steps.len() as int + 1) == x.1,
{
    let s2 = steps.push(x);
    assert forall|k: int| 0 <= k <= steps.len() implies #[trigger] fold_steps(s2, alpha, k) == fold_steps(steps, alpha, k) by {
        lemma_fold_prefix(steps, x, alpha, k);
    }
    assert forall|k: int| 0 <= k < s2.len() implies {
        &&& legal_move(p, #[trigger] s2[k].0@)
        &&& node_value(
            make_spec(p, s2[k].0@),
            (depth - 1) as u8,
            (-beta) as i32,
            (-fold_steps(s2, alpha, k).1) as i32,
            n,
            table_before(start, s2, k),
            s2[k].1,
            (-s2[k].2) as i32,
        )
    } by {
        if k < steps.len() {
            assert(s2[k] == steps[k]);
            assert(table_before(start, s2, k) == table_before(start, steps, k));
            assert(legal_move(p, steps[k].0@));
        } else {
            assert(s2[k] == x);
            assert(table_before(start, s2, k) == table_before(start, steps, k));
        }
    }
}

/// A completed move loop makes the full search of a node: the null-move search (if tried)
/// did not reach `beta`, the moves were searched until a cutoff or to the last legal move,
/// and the best score was stored.
proof fn lemma_loop_main(
    p: Position,
    depth: u8,
    alpha: i32,
    beta: i32,
    n: usize,
    t0: Seq<crate::tt::TTEntry>,
    t1: Seq<crate::tt::TTEntry>,
    v: i32,
    tn: Seq<crate::tt::TTEntry>,
    w: i32,
    steps: Seq<SearchStep>,
)
    requires
        p.halfmove < 100,
        !repetition_spec(p),
        depth > 0,
        probe_entry(t0[slot(p.zobrist, n)], p.zobrist, depth, alpha, beta) is None,
        exists|m: u32| legal_move(p, m),
        if null_tried(p, depth, beta) {
            node_value(null_move_spec(p), (depth - 1 - null_reduction(depth)) as u8, (-beta) as i32, (-beta + 1) as i32, n, t0, tn, w)
        } else {
            tn == t0
        },
        !(null_tried(p, depth, beta) && -w >= beta),
        steps.len() >= 1,
        steps_ok(p, depth, alpha, beta, n, tn, steps),
        forall|k: int| 0 <= k < steps.len() ==> (#[trigger] fold_steps(steps, alpha, k)).1 < beta,
        v == fold_steps(steps, alpha, steps.len() as int).0,
        fold_steps(steps, alpha, steps.len() as int).1 < beta ==> forall|m: u32| #[trigger] legal_move(p, m) ==> exists|k: int|
            0 <= k < steps.len() && #[trigger] steps[k].0@ == m,
        t1 == stored(
            steps.last().1,
            n,
            p.zobrist,
            depth,
            v,
            stored_flag(v as int, alpha as int, beta as int),
            fold_steps(steps, alpha, steps.len() as int).2,
        ),
    ensures
        node_value(p, depth, alpha, beta, n, t0, t1, v),
{
    assert(node_main(p, depth, alpha, beta, n, t0, t1, v, tn, w, steps));
    assert(search_witness(tn, w, steps));
    reveal_with_fuel(node_value, 1);
}

/// A null-move search that reaches `beta` makes the full search of a node answer `beta`.
proof fn lemma_null_main(
    p: Position,
    depth: u8,
    alpha: i32,
    beta: i32,
    n: usize,
    t0: Seq<crate::tt::TTEntry>,
    tn: Seq<crate::tt::TTEntry>,
    w: i32,
)
    requires
        p.halfmove < 100,
        !repetition_spec(p),
        depth > 0,
        probe_entry(t0[slot(p.zobrist, n)], p.zobrist, depth, alpha, beta) is None,
        exists|m: u32| legal_move(p, m),
        null_tried(p, depth, beta),
        node_value(null_move_spec(p), (depth - 1 - null_reduction(depth)) as u8, (-beta) as i32, (-beta + 1) as i32, n, t0, tn, w),
        -w >= beta,
    ensures
        node_value(p, depth, alpha, beta, n, t0, tn, beta),
{
    assert(node_main(p, depth, alpha, beta, n, t0, tn, beta, tn, w, Seq::empty()));
    assert(search_witness(tn, w, Seq::empty()));
    reveal_with_fuel(node_value, 1);
    assert(node_value(p, depth, alpha, beta, n, t0, tn, beta));
}

/// Entries a deeper search left are either the old ones or no deeper than `bound`.
proof fn lemma_depths_compose(
    old: Seq<crate::tt::TTEntry>,
    mid: Seq<crate::tt::TTEntry>,
    now: Seq<crate::tt::TTEntry>,
    bound: u8,
    inner: u8,
)
    requires
        mid.len() == old.len(),
        now.len() == mid.len(),
        inner < bound,
        forall|k: int| 0 <= k < mid.len() ==> #[trigger] mid[k] == old[k] || mid[k].depth < bound,
        forall|k: int| 0 <= k < now.len() ==> #[trigger] now[k] == mid[k] || now[k].depth <= inner,
    ensures
        forall|k: int| 0 <= k < now.len() ==> #[trigger] now[k] == old[k] || now[k].depth < bound,
{
    assert forall|k: int| 0 <= k < now.len() implies #[trigger] now[k] == old[k] || now[k].depth < bound by {
        assert(mid[k] == old[k] || mid[k].depth < bound);
        assert(now[k] == mid[k] || now[k].depth <= inner);
    }
}

/// The root search, witnessed by its searched moves: every legal move is searched with the
/// full window, each score being the negated result of searching the position after it one
/// ply less deep from the table the previous move left; the best score, the move that first
/// reached it, and the table after storing them as exact.
pub open spec fn root_main(
    p: Position,
    depth: u8,
    n: usize,
    t0: Seq<crate::tt::TTEntry>,
    t1: Seq<crate::tt::TTEntry>,
    best: Option<Move>,
    score: i32,
    steps: Seq<SearchStep>,
) -> bool {
    let last = fold_steps(steps, (-INF) as i32, steps.len() as int);
    &&& steps.len() >= 1
    &&& steps_ok(p, depth, (-INF) as i32, INF, n, t0, steps)
    &&& forall|m: u32| #[trigger] legal_move(p, m) ==> exists|k: int| 0 <= k < steps.len() && #[trigger] steps[k].0@ == m
    &&& score == last.0
    &&& best == last.2
    &&& t1 == stored(steps.last().1, n, p.zobrist, depth, score, TTFlag::Exact, best)
}

/// What a search of `p` at `depth` with the window `alpha`..`beta` answers, from the table
/// `t0` of `n` slots to the table `t1`: a draw by the fifty-move rule or by repetition is 0,
/// depth 0 is the clamped quiescence value, a usable table entry gives its score, a side
/// without legal moves is mated or stalemated; otherwise the fail-soft alpha-beta search of
/// `node_main`.
pub open spec fn node_value(
    p: Position,
    depth: u8,
    alpha: i32,
    beta: i32,
    n: usize,
    t0: Seq<crate::tt::TTEntry>,
    t1: Seq<crate::tt::TTEntry>,
    v: i32,
) -> bool
    decreases depth, 2int,
{
    if p.halfmove >= 100 || repetition_spec(p) {
        v == 0 && t1 == t0
    } else if depth == 0 {
        v == clamp(qvalue(p), alpha as int, beta as int) && t1 == t0
    } else {
        match probe_entry(t0[slot(p.zobrist, n)], p.zobrist, depth, alpha, beta) {
            Some((score, _)) => v == score && t1 == t0,
            None => if !has_legal_move(p) {
                t1 == t0 && v == (if in_check(p.mailbox, p.side as int) {
                    (-(MATE_SCORE - depth)) as i32
                } else {
                    0i32
                })
            } else {
                exists|tn: Seq<crate::tt::TTEntry>, w: i32, steps: Seq<SearchStep>|
                    #[trigger] search_witness(tn, w, steps) && node_main(p, depth, alpha, beta, n, t0, t1, v, tn, w, steps)
            },
        }
    }
}

impl Board {
    /// Fail-soft alpha-beta search `depth` plies deep, then quiescence. Draws by the
    /// fifty-move rule or by repetition score 0, a side without legal moves is mated
    /// (mates nearer the root score higher) or stalemated (0). Results are kept in and taken
    /// from the transposition table; with enough material and no check, a reduced null-move
    /// search may cut the node off at `beta`; a quiet move that cuts a node off becomes the
    /// first killer of its depth. `None` when a stop was requested; the board is then left
    /// mid-search.
    #[verifier::spinoff_prover]
    #[verifier::rlimit(100)]
    pub fn negamax(
        &mut self,
        depth: u8,
        alpha: i32,
        beta: i32,
        stop: &Arc<AtomicBool>,
        tt: &mut TranspositionTable,
        nodes: &Arc<AtomicU64>,
    ) -> (r: Option<i32>)
        requires
            old(self).wf(),
            old(self).halfmove_clock >= 100 || perft_ready(old(self)@, (depth + occupied(old(self).mailbox@, 64)) as nat),
            old(tt).wf(),
            old(tt).slots() > 0,
            tt_scores_bounded(old(tt)),
            -INF <= alpha < beta <= INF,
        ensures
            final(self).wf(),
            final(tt).wf(),
            final(tt).slots() == old(tt).slots(),
            tt_scores_bounded(final(tt)),
            r is Some ==> restored(*old(self), *final(self)),
            r matches Some(v) ==> -INF < v < INF,
            r is Some && old(self).halfmove_clock >= 100 ==> r == Some(0i32),
            r is Some && old(self).halfmove_clock < 100 && repetition_spec(old(self)@) ==> r == Some(0i32),
            old(self).halfmove_clock < 100 && !repetition_spec(old(self)@) && depth == 0 ==> (r matches Some(v) ==> v == clamp(
                qvalue(old(self)@),
                alpha as int,
                beta as int,
            )),
            r is Some && old(self).halfmove_clock < 100 && !repetition_spec(old(self)@) && depth > 0 ==> match probe_entry(
                old(tt).entries()[slot(old(self).zobrist, old(tt).slots())],
                old(self).zobrist,
                depth,
                alpha,
                beta,
            ) {
                Some((score, _)) => r == Some(score),
                None => (forall|m: u32| !legal_move(old(self)@, m)) ==> r == Some(
                    if in_check(old(self).mailbox@, old(self).side_to_move as int) {
                        (-(MATE_SCORE - depth)) as i32
                    } else {
                        0i32
                    },
                ),
            },
            old(self).halfmove_clock >= 100 || repetition_spec(old(self)@) || depth == 0 || probe_entry(
                old(tt).entries()[slot(old(self).zobrist, old(tt).slots())],
                old(self).zobrist,
                depth,
                alpha,
                beta,
            ) is Some || (forall|m: u32| !legal_move(old(self)@, m)) ==> *final(tt) == *old(tt),
            r matches Some(v) ==> node_value(old(self)@, depth, alpha, beta, old(tt).slots(), old(tt).entries(), final(tt).entries(), v),
            forall|k: int| 0 <= k < final(tt).entries().len() ==> #[trigger] final(tt).entries()[k] == old(tt).entries()[k]
                || final(tt).entries()[k].depth <= depth,
        decreases depth,
    {
        let ghost p = self@;
        let ghost b0 = *self;
        let ghost n0 = old(tt).slots();
        let ghost t0 = old(tt).entries();
        proof {
            tt.lemma_wf_len();
        }
        count_node(nodes);
        if stopped(stop) {
            return None;
        }
        if self.halfmove_clock >= 100 {
            proof {
                assert(node_value(p, depth, alpha, beta, n0, t0, t0, 0)) by {
                    reveal_with_fuel(node_value, 1);
                }
            }
            return Some(0);
        }
        if self.is_repitition() {
            proof {
                assert(node_value(p, depth, alpha, beta, n0, t0, t0, 0)) by {
                    reveal_with_fuel(node_value, 1);
                }
            }
            return Some(0);
        }
        if depth == 0 {
            proof {
                lemma_occupied_bounds(p.mailbox, 64, 0);
            }
            let q = self.quiescence(alpha, beta, stop, tt, nodes);
            proof {
                if q is Some {
                    assert(node_value(p, depth, alpha, beta, n0, t0, t0, q->0)) by {
                        reveal_with_fuel(node_value, 1);
                    }
                }
            }
            return q;
        }
        let hash = self.zobrist;
        let alpha_orig = alpha;
        match tt.probe(hash, depth, alpha, beta) {
            Some((score, mv)) => {
                proof {
                    assert(node_value(p, depth, alpha, beta, n0, t0, t0, score)) by {
                        reveal_with_fuel(node_value, 1);
                    }
                }
                return Some(score);
            },
            None => {},
        }
        let mut list = MoveList::new();
        self.generate_legal_moves(&mut list);
        proof {
            assert forall|i: int| 0 <= i < list@.len() implies legal_move(p, #[trigger] list@[i]@) && scorable(list@[i]@) by {
                lemma_scorable(p, list@[i]@);
            }
        }
        if list.is_empty() {
            proof {
                assert forall|m: u32| !legal_move(p, m) by {
                    if legal_move(p, m) {
                        assert(crate::movegen::has_move(list@, 0, m));
                    }
                }
            }
            let r = if self.king_in_check(self.side_to_move as usize) {
                Some(-(MATE_SCORE - depth as i32))
            } else {
                Some(0)
            };
            proof {
                assert(node_value(p, depth, alpha, beta, n0, t0, t0, r->0)) by {
                    reveal_with_fuel(node_value, 1);
                }
            }
            return r;
        }
        proof {
            assert(legal_move(p, list@[0]@));
            assert(probe_entry(old(tt).entries()[slot(p.zobrist, old(tt).slots())], p.zobrist, depth, alpha, beta) is None);
            assert forall|m: u32| legal_move(p, m) implies #[trigger] crate::movegen::has_move(list@, 0, m) by {}
        }
        match tt.probe_move(hash) {
            Some(tt_move) => {
                if has_same_squares(&list, tt_move) {
                    let ghost before = list@;
                    list.move_to_front(tt_move);
                    proof {
                        if exists|i: int| 0 <= i < before.len() && #[trigger] before[i] == tt_move {
                            let i = choose|i: int| {
                                &&& 0 <= i < before.len()
                                &&& before[i] == tt_move
                                &&& forall|j: int| 0 <= j < i ==> #[trigger] before[j] != tt_move
                                &&& list@ == before.update(0, tt_move).update(i, before[0])
                            };
                            lemma_swap_keeps(p, before, 0, i, false);
                            lemma_swap_covers(before, 0, i);
                        }
                    }
                }
            },
            None => {},
        }
        let static_eval = self.evaluate();
        let in_check = self.king_in_check(self.side_to_move as usize);
        let ghost tried = null_tried(p, depth, beta);
        let ghost mut w: i32 = 0;
        proof {
            assert(tt.entries() == t0);
        }
        if !in_check && depth >= 3 && self.has_non_pawn_material(self.side_to_move as usize) && static_eval >= beta {
            proof {
                assert(tried);
            }
            let reduction: u8 = if depth >= 6 {
                3
            } else {
                2
            };
            proof {
                lemma_null_keeps_ready(p, (depth + occupied(p.mailbox, 64)) as nat, (depth - 1 - reduction + occupied(p.mailbox, 64)) as nat);
            }
            let null_undo = self.make_null_move();
            let null_result = self.negamax(depth - 1 - reduction, -beta, -beta + 1, stop, tt, nodes);
            proof {
                tt.lemma_wf_len();
                lemma_depths_compose(t0, t0, tt.entries(), depth, (depth - 1 - reduction) as u8);
            }
            let null_score = match null_result {
                Some(v) => {
                    proof {
                        w = v;
                    }
                    -v
                },
                None => {
                    return None;
                },
            };
            self.unmake_null_move(null_undo);
            proof {
                lemma_null_move_roundtrip(p);
            }
            if null_score >= beta {
                proof {
                    lemma_null_main(p, depth, alpha, beta, n0, t0, tt.entries(), w);
                }
                return Some(beta);
            }
        } else {
            proof {
                assert(!tried);
            }
        }
        let ghost tn = tt.entries();
        let ghost mut steps: Seq<SearchStep> = Seq::empty();
        let mut best = -INF;
        let mut best_move: Option<Move> = None;
        let mut window_low = alpha;
        let killers: [Option<Move>; 2] = if depth <= MAX_DEPTH {
            self.killers[depth as usize]
        } else {
            [None, None]
        };
        let n = list.len();
        let mut i: usize = 0;
        proof {
            assert(fold_steps(steps, alpha, 0) == (-INF as int, alpha as int, None::<Move>));
        }
        while i < n
            invariant
                b0.wf(),
                b0@ == p,
                b0 == *old(self),
                p.halfmove < 100,
                !repetition_spec(p),
                perft_ready(p, (depth + occupied(p.mailbox, 64)) as nat),
                depth >= 1,
                exists|mm: u32| legal_move(p, mm),
                probe_entry(old(tt).entries()[slot(p.zobrist, old(tt).slots())], p.zobrist, depth, alpha, beta) is None,
                self.wf(),
                restored(b0, *self),
                tt.wf(),
                tt.slots() == old(tt).slots(),
                tt.slots() > 0,
                tt_scores_bounded(tt),
                n == list@.len(),
                i <= n,
                all_legal_moves(p, list@),
                alpha_orig == alpha,
                alpha <= window_low < beta,
                -INF <= alpha,
                beta <= INF,
                -INF <= best < INF,
                i > 0 ==> -INF < best,
                hash == p.zobrist,
                n0 == old(tt).slots(),
                t0 == old(tt).entries(),
                t0.len() == n0,
                forall|m: u32| #[trigger] legal_move(p, m) ==> crate::movegen::has_move(list@, 0, m),
                if tried {
                    node_value(null_move_spec(p), (depth - 1 - null_reduction(depth)) as u8, (-beta) as i32, (-beta + 1) as i32, n0, t0, tn, w)
                } else {
                    tn == t0
                },
                !(tried && -w >= beta),
                tried == null_tried(p, depth, beta),
                steps.len() == i,
                forall|k: int| 0 <= k < i ==> #[trigger] steps[k].0 == list@[k],
                steps_ok(p, depth, alpha, beta, n0, tn, steps),
                tt.entries() == table_before(tn, steps, i as int),
                best == fold_steps(steps, alpha, i as int).0,
                window_low == fold_steps(steps, alpha, i as int).1,
                best_move == fold_steps(steps, alpha, i as int).2,
                forall|k: int| 0 <= k <= i ==> (#[trigger] fold_steps(steps, alpha, k)).1 < beta,
                forall|k: int| 0 <= k < tt.entries().len() ==> #[trigger] tt.entries()[k] == old(tt).entries()[k]
                    || tt.entries()[k].depth < depth,
            decreases n - i,
        {
            if stopped(stop) {
                return None;
            }
            let ghost before = list@;
            let picked = next_best(list.as_mut_slice(), i, &killers);
            let mv = match picked {
                Some(m) => m,
                None => {
                    return None;
                },
            };
            let ghost m = mv@;
            proof {
                let b = choose|b: int| {
                    &&& crate::move_ordering::first_best(before, i as int, b, killers)
                    &&& picked == Some(before[b])
                    &&& list@ == before.update(i as int, before[b]).update(b, before[i as int])
                };
                assert(legal_move(p, before[b]@));
                lemma_swap_keeps(p, before, i as int, b, false);
                lemma_swap_covers(before, i as int, b);
                lemma_pseudo_makeable(p, occ_of(p.mailbox), m);
                crate::makemove::lemma_unmake_undoes_make(p, m);
                assert(list@[i as int] == mv);
            }
            let undo = self.make_move(mv);
            proof {
                crate::moves::lemma_fields_in_range(m);
                lemma_occupied_bounds(p.mailbox, 64, m_from(m) as int);
                lemma_legal_keeps_ready(p, m, (depth - 1 + occupied(p.mailbox, 64)) as nat);
                lemma_move_keeps_count(p, m);
            }
            proof {
                tt.lemma_wf_len();
            }
            let ghost tb = tt.entries();
            let child = self.negamax(depth - 1, -beta, -window_low, stop, tt, nodes);
            proof {
                tt.lemma_wf_len();
                lemma_depths_compose(t0, tb, tt.entries(), depth, (depth - 1) as u8);
            }
            let score = match child {
                Some(v) => -v,
                None => {
                    return None;
                },
            };
            self.unmake_move(mv, undo);
            proof {
                crate::legality::lemma_same_bitboards(*self, b0);
                let x: SearchStep = (mv, tt.entries(), score);
                lemma_steps_push(p, depth, alpha, beta, n0, tn, steps, x);
                let s2 = steps.push(x);
                assert(fold_steps(s2, alpha, i as int) == fold_steps(steps, alpha, i as int));
                assert(s2[i as int] == x);
                steps = s2;
                assert(fold_steps(steps, alpha, i + 1) == (
                    if (score as int) > (best as int) { score as int } else { best as int },
                    if (score as int) > (window_low as int) { score as int } else { window_low as int },
                    if (score as int) > (best as int) { Some(mv) } else { best_move },
                ));
                lemma_fold_bounds(steps, alpha, i as int);
            }
            if score > best {
                best = score;
                best_move = Some(mv);
            }
            if score > window_low {
                window_low = score;
            }
            if window_low >= beta {
                if !mv.is_capture() && depth <= MAX_DEPTH {
                    self.store_killer(mv, depth);
                }
                let ghost t_pre = *tt;
                tt.store(hash, depth, best, TTFlag::LowerBound, Some(mv));
                proof {
                    lemma_store_bounded(t_pre, *tt, crate::tt::slot(hash, t_pre.slots()), crate::tt::TTEntry {
                        hash,
                        depth,
                        score: best,
                        flag: TTFlag::LowerBound,
                        best_move: Some(mv),
                    });
                    assert(best >= beta);
                    assert(best_move == Some(mv));
                    assert(steps.last().1 == t_pre.entries());
                    assert(forall|k: int| 0 <= k < steps.len() ==> (#[trigger] fold_steps(steps, alpha, k)).1 < beta);
                    lemma_loop_main(p, depth, alpha, beta, n0, t0, tt.entries(), best, tn, w, steps);
                    t_pre.lemma_wf_len();
                    assert forall|k: int| 0 <= k < tt.entries().len() implies #[trigger] tt.entries()[k] == t0[k]
                        || tt.entries()[k].depth <= depth by {
                        assert(t_pre.entries()[k] == t0[k] || t_pre.entries()[k].depth < depth);
                    }
                }
                return Some(best);
            }
            i += 1;
        }
        let flag = if best <= alpha_orig {
            TTFlag::UpperBound
        } else {
            TTFlag::Exact
        };
        let ghost t_pre = *tt;
        tt.store(hash, depth, best, flag, best_move);
        proof {
            lemma_store_bounded(t_pre, *tt, crate::tt::slot(hash, t_pre.slots()), crate::tt::TTEntry {
                hash,
                depth,
                score: best,
                flag,
                best_move,
            });
            lemma_fold_bounds(steps, alpha, i as int);
            assert(flag == stored_flag(best as int, alpha as int, beta as int));
            assert(steps.last().1 == t_pre.entries());
            assert forall|mm: u32| #[trigger] legal_move(p, mm) implies exists|k: int| 0 <= k < steps.len() && #[trigger] steps[k].0@ == mm by {
                let j = choose|j: int| 0 <= j < list@.len() && #[trigger] list@[j]@ == mm;
                assert(steps[j].0 == list@[j]);
            }
            lemma_loop_main(p, depth, alpha, beta, n0, t0, tt.entries(), best, tn, w, steps);
            t_pre.lemma_wf_len();
            assert forall|k: int| 0 <= k < tt.entries().len() implies #[trigger] tt.entries()[k] == t0[k]
                || tt.entries()[k].depth <= depth by {
                assert(t_pre.entries()[k] == t0[k] || t_pre.entries()[k].depth < depth);
            }
        }
        Some(best)
    }
}

/// A score this close to a mate score ends iterative deepening: a mate has been found.
pub open spec fn is_mate_score(score: i32) -> bool {
    score >= MATE_SCORE - 100 || score <= -(MATE_SCORE - 100)
}

/// Iterative deepening keeps the outcome of each completed depth; it goes on to the next
/// depth unless the score says a mate was found.
pub fn record_iteration(result: &mut SearchResult, depth: u8, outcome: (Option<Move>, i32)) -> (more: bool)
    ensures
        *final(result) == (SearchResult { best_move: outcome.0, score: outcome.1, depth }),
        more == !is_mate_score(outcome.1),
{
    result.best_move = outcome.0;
    result.score = outcome.1;
    result.depth = depth;
    !(outcome.1 >= MATE_SCORE - 100 || outcome.1 <= -(MATE_SCORE - 100))
}

/// The result of iterative deepening: the last completed depth, when it found a move.
pub fn final_result(result: SearchResult) -> (r: Option<SearchResult>)
    ensures
        r == (if result.best_move is Some {
            Some(result)
        } else {
            None
        }),
{
    if result.best_move.is_some() {
        Some(result)
    } else {
        None
    }
}

impl Board {
    /// Searches every legal move of the root `depth` plies deep with the full window and
    /// returns the best move and its score; the result is stored in the transposition table.
    /// `None` when there is no legal move or a stop was requested (the board is then left
    /// mid-search).
    #[verifier::rlimit(60)]
    pub fn search_root(
        &mut self,
        depth: u8,
        stop: &Arc<AtomicBool>,
        tt: &mut TranspositionTable,
        nodes: &Arc<AtomicU64>,
    ) -> (r: Option<(Option<Move>, i32)>)
        requires
            old(self).wf(),
            depth >= 1,
            perft_ready(old(self)@, (depth + occupied(old(self).mailbox@, 64)) as nat),
            old(tt).wf(),
            old(tt).slots() > 0,
            tt_scores_bounded(old(tt)),
        ensures
            final(self).wf(),
            final(tt).wf(),
            final(tt).slots() == old(tt).slots(),
            tt_scores_bounded(final(tt)),
            r is Some ==> restored(*old(self), *final(self)),
            r matches Some((best, score)) ==> -INF < score < INF && best is Some && (best matches Some(m) ==> legal_move(old(self)@, m@)),
            (forall|m: u32| !legal_move(old(self)@, m)) ==> r is None,
            r matches Some((best, score)) ==> final(tt).entries()[slot(old(self).zobrist, old(tt).slots())] == (crate::tt::TTEntry {
                hash: old(self).zobrist,
                depth,
                score,
                flag: TTFlag::Exact,
                best_move: best,
            }) || final(tt).entries()[slot(old(self).zobrist, old(tt).slots())].depth >= depth,
            r matches Some((best, score)) ==> exists|steps: Seq<SearchStep>|
                #[trigger] root_main(old(self)@, depth, old(tt).slots(), old(tt).entries(), final(tt).entries(), best, score, steps),
    {
        let ghost p = self@;
        let ghost b0 = *self;
        let ghost n0 = old(tt).slots();
        let ghost t_start = old(tt).entries();
        proof {
            tt.lemma_wf_len();
        }
        count_node(nodes);
        let mut list = MoveList::new();
        self.generate_legal_moves(&mut list);
        proof {
            assert forall|i: int| 0 <= i < list@.len() implies legal_move(p, #[trigger] list@[i]@) && scorable(list@[i]@) by {
                lemma_scorable(p, list@[i]@);
            }
        }
        if list.is_empty() {
            return None;
        }
        proof {
            assert forall|m: u32| legal_move(p, m) implies #[trigger] crate::movegen::has_move(list@, 0, m) by {}
        }
        let hash = self.zobrist;
        proof {
            assert(hash == p.zobrist);
        }
        let mut window_low = -INF;
        let beta = INF;
        let mut best_move: Option<Move> = None;
        let mut best_score = -INF;
        match tt.probe_move(hash) {
            Some(tt_move) => {
                if has_same_squares(&list, tt_move) {
                    let ghost before = list@;
                    list.move_to_front(tt_move);
                    proof {
                        if exists|i: int| 0 <= i < before.len() && #[trigger] before[i] == tt_move {
                            let i = choose|i: int| {
                                &&& 0 <= i < before.len()
                                &&& before[i] == tt_move
                                &&& forall|j: int| 0 <= j < i ==> #[trigger] before[j] != tt_move
                                &&& list@ == before.update(0, tt_move).update(i, before[0])
                            };
                            lemma_swap_keeps(p, before, 0, i, false);
                            lemma_swap_covers(before, 0, i);
                        }
                    }
                }
            },
            None => {},
        }
        let killers: [Option<Move>; 2] = if depth <= MAX_DEPTH {
            self.killers[depth as usize]
        } else {
            [None, None]
        };
        let n = list.len();
        let mut i: usize = 0;
        let ghost mut steps: Seq<SearchStep> = Seq::empty();
        while i < n
            invariant
                n0 == old(tt).slots(),
                t_start == old(tt).entries(),
                hash == p.zobrist,
                forall|m: u32| #[trigger] legal_move(p, m) ==> crate::movegen::has_move(list@, 0, m),
                steps.len() == i,
                forall|k: int| 0 <= k < i ==> #[trigger] steps[k].0 == list@[k],
                steps_ok(p, depth, (-INF) as i32, INF, n0, t_start, steps),
                tt.entries() == table_before(t_start, steps, i as int),
                best_score == fold_steps(steps, (-INF) as i32, i as int).0,
                window_low == fold_steps(steps, (-INF) as i32, i as int).1,
                best_move == fold_steps(steps, (-INF) as i32, i as int).2,
                b0.wf(),
                b0@ == p,
                b0 == *old(self),
                perft_ready(p, (depth + occupied(p.mailbox, 64)) as nat),
                depth >= 1,
                self.wf(),
                restored(b0, *self),
                tt.wf(),
                tt.slots() == old(tt).slots(),
                tt.slots() > 0,
                tt_scores_bounded(tt),
                n == list@.len(),
                i <= n,
                all_legal_moves(p, list@),
                -INF <= window_low < INF,
                beta == INF,
                -INF <= best_score < INF,
                i > 0 ==> -INF < best_score && best_move is Some,
                i == 0 ==> best_score == -INF,
                best_move matches Some(m) ==> legal_move(p, m@),
            decreases n - i,
        {
            if stopped(stop) {
                return None;
            }
            let ghost before = list@;
            let picked = next_best(list.as_mut_slice(), i, &killers);
            let mv = match picked {
                Some(m) => m,
                None => {
                    return None;
                },
            };
            let ghost m = mv@;
            proof {
                let b = choose|b: int| {
                    &&& crate::move_ordering::first_best(before, i as int, b, killers)
                    &&& picked == Some(before[b])
                    &&& list@ == before.update(i as int, before[b]).update(b, before[i as int])
                };
                assert(legal_move(p, before[b]@));
                lemma_swap_keeps(p, before, i as int, b, false);
                lemma_swap_covers(before, i as int, b);
                assert(list@[i as int] == mv);
                lemma_pseudo_makeable(p, occ_of(p.mailbox), m);
                crate::makemove::lemma_unmake_undoes_make(p, m);
            }
            let undo = self.make_move(mv);
            proof {
                crate::moves::lemma_fields_in_range(m);
                lemma_occupied_bounds(p.mailbox, 64, m_from(m) as int);
                lemma_legal_keeps_ready(p, m, (depth - 1 + occupied(p.mailbox, 64)) as nat);
                lemma_move_keeps_count(p, m);
            }
            let score = match self.negamax(depth - 1, -beta, -window_low, stop, tt, nodes) {
                Some(v) => -v,
                None => {
                    return None;
                },
            };
            self.unmake_move(mv, undo);
            proof {
                crate::legality::lemma_same_bitboards(*self, b0);
                let x: SearchStep = (mv, tt.entries(), score);
                lemma_steps_push(p, depth, (-INF) as i32, INF, n0, t_start, steps, x);
                let s2 = steps.push(x);
                assert(fold_steps(s2, (-INF) as i32, i as int) == fold_steps(steps, (-INF) as i32, i as int));
                assert(s2[i as int] == x);
                steps = s2;
                assert(fold_steps(steps, (-INF) as i32, i + 1) == (
                    if (score as int) > (best_score as int) { score as int } else { best_score as int },
                    if (score as int) > (window_low as int) { score as int } else { window_low as int },
                    if (score as int) > (best_score as int) { Some(mv) } else { best_move },
                ));
            }
            if score > best_score {
                best_score = score;
                best_move = Some(mv);
            }
            if score > window_low {
                window_low = score;
            }
            i += 1;
        }
        proof {
            assert(legal_move(p, list@[0]@));
        }
        let ghost t0 = *tt;
        tt.store(hash, depth, best_score, TTFlag::Exact, best_move);
        proof {
            lemma_store_bounded(t0, *tt, crate::tt::slot(hash, t0.slots()), crate::tt::TTEntry {
                hash,
                depth,
                score: best_score,
                flag: TTFlag::Exact,
                best_move,
            });
            let k = slot(hash, t0.slots());
            if t0.entries()[k].depth < depth {
                t0.lemma_wf_len();
                assert(tt.entries()[k] == (crate::tt::TTEntry { hash, depth, score: best_score, flag: TTFlag::Exact, best_move }));
            }
            assert(steps.last().1 == t0.entries());
            assert forall|mm: u32| #[trigger] legal_move(p, mm) implies exists|k: int| 0 <= k < steps.len() && #[trigger] steps[k].0@ == mm by {
                let j = choose|j: int| 0 <= j < list@.len() && #[trigger] list@[j]@ == mm;
                assert(steps[j].0 == list@[j]);
            }
            assert(root_main(p, depth, n0, t_start, tt.entries(), best_move, best_score, steps));
        }
        Some((best_move, best_score))
    }
}

} // verus!
