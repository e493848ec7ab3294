//! Move ordering: captures by most valuable victim and least valuable attacker, then
//! killer moves.
use vstd::prelude::*;
use crate::moves::{m_captured, m_is_capture, m_piece, Move};

verus! {

/// The ordering score of a capture, indexed by victim then attacker (piece codes, 0 for
/// none): a hundred per victim rank (pawn 1 .. king 6) plus five down to zero for the
/// attacker (pawn .. king).
pub const MVV_LVA: [[i32; 13]; 13] = [
    [0, 0, 0, 0, 0, 0, 0, 0, 0, 0, 0, 0, 0],
    [0, 105, 104, 103, 102, 101, 100, 105, 104, 103, 102, 101, 100],
    [0, 205, 204, 203, 202, 201, 200, 205, 204, 203, 202, 201, 200],
    [0, 305, 304, 303, 302, 301, 300, 305, 304, 303, 302, 301, 300],
    [0, 405, 404, 403, 402, 401, 400, 405, 404, 403, 402, 401, 400],
    [0, 505, 504, 503, 502, 501, 500, 505, 504, 503, 502, 501, 500],
    [0, 605, 604, 603, 602, 601, 600, 605, 604, 603, 602, 601, 600],
    [0, 105, 104, 103, 102, 101, 100, 105, 104, 103, 102, 101, 100],
    [0, 205, 204, 203, 202, 201, 200, 205, 204, 203, 202, 201, 200],
    [0, 305, 304, 303, 302, 301, 300, 305, 304, 303, 302, 301, 300],
    [0, 405, 404, 403, 402, 401, 400, 405, 404, 403, 402, 401, 400],
    [0, 505, 504, 503, 502, 501, 500, 505, 504, 503, 502, 501, 500],
    [0, 605, 604, 603, 602, 601, 600, 605, 604, 603, 602, 601, 600],
];

/// The score of the first killer move of a depth.
pub const KILLER_SCORE_0: i32 = 90;

/// The score of the second killer move of a depth.
pub const KILLER_SCORE_1: i32 = 80;

/// The capture score of `victim` taken by `attacker`.
pub open spec fn mvv_lva(victim: int, attacker: int) -> int {
    if victim == 0 || attacker == 0 {
        0
    } else {
        100 * ((victim - 1) % 6 + 1) + 5 - (attacker - 1) % 6
    }
}

fn mvv_lva_entry(victim: u8, attacker: u8) -> (v: i32)
    requires
        victim <= 12,
        attacker <= 12,
    ensures
        v == mvv_lva(victim as int, attacker as int),
{
    MVV_LVA[victim as usize][attacker as usize]
}

/// A move whose capture fields index the capture table.
pub open spec fn scorable(m: u32) -> bool {
    m_is_capture(m) ==> m_captured(m) <= 12 && m_piece(m) <= 12
}

/// The ordering score of a move: captures by victim and attacker, then the two killers.
pub open spec fn move_score(mv: Move, killers: [Option<Move>; 2]) -> int {
    let m = mv@;
    if m_is_capture(m) {
        mvv_lva(m_captured(m) as int, m_piece(m) as int)
    } else if killers[0] == Some(mv) {
        KILLER_SCORE_0 as int
    } else if killers[1] == Some(mv) {
        KILLER_SCORE_1 as int
    } else {
        0
    }
}

/// The ordering score of `mv` given the killer moves of its depth.
pub fn score_move(mv: Move, killers: &[Option<Move>; 2]) -> (r: i32)
    requires
        scorable(mv@),
    ensures
        r == move_score(mv, *killers),
{
    if mv.is_capture() {
        mvv_lva_entry(mv.captured(), mv.piece())
    } else if killers[0] == Some(mv) {
        KILLER_SCORE_0
    } else if killers[1] == Some(mv) {
        KILLER_SCORE_1
    } else {
        0
    }
}

/// `b` is the first position from `start` on holding a move of the highest score.
pub open spec fn first_best(s: Seq<Move>, start: int, b: int, killers: [Option<Move>; 2]) -> bool {
    &&& start <= b < s.len()
    &&& forall|j: int| start <= j < s.len() ==> move_score(#[trigger] s[j], killers) <= move_score(s[b], killers)
    &&& forall|j: int| start <= j < b ==> move_score(#[trigger] s[j], killers) < move_score(s[b], killers)
}

/// Selection step of move ordering: swaps the best-scoring move from `start` on (the first
/// one on a tie) into position `start` and returns it; `None` past the end.
pub fn next_best(moves: &mut [Move], start: usize, killers: &[Option<Move>; 2]) -> (r: Option<Move>)
    requires
        forall|i: int| 0 <= i < old(moves)@.len() ==> scorable(#[trigger] old(moves)@[i]@),
    ensures
        start >= old(moves)@.len() ==> r is None && final(moves)@ == old(moves)@,
        start < old(moves)@.len() ==> exists|b: int| {
            &&& first_best(old(moves)@, start as int, b, *killers)
            &&& r == Some(old(moves)@[b])
            &&& final(moves)@ == old(moves)@.update(start as int, old(moves)@[b]).update(b, old(moves)@[start as int])
        },
{
    if start >= moves.len() {
        return None;
    }
    let mut best_idx = start;
    let mut best_score = score_move(moves[start], killers);
    let mut i = start + 1;
    while i < moves.len()
        invariant
            start < moves@.len(),
            start <= best_idx < i <= moves@.len(),
            moves@ == old(moves)@,
            forall|k: int| 0 <= k < moves@.len() ==> scorable(#[trigger] moves@[k]@),
            best_score == move_score(moves@[best_idx as int], *killers),
            forall|j: int| start <= j < i ==> move_score(#[trigger] moves@[j], *killers) <= best_score,
            forall|j: int| start <= j < best_idx ==> move_score(#[trigger] moves@[j], *killers) < best_score,
        decreases moves@.len() - i,
    {
        let score = score_move(moves[i], killers);
        if score > best_score {
            best_score = score;
            best_idx = i;
        }
        i += 1;
    }
    let a = moves[start];
    let b = moves[best_idx];
    moves[start] = b;
    moves[best_idx] = a;
    proof {
        assert(first_best(old(moves)@, start as int, best_idx as int, *killers));
    }
    Some(moves[start])
}

} // verus!
