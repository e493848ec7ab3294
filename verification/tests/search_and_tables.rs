use kramer_core::board::Board;
use kramer_core::engine::chosen_move;
use kramer_core::move_ordering::{next_best, score_move, KILLER_SCORE_0, KILLER_SCORE_1};
use kramer_core::moves::{Move, MoveList, FLAG_CAPTURE};
use kramer_core::search::{final_result, record_iteration, SearchResult, INF, MATE_SCORE};
use kramer_core::tt::{TTFlag, TranspositionTable};
use std::sync::atomic::{AtomicBool, AtomicU64};
use std::sync::Arc;

fn quiet(from: u8, to: u8) -> Move {
    Move::new(from, to, 2, 0, 0, 0)
}

#[test]
fn table_stores_and_probes() {
    let mut tt = TranspositionTable::new(1);
    assert!(tt.slot_count() > 0);
    let mv = quiet(6, 21);
    tt.store(12345, 3, 50, TTFlag::Exact, Some(mv));
    assert_eq!(tt.probe(12345, 2, -100, 100), Some((50, Some(mv))));
    assert_eq!(tt.probe(12345, 4, -100, 100), None);
    assert_eq!(tt.probe(54321, 1, -100, 100), None);
    assert_eq!(tt.probe_move(12345), Some(mv));
}

#[test]
fn table_bounds_are_used_only_outside_the_window() {
    let mut tt = TranspositionTable::new(1);
    tt.store(7, 5, 200, TTFlag::LowerBound, None);
    assert_eq!(tt.probe(7, 5, -100, 100), Some((200, None)));
    assert_eq!(tt.probe(7, 5, -100, 300), None);
    tt.clear();
    tt.store(7, 5, -200, TTFlag::UpperBound, None);
    assert_eq!(tt.probe(7, 5, -100, 100), Some((-200, None)));
    assert_eq!(tt.probe(7, 5, -300, 100), None);
}

#[test]
fn table_keeps_the_deeper_entry() {
    let mut tt = TranspositionTable::new(1);
    tt.store(99, 6, 10, TTFlag::Exact, None);
    tt.store(99, 4, 20, TTFlag::Exact, None);
    assert_eq!(tt.probe(99, 1, -100, 100), Some((10, None)));
    tt.clear();
    assert_eq!(tt.probe(99, 0, -100, 100), None);
    assert_eq!(tt.probe_move(99), None);
}

#[test]
fn capture_scores_follow_mvv_lva() {
    let none = [None, None];
    let pawn_takes_queen = Move::new(12, 19, 1, 11, 0, FLAG_CAPTURE);
    let queen_takes_pawn = Move::new(12, 19, 5, 7, 0, FLAG_CAPTURE);
    assert_eq!(score_move(pawn_takes_queen, &none), 505);
    assert_eq!(score_move(queen_takes_pawn, &none), 101);
    assert_eq!(score_move(quiet(1, 18), &none), 0);
}

#[test]
fn killer_moves_score_below_captures() {
    let k0 = quiet(1, 18);
    let k1 = quiet(6, 21);
    let killers = [Some(k0), Some(k1)];
    assert_eq!(score_move(k0, &killers), KILLER_SCORE_0);
    assert_eq!(score_move(k1, &killers), KILLER_SCORE_1);
    assert_eq!(score_move(quiet(8, 16), &killers), 0);
}

#[test]
fn next_best_selects_the_highest_score_first() {
    let a = quiet(8, 16);
    let b = Move::new(12, 19, 1, 11, 0, FLAG_CAPTURE);
    let c = Move::new(12, 19, 5, 7, 0, FLAG_CAPTURE);
    let mut moves = [a, c, b];
    let none = [None, None];
    assert_eq!(next_best(&mut moves, 0, &none), Some(b));
    assert_eq!(moves, [b, c, a]);
    assert_eq!(next_best(&mut moves, 1, &none), Some(c));
    assert_eq!(next_best(&mut moves, 2, &none), Some(a));
    assert_eq!(next_best(&mut moves, 3, &none), None);
}

#[test]
fn move_to_front_moves_the_first_match() {
    let mut list = MoveList::new();
    let a = quiet(8, 16);
    let b = quiet(9, 17);
    let c = quiet(10, 18);
    list.push(a);
    list.push(b);
    list.push(c);
    list.move_to_front(c);
    assert_eq!(list.as_slice(), &[c, b, a]);
}

#[test]
fn iteration_records_and_stops_at_mate() {
    let mut r = SearchResult { best_move: None, score: 0, depth: 0 };
    let mv = quiet(12, 28);
    assert!(record_iteration(&mut r, 3, (Some(mv), 35)));
    assert_eq!(r, SearchResult { best_move: Some(mv), score: 35, depth: 3 });
    assert!(!record_iteration(&mut r, 4, (Some(mv), MATE_SCORE - 5)));
    assert!(!record_iteration(&mut r, 5, (Some(mv), -(MATE_SCORE - 100))));
    assert!(record_iteration(&mut r, 6, (Some(mv), MATE_SCORE - 101)));
    assert_eq!(final_result(r), Some(r));
    assert_eq!(final_result(SearchResult { best_move: None, score: 0, depth: 2 }), None);
}

#[test]
fn search_finds_mate_in_one() {
    let mut board = Board::from_fen("6k1/5ppp/8/8/8/8/8/R5K1 w - - 0 1").unwrap();
    let stop = Arc::new(AtomicBool::new(false));
    let nodes = Arc::new(AtomicU64::new(0));
    let mut tt = TranspositionTable::new(1);
    let (best, score) = board.search_root(2, &stop, &mut tt, &nodes).unwrap();
    assert_eq!(best.unwrap().to_string(), "a1a8");
    assert!(score >= MATE_SCORE - 100 && score < INF);
    assert_eq!(board.to_fen(), "6k1/5ppp/8/8/8/8/8/R5K1 w - - 0 1");
}

#[test]
fn search_takes_a_hanging_queen() {
    let mut board = Board::from_fen("4k3/8/8/3q4/8/8/3R4/4K3 w - - 0 1").unwrap();
    let stop = Arc::new(AtomicBool::new(false));
    let nodes = Arc::new(AtomicU64::new(0));
    let mut tt = TranspositionTable::new(1);
    let (best, _) = board.search_root(3, &stop, &mut tt, &nodes).unwrap();
    assert_eq!(best.unwrap().to_string(), "d2d5");
}

#[test]
fn search_without_moves_gives_none() {
    let mut board = Board::from_fen("7k/5Q2/6K1/8/8/8/8/8 b - - 0 1").unwrap();
    let stop = Arc::new(AtomicBool::new(false));
    let nodes = Arc::new(AtomicU64::new(0));
    let mut tt = TranspositionTable::new(1);
    assert!(board.search_root(1, &stop, &mut tt, &nodes).is_none());
}

#[test]
fn stopped_search_gives_none() {
    let mut board = Board::startpos();
    let stop = Arc::new(AtomicBool::new(true));
    let nodes = Arc::new(AtomicU64::new(0));
    let mut tt = TranspositionTable::new(1);
    assert!(board.search_root(3, &stop, &mut tt, &nodes).is_none());
}

#[test]
fn fifty_move_rule_scores_a_draw() {
    let mut board = Board::from_fen("4k3/8/8/3q4/8/8/3R4/4K3 w - - 100 80").unwrap();
    let stop = Arc::new(AtomicBool::new(false));
    let nodes = Arc::new(AtomicU64::new(0));
    let mut tt = TranspositionTable::new(1);
    assert_eq!(board.negamax(3, -INF, INF, &stop, &mut tt, &nodes), Some(0));
}

#[test]
fn chosen_move_prefers_the_search_result() {
    let mut board = Board::startpos();
    let mv = quiet(12, 28);
    let r = SearchResult { best_move: Some(mv), score: 0, depth: 1 };
    assert_eq!(chosen_move(&mut board, Some(r)), Some(mv));
}

#[test]
fn chosen_move_falls_back_to_a_legal_move() {
    let mut board = Board::startpos();
    let mv = chosen_move(&mut board, None).unwrap();
    let mut list = MoveList::new();
    board.generate_legal_moves(&mut list);
    assert!(list.as_slice().contains(&mv));
    let mut mated = Board::from_fen("7k/6Q1/6K1/8/8/8/8/8 b - - 0 1").unwrap();
    assert_eq!(chosen_move(&mut mated, None), None);
}

#[test]
fn negamax_scores_mate_and_stalemate() {
    let stop = Arc::new(AtomicBool::new(false));
    let nodes = Arc::new(AtomicU64::new(0));
    let mut tt = TranspositionTable::new(1);
    let mut mated = Board::from_fen("7k/6Q1/6K1/8/8/8/8/8 b - - 0 1").unwrap();
    assert_eq!(mated.negamax(2, -INF, INF, &stop, &mut tt, &nodes), Some(-(MATE_SCORE - 2)));
    let mut stalemated = Board::from_fen("7k/5Q2/6K1/8/8/8/8/8 b - - 0 1").unwrap();
    assert_eq!(stalemated.negamax(1, -INF, INF, &stop, &mut tt, &nodes), Some(0));
}

#[test]
fn quiescence_is_the_clamped_capture_value() {
    let stop = Arc::new(AtomicBool::new(false));
    let nodes = Arc::new(AtomicU64::new(0));
    let mut tt = TranspositionTable::new(1);
    let mut board = Board::from_fen("4k3/8/8/3q4/8/8/3R4/4K3 w - - 0 1").unwrap();
    let stand_pat = board.evaluate();
    let q = board.quiescence(-INF, INF, &stop, &mut tt, &nodes).unwrap();
    assert!(q > stand_pat);
    assert_eq!(board.quiescence(q - 10, q - 5, &stop, &mut tt, &nodes), Some(q - 5));
    assert_eq!(board.quiescence(q + 5, q + 10, &stop, &mut tt, &nodes), Some(q + 5));
    assert_eq!(board.quiescence(q - 5, q + 5, &stop, &mut tt, &nodes), Some(q));
    let mut quiet = Board::startpos();
    let e = quiet.evaluate();
    assert_eq!(quiet.quiescence(-INF, INF, &stop, &mut tt, &nodes), Some(e));
}

#[test]
fn negamax_depth_zero_is_quiescence() {
    let stop = Arc::new(AtomicBool::new(false));
    let nodes = Arc::new(AtomicU64::new(0));
    let mut tt = TranspositionTable::new(1);
    let mut board = Board::from_fen("4k3/8/8/3q4/8/8/3R4/4K3 w - - 0 1").unwrap();
    let q = board.quiescence(-INF, INF, &stop, &mut tt, &nodes);
    assert_eq!(board.negamax(0, -INF, INF, &stop, &mut tt, &nodes), q);
}

#[test]
fn empty_table_answers_hash_zero_at_depth_zero() {
    let tt = TranspositionTable::new(1);
    assert_eq!(tt.probe(0, 0, -100, 100), Some((0, None)));
    assert_eq!(tt.probe(0, 1, -100, 100), None);
    assert_eq!(tt.probe(5, 0, -100, 100), None);
}

#[test]
fn search_root_always_names_a_move() {
    let mut board = Board::startpos();
    let stop = Arc::new(AtomicBool::new(false));
    let nodes = Arc::new(AtomicU64::new(0));
    let mut tt = TranspositionTable::new(1);
    let (best, score) = board.search_root(2, &stop, &mut tt, &nodes).unwrap();
    assert!(best.is_some());
    assert!(score > -INF && score < INF);
    assert_eq!(tt.probe_move(board.compute_zobrist()), best);
}

#[test]
fn search_runs_with_a_stale_castling_right() {
    // The king-side right is kept though h1 is empty; f1 and g1 are occupied.
    let mut board = Board::from_fen("rnbqkbnr/pppppppp/8/8/8/8/PPPPPPPP/RNBQKBN1 w KQkq - 0 1").unwrap();
    assert!(board.is_sound());
    assert!(board.perft_ready_for(2 + board.piece_count()));
    let stop = Arc::new(AtomicBool::new(false));
    let nodes = Arc::new(AtomicU64::new(0));
    let mut tt = TranspositionTable::new(1);
    let (best, _) = board.search_root(2, &stop, &mut tt, &nodes).unwrap();
    assert!(best.is_some());
    assert_eq!(board.piece_count(), 31);
}

#[test]
fn quiet_cutoffs_become_killers() {
    let mut board = Board::startpos();
    let stop = Arc::new(AtomicBool::new(false));
    let nodes = Arc::new(AtomicU64::new(0));
    let mut tt = TranspositionTable::new(1);
    assert!(board.killers.iter().all(|k| k[0].is_none()));
    board.search_root(3, &stop, &mut tt, &nodes).unwrap();
    let learned: Vec<Move> = board.killers.iter().filter_map(|k| k[0]).collect();
    assert!(!learned.is_empty());
    assert!(learned.iter().all(|m| !m.is_capture()));
}
