use kramer_core::board::{Board, WHITE, BLACK, WP, WN, BP, BN};
use kramer_core::moves::{MoveList, sq};


fn collect(board: &Board) -> Vec<String> {
    let mut list = MoveList::new();
    board.generate_knight_moves(&mut list);

    let mut moves: Vec<String> = list.as_slice().iter().map(|m| m.to_string()).collect();

    moves.sort();
    moves
}

fn contains(moves: &[String], mv: &str) {
    assert!(
        moves.contains(&mv.to_string()),
        "missing move {} in {:?}",
        mv,
        moves
    );
}

#[test]
fn startpos_white_knights() {
    let mut board = Board::startpos();
    board.side_to_move = WHITE as u8;

    let moves = collect(&board);

    assert_eq!(moves.len(), 4);
    contains(&moves, "b1a3");
    contains(&moves, "b1c3");
    contains(&moves, "g1f3");
    contains(&moves, "g1h3");
}

#[test]
fn startpos_black_knights() {
    let mut board = Board::startpos();
    board.side_to_move = BLACK as u8;

    let moves = collect(&board);

    assert_eq!(moves.len(), 4);
    contains(&moves, "b8a6");
    contains(&moves, "b8c6");
    contains(&moves, "g8f6");
    contains(&moves, "g8h6");
}

#[test]
fn knight_center_has_eight_moves() {
    let mut board = Board::empty();

    board.put_piece(WN, sq('d', '4'));
    board.side_to_move = WHITE as u8;

    let moves = collect(&board);

    assert_eq!(moves.len(), 8);

    let expected = [
        "d4b3", "d4b5", "d4c2", "d4c6", "d4e2", "d4e6", "d4f3", "d4f5",
    ];

    for mv in expected {
        contains(&moves, mv);
    }
}

#[test]
fn knight_corner_has_two_moves() {
    let mut board = Board::empty();

    board.put_piece(WN, sq('a', '1'));
    board.side_to_move = WHITE as u8;

    let moves = collect(&board);

    assert_eq!(moves.len(), 2);
    contains(&moves, "a1b3");
    contains(&moves, "a1c2");
}

#[test]
fn knight_respects_own_blockers() {
    let mut board = Board::empty();

    board.put_piece(WN, sq('d', '4'));
    board.put_piece(WP, sq('b', '5'));
    board.put_piece(WP, sq('e', '6'));

    board.side_to_move = WHITE as u8;

    let moves = collect(&board);

    assert!(!moves.contains(&"d4b5".to_string()));
    assert!(!moves.contains(&"d4e6".to_string()));
    assert_eq!(moves.len(), 6);
}

#[test]
fn knight_can_capture_enemy() {
    let mut board = Board::empty();

    board.put_piece(WN, sq('d', '4'));
    board.put_piece(BP, sq('b', '5'));
    board.put_piece(BP, sq('f', '5'));

    board.side_to_move = WHITE as u8;

    let moves = collect(&board);

    contains(&moves, "d4b5");
    contains(&moves, "d4f5");
    assert_eq!(moves.len(), 8);
}

#[test]
fn black_knight_can_capture_white() {
    let mut board = Board::empty();

    board.put_piece(BN, sq('e', '5'));
    board.put_piece(WP, sq('d', '3'));
    board.put_piece(WP, sq('f', '3'));

    board.side_to_move = BLACK as u8;

    let moves = collect(&board);

    contains(&moves, "e5d3");
    contains(&moves, "e5f3");
}

#[test]
fn knight_no_wraparound_from_h_file() {
    let mut board = Board::empty();

    board.put_piece(WN, sq('h', '4'));
    board.side_to_move = WHITE as u8;

    let moves = collect(&board);

    assert_eq!(moves.len(), 4);

    contains(&moves, "h4f3");
    contains(&moves, "h4f5");
    contains(&moves, "h4g2");
    contains(&moves, "h4g6");
}

#[test]
fn knight_no_wraparound_from_a_file() {
    let mut board = Board::empty();

    board.put_piece(WN, sq('a', '4'));
    board.side_to_move = WHITE as u8;

    let moves = collect(&board);

    assert_eq!(moves.len(), 4);

    contains(&moves, "a4b2");
    contains(&moves, "a4b6");
    contains(&moves, "a4c3");
    contains(&moves, "a4c5");
}
