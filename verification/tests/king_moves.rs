use kramer_core::board::{Board, WHITE, WP, WK, BP};
use kramer_core::moves::{MoveList, sq};


fn collect(board: &Board) -> Vec<String> {
    let mut list = MoveList::new();
    board.generate_king_moves(&mut list);

    let mut moves: Vec<String> = list.as_slice().iter().map(|m| m.to_string()).collect();

    moves.sort();
    moves
}

#[test]
fn king_center_full_mobility() {
    let mut board = Board::empty();

    board.put_piece(WK, sq('e', '4'));
    board.side_to_move = WHITE as u8;

    let moves = collect(&board);

    let expected = vec![
        "e4d3", "e4d4", "e4d5", "e4e3", "e4e5", "e4f3", "e4f4", "e4f5",
    ];

    assert_eq!(moves.len(), 8);
    for m in expected {
        assert!(moves.contains(&m.to_string()));
    }
}

#[test]
fn king_corner_a1() {
    let mut board = Board::empty();

    board.put_piece(WK, sq('a', '1'));
    board.side_to_move = WHITE as u8;

    let moves = collect(&board);

    let expected = vec!["a1a2", "a1b1", "a1b2"];

    assert_eq!(moves.len(), 3);
    for m in expected {
        assert!(moves.contains(&m.to_string()));
    }
}

#[test]
fn king_corner_h8() {
    let mut board = Board::empty();

    board.put_piece(WK, sq('h', '8'));
    board.side_to_move = WHITE as u8;

    let moves = collect(&board);

    let expected = vec!["h8g7", "h8g8", "h8h7"];

    assert_eq!(
        moves.len(),
        3,
        "found: {:?}, expected: {:?}",
        moves,
        expected
    );
    for m in expected {
        assert!(moves.contains(&m.to_string()));
    }
}

#[test]
fn king_surrounded_by_own_pieces() {
    let mut board = Board::empty();

    board.put_piece(WK, sq('e', '4'));

    board.put_piece(WP, sq('d', '3'));
    board.put_piece(WP, sq('d', '4'));
    board.put_piece(WP, sq('d', '5'));
    board.put_piece(WP, sq('e', '3'));
    board.put_piece(WP, sq('e', '5'));
    board.put_piece(WP, sq('f', '3'));
    board.put_piece(WP, sq('f', '4'));
    board.put_piece(WP, sq('f', '5'));

    board.side_to_move = WHITE as u8;

    let moves = collect(&board);

    assert!(moves.is_empty());
}

#[test]
fn king_can_capture() {
    let mut board = Board::empty();

    board.put_piece(WK, sq('e', '4'));
    board.put_piece(BP, sq('e', '5'));
    board.put_piece(BP, sq('f', '4'));

    board.side_to_move = WHITE as u8;

    let moves = collect(&board);

    assert!(moves.contains(&"e4e5".to_string()));
    assert!(moves.contains(&"e4f4".to_string()));
}

#[test]
fn king_no_file_wrap_bug() {
    let mut board = Board::empty();

    board.put_piece(WK, sq('h', '4'));
    board.side_to_move = WHITE as u8;

    let moves = collect(&board);

    assert!(!moves.contains(&"h4a3".to_string()));
    assert!(!moves.contains(&"h4a4".to_string()));
    assert!(!moves.contains(&"h4a5".to_string()));
}
