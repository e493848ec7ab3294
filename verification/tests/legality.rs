use kramer_core::board::{Board, WHITE, BLACK, WR};
use kramer_core::moves::{MoveList};


#[test]
fn startpos_white_not_in_check() {
    let board = Board::startpos();
    assert!(!board.king_in_check(WHITE));
}

#[test]
fn startpos_black_not_in_check() {
    let board = Board::startpos();
    assert!(!board.king_in_check(BLACK));
}

#[test]
fn scholar_mate_black_in_check() {
    // Qxf7# — black king on e8 is in check from queen on f7
    let board =
        Board::from_fen("rnb1kbnr/pppp1Qpp/4p3/8/2B1P3/8/PPPP1PPP/RNB1K1NR b KQkq - 0 4")
            .unwrap();
    assert!(board.king_in_check(BLACK));
}

#[test]
fn white_in_check_from_rook() {
    // black rook on e1, white king on e1 — wait, they cant share
    // black rook on e8, white king on e1, open file
    let board = Board::from_fen("4r3/8/8/8/8/8/8/4K3 w - - 0 1").unwrap();
    assert!(board.king_in_check(WHITE));
}

#[test]
fn white_in_check_from_bishop() {
    let board = Board::from_fen("8/8/8/8/5b2/8/8/2K5 w - - 0 1").unwrap();
    assert!(board.king_in_check(WHITE));
}

#[test]
fn white_in_check_from_knight() {
    // knight on d3 attacks e1
    let board = Board::from_fen("8/8/8/8/8/3n4/8/4K3 w - - 0 1").unwrap();
    assert!(board.king_in_check(WHITE));
}

#[test]
fn white_in_check_from_pawn() {
    // black pawn on d2 attacks e1
    let board = Board::from_fen("8/8/8/8/8/8/3p4/4K3 w - - 0 1").unwrap();
    assert!(board.king_in_check(WHITE));
}

#[test]
fn black_in_check_from_pawn() {
    // white pawn on d7 attacks e8
    let board = Board::from_fen("4k3/3P4/8/8/8/8/8/4K3 b - - 0 1").unwrap();
    assert!(board.king_in_check(BLACK));
}

#[test]
fn white_in_check_from_queen() {
    let board = Board::from_fen("8/8/8/8/8/8/5q2/4K3 w - - 0 1").unwrap();
    assert!(board.king_in_check(WHITE));
}

#[test]
fn not_in_check_blocked_rook() {
    // rook on e8 but pawn on e4 blocks
    let board = Board::from_fen("4r3/8/8/8/4P3/8/8/4K3 w - - 0 1").unwrap();
    assert!(!board.king_in_check(WHITE));
}

#[test]
fn not_in_check_blocked_bishop() {
    // bishop on h4 but pawn on f2 blocks diagonal to e1
    let board = Board::from_fen("8/8/8/8/7b/8/5P2/4K3 w - - 0 1").unwrap();
    assert!(!board.king_in_check(WHITE));
}

#[test]
fn square_attacked_by_white_pawn() {
    let board = Board::from_fen("8/8/8/8/8/3P4/8/8 w - - 0 1").unwrap();
    // white pawn on d3 attacks e4 and c4
    assert!(board.square_attacked(28, WHITE)); // e4
    assert!(board.square_attacked(26, WHITE)); // c4
    assert!(!board.square_attacked(27, WHITE)); // d4 — directly in front, not attacked
}

#[test]
fn square_attacked_by_black_pawn() {
    let board = Board::from_fen("8/8/8/3p4/8/8/8/8 b - - 0 1").unwrap();
    // black pawn on d5 attacks e4 and c4
    assert!(board.square_attacked(28, BLACK)); // e4
    assert!(board.square_attacked(26, BLACK)); // c4
    assert!(!board.square_attacked(35, BLACK)); // d4 — directly in front, not attacked
}

#[test]
fn legal_moves_startpos_count() {
    let mut board = Board::startpos();
    let mut list = MoveList::new();
    board.generate_legal_moves(&mut list);
    assert_eq!(list.len(), 20);
}

#[test]
fn legal_moves_in_check_limited() {
    // king in check from rook on e8, only legal moves are to escape or block
    let mut board = Board::from_fen("4r3/8/8/8/8/8/8/4K3 w - - 0 1").unwrap();
    let mut list = MoveList::new();
    board.generate_legal_moves(&mut list);
    // king must move off the e file — d1, d2, f1, f2 are the only options
    assert!(list.len() > 0);
    for mv in list.as_slice() {
        // every legal move must result in king not being in check
        let mut board2 = board.clone();
        board2.make_move(*mv);
        assert!(
            !board2.king_in_check(WHITE),
            "move {} left king in check",
            mv.to_string()
        );
    }
}

#[test]
fn legal_moves_pinned_piece_cannot_move() {
    // white rook on e4 is pinned by black rook on e8, white king on e1
    let mut board = Board::from_fen("4r3/8/8/8/4R3/8/8/4K3 w - - 0 1").unwrap();
    let mut list = MoveList::new();
    board.generate_legal_moves(&mut list);
    // pinned rook can only move along the e file
    for mv in list.as_slice() {
        if mv.piece() == WR {
            let to_file = mv.to() % 8;
            assert_eq!(to_file, 4, "pinned rook moved off e file: {}", mv.to_string());
        }
    }
}

#[test]
fn legal_moves_checkmate_returns_empty() {
    // fool's mate
    let mut board =
        Board::from_fen("rnb1kbnr/pppp1ppp/4p3/8/6Pq/5P2/PPPPP2P/RNBQKBNR w KQkq - 1 3")
            .unwrap();
    let mut list = MoveList::new();
    board.generate_legal_moves(&mut list);
    assert_eq!(list.len(), 0);
}

#[test]
fn legal_moves_stalemate_returns_empty() {
    // classic stalemate
    let mut board = Board::from_fen("k7/8/1Q6/8/8/8/8/7K b - - 0 1").unwrap();
    let mut list = MoveList::new();
    board.generate_legal_moves(&mut list);
    assert_eq!(list.len(), 0);
}

#[test]
fn castling_not_legal_through_check() {
    // white king cannot castle kingside — f1 is attacked by black rook on f8
    let mut board = Board::from_fen("5r2/8/8/8/8/8/8/4K2R w K - 0 1").unwrap();
    let mut list = MoveList::new();
    board.generate_legal_moves(&mut list);
    let has_castle = list.as_slice().iter().any(|mv| mv.is_castle());
    assert!(!has_castle, "castling through check should not be legal");
}

#[test]
fn legal_moves_have_distinct_texts() {
    for fen in [
        "rnbqkbnr/pppppppp/8/8/8/8/PPPPPPPP/RNBQKBNR w KQkq - 0 1",
        "r3k2r/p1ppqpb1/bn2pnp1/3PN3/1p2P3/2N2Q1p/PPPBBPPP/R3K2R w KQkq - 0 1",
        "r3k2r/Pppp1ppp/1b3nbN/nP6/BBP1P3/q4N2/Pp1P2PP/R2Q1RK1 w kq - 0 1",
        "rnbqkbnr/ppp1p1pp/8/3pPp2/8/8/PPPP1PPP/RNBQKBNR w KQkq f6 0 3",
    ] {
        let mut board = Board::from_fen(fen).unwrap();
        let mut list = MoveList::new();
        board.generate_legal_moves(&mut list);
        let mut texts: Vec<String> = list.as_slice().iter().map(|m| m.to_string()).collect();
        let n = texts.len();
        texts.sort();
        texts.dedup();
        assert_eq!(texts.len(), n, "{fen}");
    }
}

#[test]
fn stale_castling_right_gives_no_castle() {
    // The right is kept, the path is empty, but no rook stands on h1.
    let mut board = Board::from_fen("4k3/8/8/8/8/8/8/4K3 w K - 0 1").unwrap();
    let mut list = MoveList::new();
    board.generate_legal_moves(&mut list);
    assert_eq!(list.len(), 5);
}

#[test]
fn stale_en_passant_square_gives_no_capture() {
    // The en-passant square is set but no black pawn stands in front of it.
    let mut board = Board::from_fen("4k3/8/8/3P4/8/8/8/4K3 w - e6 0 1").unwrap();
    let mut list = MoveList::new();
    board.generate_legal_moves(&mut list);
    assert_eq!(list.len(), 6);
}

#[test]
fn legal_captures_are_the_capturing_legal_moves() {
    let mut board = Board::from_fen("r3k2r/p1ppqpb1/bn2pnp1/3PN3/1p2P3/2N2Q1p/PPPBBPPP/R3K2R w KQkq - 0 1").unwrap();
    let mut all = MoveList::new();
    board.generate_legal_moves(&mut all);
    let mut caps = MoveList::new();
    board.generate_legal_captures(&mut caps);
    let mut from_all: Vec<String> = all.as_slice().iter().filter(|m| m.is_capture()).map(|m| m.to_string()).collect();
    let mut from_caps: Vec<String> = caps.as_slice().iter().map(|m| m.to_string()).collect();
    from_all.sort();
    from_caps.sort();
    assert_eq!(from_all, from_caps);
    assert_eq!(from_caps.len(), 8);
}
