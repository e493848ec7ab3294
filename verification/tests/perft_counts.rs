use kramer_core::board::{Board};


#[test]
fn perft_startpos_depth1() {
    let mut board = Board::startpos();
    assert_eq!(board.perft(1), 20);
}

#[test]
fn perft_startpos_depth2() {
    let mut board = Board::startpos();
    assert_eq!(board.perft(2), 400);
}

#[test]
fn perft_startpos_depth3() {
    let mut board = Board::startpos();
    assert_eq!(board.perft(3), 8902);
}

#[test]
fn perft_startpos_depth4() {
    let mut board = Board::startpos();
    assert_eq!(board.perft(4), 197281);
}

#[test]
fn perft_startpos_depth5() {
    let mut board = Board::startpos();
    assert_eq!(board.perft(5), 4865609);
}

#[test]
fn perft_kiwipete_depth1() {
    let mut board =
        Board::from_fen("r3k2r/p1ppqpb1/bn2pnp1/3PN3/1p2P3/2N2Q1p/PPPBBPPP/R3K2R w KQkq - 0 1")
            .unwrap();
    assert_eq!(board.perft(1), 48);
}

#[test]
fn perft_kiwipete_depth2() {
    let mut board =
        Board::from_fen("r3k2r/p1ppqpb1/bn2pnp1/3PN3/1p2P3/2N2Q1p/PPPBBPPP/R3K2R w KQkq - 0 1")
            .unwrap();
    assert_eq!(board.perft(2), 2039);
}

#[test]
fn perft_kiwipete_depth3() {
    let mut board =
        Board::from_fen("r3k2r/p1ppqpb1/bn2pnp1/3PN3/1p2P3/2N2Q1p/PPPBBPPP/R3K2R w KQkq - 0 1")
            .unwrap();
    assert_eq!(board.perft(3), 97862);
}
#[test]
fn perft_position3_depth1() {
    let mut board = Board::from_fen("8/2p5/3p4/KP5r/1R3p1k/8/4P1P1/8 w - - 0 1").unwrap();
    assert_eq!(board.perft(1), 14);
}

#[test]
fn perft_position3_depth2() {
    let mut board = Board::from_fen("8/2p5/3p4/KP5r/1R3p1k/8/4P1P1/8 w - - 0 1").unwrap();
    assert_eq!(board.perft(2), 191);
}

#[test]
fn perft_position3_depth3() {
    let mut board = Board::from_fen("8/2p5/3p4/KP5r/1R3p1k/8/4P1P1/8 w - - 0 1").unwrap();
    assert_eq!(board.perft(3), 2812);
}

#[test]
fn perft_divide_kiwipete_depth3() {
    let mut board =
        Board::from_fen("r3k2r/p1ppqpb1/bn2pnp1/3PN3/1p2P3/2N2Q1p/PPPBBPPP/R3K2R w KQkq - 0 1")
            .unwrap();
    board.perft_divide(3);
}

#[test]
fn perft_divide_splits_the_total() {
    let mut board =
        Board::from_fen("r3k2r/p1ppqpb1/bn2pnp1/3PN3/1p2P3/2N2Q1p/PPPBBPPP/R3K2R w KQkq - 0 1")
            .unwrap();
    let (moves, total) = board.perft_divide(3);
    assert_eq!(moves.len(), 48);
    assert_eq!(total, 97862);
    let sum: u64 = moves.iter().map(|(_, n)| *n).sum();
    assert_eq!(sum, total);
    assert_eq!(board.to_fen(), "r3k2r/p1ppqpb1/bn2pnp1/3PN3/1p2P3/2N2Q1p/PPPBBPPP/R3K2R w KQkq - 0 1");
}

#[test]
fn perft_divide_depth_one_counts_each_move_once() {
    let mut board = Board::startpos();
    let (moves, total) = board.perft_divide(1);
    assert_eq!(moves.len(), 20);
    assert!(moves.iter().all(|(_, n)| *n == 1));
    assert_eq!(total, 20);
}
