use kramer_core::board::{Board};
use kramer_core::moves::{MoveList};


#[test]
fn zobrist_incremental_matches_recomputed() {
    let mut board = Board::startpos();
    let mut list = MoveList::new();
    board.generate_all_moves(&mut list);

    for mv in list.as_slice().iter().copied() {
        println!(
            "making: {} piece={} cap={} flags={:#010x} mailbox[to]={}",
            mv.to_string(),
            mv.piece(),
            mv.captured(),
            mv.flags(),
            board.mailbox[mv.to() as usize]
        );
        let undo = board.make_move(mv);
        assert_eq!(
            board.zobrist,
            board.compute_zobrist(),
            "zobrist mismatch after {}",
            mv.to_string()
        );
        board.unmake_move(mv, undo);
        assert_eq!(
            board.zobrist,
            board.compute_zobrist(),
            "zobrist mismatch after unmaking {}",
            mv.to_string()
        );
    }
}

#[test]
fn zobrist_keys_follow_the_generator() {
    let pieces = kramer_core::zobrist::xorshift_sequence(0x123456789ABCDEF0, 12 * 64);
    for piece in 1..=12usize {
        for sq in 0..64usize {
            assert_eq!(kramer_core::zobrist::ZOBRIST_PIECE[piece][sq], pieces[(piece - 1) * 64 + sq]);
        }
    }
    assert_eq!(kramer_core::zobrist::ZOBRIST_SIDE, kramer_core::zobrist::xorshift_sequence(0xDEADBEEFCAFEBABE, 1)[0]);
    assert_eq!(kramer_core::zobrist::ZOBRIST_CASTLING.to_vec(), kramer_core::zobrist::xorshift_sequence(0xFEEDFACEDEADC0DE, 16));
    assert_eq!(kramer_core::zobrist::ZOBRIST_EP.to_vec(), kramer_core::zobrist::xorshift_sequence(0xABCDEF0123456789, 8));
}

#[test]
fn null_move_keeps_hash_consistent() {
    let mut board =
        Board::from_fen("rnbqkbnr/pppp1ppp/8/4p3/4P3/8/PPPP1PPP/RNBQKBNR w KQkq e6 0 2").unwrap();
    assert_eq!(board.ep_square, 44);
    let before = board.zobrist;
    let undo = board.make_null_move();
    assert_eq!(board.ep_square, 64);
    assert_eq!(board.zobrist, board.compute_zobrist());
    assert_ne!(board.zobrist, before);
    board.unmake_null_move(undo);
    assert_eq!(board.zobrist, before);
    assert_eq!(board.ep_square, 44);
}
