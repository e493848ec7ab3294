use kramer_core::board::{Board};


fn roundtrip(fen: &str) {
    let board = Board::from_fen(fen)
        .unwrap_or_else(|e| panic!("failed to parse FEN:\n{fen}\nerror: {e:?}"));

    let out = board.to_fen();

    assert_eq!(
        out, fen,
        "\nroundtrip mismatch\ninput : {fen}\noutput: {out}\n"
    );
}

#[test]
fn roundtrip_startpos() {
    roundtrip("rnbqkbnr/pppppppp/8/8/8/8/PPPPPPPP/RNBQKBNR w KQkq - 0 1");
}

#[test]
fn roundtrip_empty_board() {
    roundtrip("8/8/8/8/8/8/8/8 w - - 0 1");
}

#[test]
fn roundtrip_kings_only() {
    roundtrip("4k3/8/8/8/8/8/8/4K3 w - - 0 1");
}

#[test]
fn roundtrip_castling_all_rights() {
    roundtrip("r3k2r/8/8/8/8/8/8/R3K2R w KQkq - 0 1");
}

#[test]
fn roundtrip_castling_no_rights() {
    roundtrip("r3k2r/8/8/8/8/8/8/R3K2R b - - 17 42");
}

#[test]
fn roundtrip_en_passant_white_can_capture() {
    roundtrip("rnbqkbnr/pppp1ppp/8/4p3/3P4/8/PPP1PPPP/RNBQKBNR b KQkq d3 0 2");
}

#[test]
fn roundtrip_en_passant_black_can_capture() {
    roundtrip("rnbqkbnr/ppp1pppp/8/3p4/4P3/8/PPPP1PPP/RNBQKBNR w KQkq e6 0 2");
}

#[test]
fn roundtrip_mixed_midgame() {
    roundtrip("r2q1rk1/pp2bppp/2np1n2/2p1p3/2P1P3/2NP1N2/PPQ1BPPP/R1B2RK1 w - - 3 10");
}

#[test]
fn roundtrip_promotions_present() {
    roundtrip("Q6k/8/8/8/8/8/8/K6q w - - 0 1");
}

#[test]
fn roundtrip_sparse_position() {
    roundtrip("8/3k4/8/8/2Q5/8/4K3/8 b - - 99 150");
}

#[test]
fn startpos_constructor_matches_fen() {
    let board = Board::startpos();

    assert_eq!(
        board.to_fen(),
        "rnbqkbnr/pppppppp/8/8/8/8/PPPPPPPP/RNBQKBNR w KQkq - 0 1"
    );
}

#[test]
fn default_is_startpos() {
    let board = Board::default();

    assert_eq!(
        board.to_fen(),
        "rnbqkbnr/pppppppp/8/8/8/8/PPPPPPPP/RNBQKBNR w KQkq - 0 1"
    );
}
