use kramer_core::board::Board;
use kramer_core::cli::{KramerCli, KramerCommand};
use kramer_core::fen::FenError;

fn err(fen: &str) -> FenError {
    Board::from_fen(fen).unwrap_err()
}

#[test]
fn fen_field_count_error() {
    assert_eq!(err("rnbqkbnr/pppppppp/8/8/8/8/PPPPPPPP/RNBQKBNR w KQkq - 0"), FenError::FieldCount);
    assert_eq!(err(""), FenError::FieldCount);
}

#[test]
fn fen_placement_error() {
    assert_eq!(err("rnbqkbnr/pppppppp/8/8/8/8/PPPPPPPP/RNBQKBNX w KQkq - 0 1"), FenError::PiecePlacement);
    assert_eq!(err("rnbqkbnr/pppppppp/9/8/8/8/PPPPPPPP/RNBQKBNR w KQkq - 0 1"), FenError::PiecePlacement);
    assert_eq!(err("rnbqkbnr/pppppppp/8/8/8/8/RNBQKBNR w KQkq - 0 1"), FenError::PiecePlacement);
}

#[test]
fn fen_side_error() {
    assert_eq!(err("rnbqkbnr/pppppppp/8/8/8/8/PPPPPPPP/RNBQKBNR x KQkq - 0 1"), FenError::SideToMove);
}

#[test]
fn fen_castling_error() {
    assert_eq!(err("rnbqkbnr/pppppppp/8/8/8/8/PPPPPPPP/RNBQKBNR w KQxq - 0 1"), FenError::Castling);
}

#[test]
fn fen_en_passant_error() {
    assert_eq!(err("rnbqkbnr/pppppppp/8/8/8/8/PPPPPPPP/RNBQKBNR w KQkq e9 0 1"), FenError::EnPassant);
}

#[test]
fn fen_clock_errors() {
    assert_eq!(err("rnbqkbnr/pppppppp/8/8/8/8/PPPPPPPP/RNBQKBNR w KQkq - x 1"), FenError::Halfmove);
    assert_eq!(err("rnbqkbnr/pppppppp/8/8/8/8/PPPPPPPP/RNBQKBNR w KQkq - 0 -1"), FenError::Fullmove);
}

#[test]
fn fen_round_trips() {
    for fen in [
        "rnbqkbnr/pppppppp/8/8/8/8/PPPPPPPP/RNBQKBNR w KQkq - 0 1",
        "r3k2r/p1ppqpb1/bn2pnp1/3PN3/1p2P3/2N2Q1p/PPPBBPPP/R3K2R w KQkq - 0 1",
        "8/2p5/3p4/KP5r/1R3p1k/8/4P1P1/8 w - - 0 1",
        "rnbqkbnr/pppp1ppp/8/4p3/4P3/8/PPPP1PPP/RNBQKBNR w KQkq e6 0 2",
        "8/5k2/3p4/1p1Pp2p/pP2Pp1P/P4P1K/8/8 b - - 99 50",
    ] {
        assert_eq!(Board::from_fen(fen).unwrap().to_fen(), fen);
    }
}

#[test]
fn cli_types_compare() {
    let cli = KramerCli { command: Some(KramerCommand::Log) };
    assert_eq!(cli.command, Some(KramerCommand::Log));
    assert_ne!(KramerCommand::Log, KramerCommand::LogLocation);
    assert_eq!(KramerCli { command: None }.command, None);
}
