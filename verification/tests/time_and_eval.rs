use kramer_core::board::Board;
use kramer_core::eval::EG_TABLE;
use kramer_core::passed_pawns::{
    build_black_passed_masks, build_white_passed_masks, PASSED_PAWN_EG_BONUS, PASSED_PAWN_MG_BONUS,
};
use kramer_core::time::{allocate_time, allocate_time_from_time_control, allocate_time_ms, TimeControl};
use std::time::Duration;

#[test]
fn time_budget_shares_the_clock() {
    assert_eq!(allocate_time_ms(60_000, 0, None), 1950);
    assert_eq!(allocate_time_ms(60_000, 1000, Some(20)), 3700);
    assert_eq!(allocate_time_ms(1000, 10_000, Some(1)), 450);
    assert_eq!(allocate_time_ms(100, 0, None), 10);
    assert_eq!(allocate_time_ms(0, 0, Some(5)), 10);
}

#[test]
fn allocate_time_is_the_budget_as_a_duration() {
    assert_eq!(allocate_time(60_000, 0, None), Duration::from_millis(1950));
    assert_eq!(allocate_time(60_000, 1000, Some(20)), Duration::from_millis(3700));
}

#[test]
fn time_control_budgets() {
    let tc = TimeControl::TimeLeft {
        white_time: Some(60_000),
        black_time: Some(30_000),
        white_increment: Some(1000),
        black_increment: None,
        moves_to_go: Some(20),
    };
    assert_eq!(allocate_time_from_time_control(true, Some(&tc)), Some(Duration::from_millis(3700)));
    assert_eq!(allocate_time_from_time_control(false, Some(&tc)), Some(Duration::from_millis(1450)));
    let only_white = TimeControl::TimeLeft {
        white_time: Some(60_000),
        black_time: None,
        white_increment: None,
        black_increment: None,
        moves_to_go: None,
    };
    assert_eq!(allocate_time_from_time_control(false, Some(&only_white)), None);
    assert_eq!(
        allocate_time_from_time_control(true, Some(&TimeControl::MoveTime(1000))),
        Some(Duration::from_millis(950))
    );
    assert_eq!(allocate_time_from_time_control(true, Some(&TimeControl::Infinite)), None);
    assert_eq!(allocate_time_from_time_control(true, Some(&TimeControl::Ponder)), None);
    assert_eq!(allocate_time_from_time_control(true, None), None);
}

#[test]
fn startpos_evaluates_to_zero() {
    assert_eq!(Board::startpos().evaluate(), 0);
}

#[test]
fn evaluation_is_from_the_side_to_move() {
    let white = Board::from_fen("4k3/8/8/8/8/8/8/3QK3 w - - 0 1").unwrap();
    let black = Board::from_fen("4k3/8/8/8/8/8/8/3QK3 b - - 0 1").unwrap();
    assert!(white.evaluate() > 0);
    assert_eq!(black.evaluate(), -white.evaluate());
}

#[test]
fn mirrored_positions_evaluate_alike() {
    let a = Board::from_fen("r3k2r/p1ppqpb1/bn2pnp1/3PN3/1p2P3/2N2Q1p/PPPBBPPP/R3K2R w KQkq - 0 1").unwrap();
    let b = Board::from_fen("r3k2r/pppbbppp/2n2q1P/1P2p3/3pn3/BN2PNP1/P1PPQPB1/R3K2R b KQkq - 0 1").unwrap();
    assert_eq!(a.evaluate(), b.evaluate());
}

#[test]
fn bishop_pair_is_worth_a_bonus() {
    let pair = Board::from_fen("4k3/8/8/8/8/8/8/2B1KB2 w - - 0 1").unwrap();
    let one = Board::from_fen("4k3/8/8/8/8/8/8/2B1K3 w - - 0 1").unwrap();
    let knight = Board::from_fen("4k3/8/8/8/8/8/8/2B1KN2 w - - 0 1").unwrap();
    assert!(pair.evaluate() - one.evaluate() > knight.evaluate() - one.evaluate());
}

#[test]
fn white_passed_mask_covers_three_files_ahead() {
    let masks = build_white_passed_masks();
    assert_eq!(masks.len(), 64);
    // e4: files d, e, f on ranks 5 to 8
    assert_eq!(masks[28], 0x3838_3838_0000_0000);
    // a2: files a and b on ranks 3 to 8
    assert_eq!(masks[8], 0x0303_0303_0303_0000);
    assert_eq!(masks[60], 0);
}

#[test]
fn black_passed_mask_covers_three_files_below() {
    let masks = build_black_passed_masks();
    assert_eq!(masks.len(), 64);
    // e5: files d, e, f on ranks 1 to 4
    assert_eq!(masks[36], 0x0000_0000_3838_3838);
    // h7: files g and h on ranks 1 to 6
    assert_eq!(masks[55], 0x0000_C0C0_C0C0_C0C0);
    assert_eq!(masks[3], 0);
}

#[test]
fn passed_masks_mirror_each_other() {
    let w = build_white_passed_masks();
    let b = build_black_passed_masks();
    for sq in 0..64 {
        assert_eq!(w[sq].swap_bytes(), b[sq ^ 56]);
    }
}

#[test]
fn passed_pawn_bonuses_grow_towards_promotion() {
    assert_eq!(PASSED_PAWN_MG_BONUS, [0, 0, 10, 15, 25, 40, 60, 0]);
    assert_eq!(PASSED_PAWN_EG_BONUS, [0, 0, 20, 35, 60, 90, 130, 0]);
}

#[test]
fn passed_pawn_on_e5_earns_its_rank_bonus() {
    // Two kings and a white pawn on e5: no material phase, so the endgame score decides.
    let board = Board::from_fen("4k3/8/8/4P3/8/8/8/4K3 w - - 0 1").unwrap();
    let expected = EG_TABLE[0][36] + EG_TABLE[5][4] - EG_TABLE[11][60] + PASSED_PAWN_EG_BONUS[4];
    assert_eq!(board.evaluate(), expected);
    // A black pawn on d6 stands ahead of it on a file beside it: no bonus.
    let blocked = Board::from_fen("4k3/8/3p4/4P3/8/8/8/4K3 w - - 0 1").unwrap();
    let expected_blocked = EG_TABLE[0][36] + EG_TABLE[5][4] - EG_TABLE[11][60] - EG_TABLE[6][43];
    assert_eq!(blocked.evaluate(), expected_blocked);
}

#[test]
fn time_budget_takes_the_whole_clock_range() {
    // Only the share of the clock and three quarters of the increment must fit.
    let expected = (u64::MAX / 30) - 50;
    assert_eq!(allocate_time_ms(u64::MAX, 1, None), expected);
}
