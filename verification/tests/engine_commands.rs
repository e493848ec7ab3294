use kramer_core::engine::{
    parse_i64, Engine, EngineAction, EngineCommand, EngineOptions, HASH_DEFAULT, THREADS_DEFAULT,
};
use kramer_core::time::TimeControl;
use std::time::Duration;

const START: &str = "rnbqkbnr/pppppppp/8/8/8/8/PPPPPPPP/RNBQKBNR w KQkq - 0 1";

fn fen_of(engine: &Engine) -> String {
    engine.board().clone().to_fen()
}

fn set_option(engine: &mut Engine, name: &str, value: Option<&str>, max_threads: i64) -> Vec<EngineAction> {
    engine.command(EngineCommand::SetOption {
        name: name.to_string(),
        value: value.map(|v| v.to_string()),
        max_threads,
    })
}

fn position(engine: &mut Engine, startpos: bool, fen: Option<&str>, moves: &[&str]) -> Vec<EngineAction> {
    engine.command(EngineCommand::Position {
        startpos,
        fen: fen.map(|f| f.to_string()),
        moves: moves.iter().map(|m| m.to_string()).collect(),
    })
}

#[test]
fn default_options() {
    let o = EngineOptions::default();
    assert_eq!(o.hash(), HASH_DEFAULT);
    assert_eq!(o.threads(), THREADS_DEFAULT);
}

#[test]
fn uci_identifies_and_sets_up_the_start() {
    let mut e = Engine::new();
    let actions = e.command(EngineCommand::Uci);
    assert_eq!(actions.len(), 1);
    assert!(matches!(actions[0], EngineAction::Identify));
    assert_eq!(fen_of(&e), START);
}

#[test]
fn isready_answers_readyok() {
    let mut e = Engine::new();
    let actions = e.command(EngineCommand::IsReady);
    assert_eq!(actions.len(), 1);
    assert!(matches!(actions[0], EngineAction::ReadyOk));
}

#[test]
fn debug_switches() {
    let mut e = Engine::new();
    assert!(!e.debug());
    assert!(e.command(EngineCommand::Debug(true)).is_empty());
    assert!(e.debug());
    e.command(EngineCommand::Debug(false));
    assert!(!e.debug());
}

#[test]
fn hash_option_in_range_resizes_the_table() {
    let mut e = Engine::new();
    let actions = set_option(&mut e, "Hash", Some("64"), 8);
    assert_eq!(actions.len(), 1);
    assert!(matches!(actions[0], EngineAction::ResizeTable(64)));
    assert_eq!(e.options().hash(), 64);
}

#[test]
fn hash_option_out_of_range_or_unreadable_is_ignored() {
    let mut e = Engine::new();
    assert!(set_option(&mut e, "Hash", Some("0"), 8).is_empty());
    assert!(set_option(&mut e, "Hash", Some("4097"), 8).is_empty());
    assert!(set_option(&mut e, "Hash", Some("big"), 8).is_empty());
    assert_eq!(e.options().hash(), HASH_DEFAULT);
}

#[test]
fn hash_option_without_value_restores_the_default() {
    let mut e = Engine::new();
    set_option(&mut e, "Hash", Some("128"), 8);
    let actions = set_option(&mut e, "Hash", None, 8);
    assert!(matches!(actions[0], EngineAction::ResizeTable(16)));
    assert_eq!(e.options().hash(), HASH_DEFAULT);
}

#[test]
fn threads_option_is_bounded_by_the_machine() {
    let mut e = Engine::new();
    assert!(set_option(&mut e, "Threads", Some("4"), 8).is_empty());
    assert_eq!(e.options().threads(), 4);
    set_option(&mut e, "Threads", Some("9"), 8);
    assert_eq!(e.options().threads(), 4);
    set_option(&mut e, "Threads", None, 8);
    assert_eq!(e.options().threads(), THREADS_DEFAULT);
}

#[test]
fn unknown_option_changes_nothing() {
    let mut e = Engine::new();
    assert!(set_option(&mut e, "Ponder", Some("true"), 8).is_empty());
    assert_eq!(e.options(), EngineOptions::default());
}

#[test]
fn position_startpos_with_moves() {
    let mut e = Engine::new();
    assert!(position(&mut e, true, None, &["e2e4", "e7e5"]).is_empty());
    assert_eq!(fen_of(&e), "rnbqkbnr/pppp1ppp/8/4p3/4P3/8/PPPP1PPP/RNBQKBNR w KQkq e6 0 2");
}

#[test]
fn position_fen_with_promotion() {
    let mut e = Engine::new();
    position(&mut e, false, Some("8/P6k/8/8/8/8/8/K7 w - - 0 1"), &["a7a8q"]);
    assert_eq!(fen_of(&e), "Q7/7k/8/8/8/8/8/K7 b - - 0 1");
}

#[test]
fn position_stops_at_an_illegal_move() {
    let mut e = Engine::new();
    position(&mut e, true, None, &["e2e4", "e2e4", "d7d5"]);
    assert_eq!(fen_of(&e), "rnbqkbnr/pppppppp/8/8/4P3/8/PPPP1PPP/RNBQKBNR b KQkq e3 0 1");
}

#[test]
fn position_with_bad_fen_keeps_the_board() {
    let mut e = Engine::new();
    position(&mut e, true, None, &["g1f3"]);
    let before = fen_of(&e);
    position(&mut e, false, Some("not a fen"), &["e2e4"]);
    assert_eq!(fen_of(&e), before);
}

#[test]
fn ucinewgame_clears_the_table() {
    let mut e = Engine::new();
    let actions = e.command(EngineCommand::UciNewGame);
    assert!(matches!(actions[0], EngineAction::ClearTable));
}

#[test]
fn go_stops_and_starts_a_search() {
    let mut e = Engine::new();
    e.command(EngineCommand::Uci);
    let actions = e.command(EngineCommand::Go { depth: Some(3), time_control: None });
    assert_eq!(actions.len(), 2);
    assert!(matches!(actions[0], EngineAction::StopSearch));
    match &actions[1] {
        EngineAction::StartSearch { board, max_depth, time_limit } => {
            assert_eq!(*max_depth, 3);
            assert!(time_limit.is_none());
            assert_eq!(board.clone().to_fen(), START);
        }
        _ => panic!("expected a search"),
    }
}

#[test]
fn go_without_depth_searches_to_99_with_the_clock() {
    let mut e = Engine::new();
    e.command(EngineCommand::Uci);
    let tc = TimeControl::TimeLeft {
        white_time: Some(60_000),
        black_time: Some(60_000),
        white_increment: None,
        black_increment: None,
        moves_to_go: None,
    };
    let actions = e.command(EngineCommand::Go { depth: None, time_control: Some(tc) });
    match &actions[1] {
        EngineAction::StartSearch { max_depth, time_limit, .. } => {
            assert_eq!(*max_depth, 99);
            assert_eq!(*time_limit, Some(Duration::from_millis(1950)));
        }
        _ => panic!("expected a search"),
    }
}

#[test]
fn go_with_zero_moves_to_go_is_untimed() {
    let mut e = Engine::new();
    e.command(EngineCommand::Uci);
    let tc = TimeControl::TimeLeft {
        white_time: Some(60_000),
        black_time: None,
        white_increment: None,
        black_increment: None,
        moves_to_go: Some(0),
    };
    let actions = e.command(EngineCommand::Go { depth: None, time_control: Some(tc) });
    match &actions[1] {
        EngineAction::StartSearch { time_limit, .. } => assert!(time_limit.is_none()),
        _ => panic!("expected a search"),
    }
}

#[test]
fn stop_stops_the_search() {
    let mut e = Engine::new();
    let actions = e.command(EngineCommand::Stop);
    assert_eq!(actions.len(), 1);
    assert!(matches!(actions[0], EngineAction::StopSearch));
}

#[test]
fn other_commands_do_nothing() {
    let mut e = Engine::new();
    e.command(EngineCommand::Uci);
    for cmd in [EngineCommand::Register, EngineCommand::PonderHit, EngineCommand::Quit, EngineCommand::Other] {
        assert!(e.command(cmd).is_empty());
    }
    assert_eq!(fen_of(&e), START);
}

#[test]
fn parse_i64_reads_like_from_str() {
    assert_eq!(parse_i64("42"), Some(42));
    assert_eq!(parse_i64("-7"), Some(-7));
    assert_eq!(parse_i64("+5"), Some(5));
    assert_eq!(parse_i64(""), None);
    assert_eq!(parse_i64("-"), None);
    assert_eq!(parse_i64("1a"), None);
    assert_eq!(parse_i64(" 1"), None);
    assert_eq!(parse_i64("9223372036854775807"), Some(i64::MAX));
    assert_eq!(parse_i64("9223372036854775808"), None);
    assert_eq!(parse_i64("-9223372036854775808"), Some(i64::MIN));
    for s in ["0", "-0", "123456789", "-99999999999", "x", "--1", "+-1"] {
        assert_eq!(parse_i64(s), s.parse::<i64>().ok(), "{s}");
    }
}
