//! The engine's decisions on UCI commands: the options it keeps, the position it is given,
//! and what it asks its surroundings to do (reply, resize the table, start or stop a
//! search).
use vstd::prelude::*;
use std::time::Duration;
use crate::board::{Board, Position};
use crate::fen::{all_digits, digits_value, is_digit, lemma_value_prefix, parse_fen, read_chars, start_position};
use crate::legality::legal_move;
use crate::makemove::make_spec;
use crate::moves::{move_text, Move, MoveList};
use crate::search::SearchResult;
use crate::time::{allocate_time_from_time_control, budget_fits, millis_duration, millis_u64, time_control_budget, time_control_ok, TimeControl};

verus! {

pub const HASH_DEFAULT: i64 = 16;
pub const HASH_MIN: i64 = 1;
pub const HASH_MAX: i64 = 4096;

pub const THREADS_DEFAULT: i64 = 1;
pub const THREADS_MIN: i64 = 1;

/// The engine's UCI options.
#[derive(Debug, Clone, Copy, PartialEq, Eq)]
pub struct EngineOptions {
    threads_option: i64,
    hash_option: i64,
}

impl EngineOptions {
    /// The thread count the options hold.
    pub closed spec fn threads_setting(&self) -> i64 {
        self.threads_option
    }

    /// The table size the options hold.
    pub closed spec fn hash_setting(&self) -> i64 {
        self.hash_option
    }
}

impl Default for EngineOptions {
    fn default() -> (r: Self)
        ensures
            r.threads_setting() == THREADS_DEFAULT,
            r.hash_setting() == HASH_DEFAULT,
    {
        EngineOptions { threads_option: THREADS_DEFAULT, hash_option: HASH_DEFAULT }
    }
}

impl EngineOptions {
    /// The number of search threads asked for.
    pub fn threads(&self) -> (r: i64)
        ensures
            r == self.threads_setting(),
    {
        self.threads_option
    }

    /// The transposition table size asked for, in mebibytes.
    pub fn hash(&self) -> (r: i64)
        ensures
            r == self.hash_setting(),
    {
        self.hash_option
    }
}

/// The number `i64`'s `from_str` reads from a text: an optional sign, then at least one
/// decimal digit, with a value in range.
pub open spec fn i64_of_text(s: Seq<char>) -> Option<i64> {
    let signed = s.len() > 0 && (s[0] == '-' || s[0] == '+');
    let neg = s.len() > 0 && s[0] == '-';
    let d = if signed {
        s.drop_first()
    } else {
        s
    };
    i64_of_digits(d, neg)
}

/// The number a sign and a run of characters name, if they are all digits and the value is in
/// range.
pub open spec fn i64_of_digits(d: Seq<char>, neg: bool) -> Option<i64> {
    if d.len() == 0 || !all_digits(d) {
        None
    } else if neg {
        if digits_value(d) <= 0x8000_0000_0000_0000 {
            Some((-(digits_value(d) as int)) as i64)
        } else {
            None
        }
    } else if digits_value(d) <= 0x7FFF_FFFF_FFFF_FFFF {
        Some(digits_value(d) as i64)
    } else {
        None
    }
}

/// Reads a whole number as `i64`'s `from_str` does.
pub fn parse_i64(text: &str) -> (r: Option<i64>)
    ensures
        r == i64_of_text(text@),
{
    let s = read_chars(text);
    let n = s.len();
    let ghost f = s@;
    let mut i: usize = 0;
    let mut neg = false;
    if n > 0 && (s[0] == '-' || s[0] == '+') {
        neg = s[0] == '-';
        i = 1;
    }
    let start = i;
    let ghost d = f.subrange(start as int, n as int);
    proof {
        if f.len() > 0 && (f[0] == '-' || f[0] == '+') {
            assert(d =~= f.drop_first());
        } else {
            assert(d =~= f);
        }
        assert(i64_of_text(f) == i64_of_digits(d, f.len() > 0 && f[0] == '-'));
    }
    if i == n {
        return None;
    }
    let mut v: u64 = 0;
    while i < n
        invariant
            start <= i <= n,
            n == s@.len(),
            f == s@,
            f == text@,
            d == s@.subrange(start as int, n as int),
            d.len() > 0,
            start == (if f.len() > 0 && (f[0] == '-' || f[0] == '+') { 1int } else { 0int }),
            neg == (f.len() > 0 && f[0] == '-'),
            i64_of_text(f) == i64_of_digits(d, f.len() > 0 && f[0] == '-'),
            forall|j: int| start <= j < i ==> #[trigger] is_digit(s@[j]),
            v == digits_value(s@.subrange(start as int, i as int)),
            v <= 0x8000_0000_0000_0000,
        decreases n - i,
    {
        let c = s[i];
        if !('0' <= c && c <= '9') {
            proof {
                assert(!is_digit(d[i - start]));
            }
            return None;
        }
        proof {
            assert(s@.subrange(start as int, i + 1).drop_last() =~= s@.subrange(start as int, i as int));
        }
        let digit = (c as u32 - 48) as u64;
        if v > 0x0CCC_CCCC_CCCC_CCCC || v * 10 + digit > 0x8000_0000_0000_0000 {
            proof {
                assert(digits_value(s@.subrange(start as int, i + 1)) == v * 10 + digit);
                if all_digits(d) {
                    lemma_value_prefix(d, i + 1 - start);
                    assert(d.subrange(0, i + 1 - start) =~= s@.subrange(start as int, i + 1));
                }
            }
            return None;
        }
        v = v * 10 + digit;
        i += 1;
    }
    proof {
        assert(s@.subrange(start as int, i as int) =~= d);
        assert forall|j: int| 0 <= j < d.len() implies #[trigger] is_digit(d[j]) by {
            assert(is_digit(s@[start + j]));
        }
    }
    if neg {
        if v == 0x8000_0000_0000_0000 {
            Some(i64::MIN)
        } else {
            Some(-(v as i64))
        }
    } else if v <= 0x7FFF_FFFF_FFFF_FFFF {
        Some(v as i64)
    } else {
        None
    }
}

/// Whether a string holds exactly the characters of `lit`.
fn text_is(s: &String, lit: &str) -> (r: bool)
    ensures
        r == (s@ == lit@),
{
    let a = read_chars(s.as_str());
    let b = read_chars(lit);
    if a.len() != b.len() {
        return false;
    }
    let mut i: usize = 0;
    while i < a.len()
        invariant
            a@ == s@,
            b@ == lit@,
            a@.len() == b@.len(),
            i <= a@.len(),
            forall|j: int| 0 <= j < i ==> #[trigger] a@[j] == b@[j],
        decreases a@.len() - i,
    {
        if a[i] != b[i] {
            return false;
        }
        i += 1;
    }
    proof {
        assert(a@ =~= b@);
    }
    true
}

/// A UCI command as the engine sees it; `max_threads` is how many threads the machine offers.
pub enum EngineCommand {
    Uci,
    IsReady,
    Debug(bool),
    SetOption { name: String, value: Option<String>, max_threads: i64 },
    Register,
    UciNewGame,
    Position { startpos: bool, fen: Option<String>, moves: Vec<String> },
    Go { depth: Option<u8>, time_control: Option<TimeControl> },
    Stop,
    PonderHit,
    Quit,
    Other,
}

/// What the engine asks its surroundings to do.
pub enum EngineAction {
    /// Answer `uci`: the engine's name and author, its options, then `uciok`.
    Identify,
    /// Answer `isready`.
    ReadyOk,
    /// Empty the transposition table.
    ClearTable,
    /// Replace the transposition table by one of this many mebibytes.
    ResizeTable(usize),
    /// Stop a running search and wait for it.
    StopSearch,
    /// Search this board up to `max_depth`, for at most `time_limit` when there is one.
    StartSearch { board: Board, max_depth: u8, time_limit: Option<Duration> },
}

/// The engine's state: the debug switch, its options and the current position.
pub struct Engine {
    debug: bool,
    options: EngineOptions,
    board: Board,
}

impl Board {
    /// A copy of the board with the same contents.
    pub fn duplicate(&self) -> (r: Board)
        ensures
            r@ == self@,
            r.wf() == self.wf(),
            r.pieces == self.pieces,
            r.occ == self.occ,
            crate::board::extras_kept(*self, r),
    {
        let r = Board {
            pieces: self.pieces,
            occ: self.occ,
            mailbox: self.mailbox,
            side_to_move: self.side_to_move,
            castling: self.castling,
            ep_square: self.ep_square,
            halfmove_clock: self.halfmove_clock,
            fullmove_number: self.fullmove_number,
            zobrist: self.zobrist,
            material_mg: self.material_mg,
            material_eg: self.material_eg,
            pst_mg: self.pst_mg,
            pst_eg: self.pst_eg,
            history: self.history.clone(),
            killers: self.killers,
        };
        proof {
            assert(r.pieces@ =~= self.pieces@);
            assert(r.mailbox@ =~= self.mailbox@);
            assert(r.occ@ =~= self.occ@);
        }
        r
    }

    /// Plays the legal move whose UCI text is `text`; returns whether there was one. A
    /// position whose moves cannot all be made (see `sound_position`) plays nothing.
    pub fn play_move_text(&mut self, text: &String) -> (r: bool)
        requires
            old(self).wf(),
        ensures
            final(self).wf(),
            r == text_playable(old(self)@, text@),
            r ==> final(self)@ == make_spec(old(self)@, named_move(old(self)@, text@)),
            r ==> crate::position::sound_position(old(self)@),
            r ==> exists|m: u32| #[trigger] legal_move(old(self)@, m) && move_text(m) == text@ && final(self)@ == make_spec(old(self)@, m),
            !r ==> final(self)@ == old(self)@,
            !r && crate::position::sound_position(old(self)@) ==> forall|m: u32| legal_move(old(self)@, m) ==> move_text(m) != text@,
    {
        if !self.is_sound() {
            return false;
        }
        let ghost p = self@;
        let mut list = MoveList::new();
        self.generate_legal_moves(&mut list);
        let n = list.len();
        proof {
            assert forall|m: u32| legal_move(p, m) implies exists|j: int| 0 <= j < n && #[trigger] list@[j]@ == m by {
                assert(crate::movegen::has_move(list@, 0, m));
            }
        }
        let mut i: usize = 0;
        while i < n
            invariant
                self.wf(),
                self@ == p,
                p == old(self)@,
                crate::position::sound_position(p),
                n == list@.len(),
                i <= n,
                forall|j: int| 0 <= j < n ==> legal_move(p, #[trigger] list@[j]@),
                forall|m: u32| legal_move(p, m) ==> exists|j: int| 0 <= j < n && #[trigger] list@[j]@ == m,
                forall|j: int| 0 <= j < i ==> move_text(#[trigger] list@[j]@) != text@,
            decreases n - i,
        {
            let m = list.get(i);
            proof {
                crate::position::lemma_pseudo_shape(p, crate::legality::occ_of(p.mailbox), m@);
            }
            let t = m.to_string();
            if t == *text {
                proof {
                    crate::position::lemma_pseudo_makeable(p, crate::legality::occ_of(p.mailbox), m@);
                }
                self.make_move(m);
                assert(legal_move(p, m@) && move_text(m@) == text@ && self@ == make_spec(p, m@));
                proof {
                    let nm = named_move(p, text@);
                    assert(legal_move(p, nm) && move_text(nm) == text@);
                    crate::move_names::lemma_move_text_unique(p, m@, nm);
                }
                return true;
            }
            i += 1;
        }
        proof {
            assert forall|m: u32| legal_move(p, m) implies move_text(m) != text@ by {
                let j = choose|j: int| 0 <= j < n && #[trigger] list@[j]@ == m;
            }
        }
        false
    }
}

/// Whether a time control's millisecond counts can be used as given.
fn time_control_usable(white: bool, tc: &TimeControl) -> (r: bool)
    ensures
        r == time_control_ok(white, *tc),
{
    match tc {
        TimeControl::TimeLeft { white_time, black_time, white_increment, black_increment, moves_to_go } => {
            let time = if white {
                *white_time
            } else {
                *black_time
            };
            let inc = if white {
                *white_increment
            } else {
                *black_increment
            };
            let t_raw = match time {
                Some(t) => t,
                None => {
                    return true;
                },
            };
            let t = t_raw as u64;
            let inc_ms: u64 = match inc {
                Some(i) => i as u64,
                None => 0,
            };
            let mtg: u64 = match moves_to_go {
                Some(m) => *m as u64,
                None => 30,
            };
            let ghost mtg_spec: Option<u32> = match moves_to_go {
                Some(m) => Some(*m as u32),
                None => None,
            };
            let ghost fits = budget_fits(millis_u64(t_raw), inc_ms, mtg_spec);
            proof {
                assert(t == millis_u64(t_raw));
                assert(inc_ms == match inc {
                    Some(i) => millis_u64(i),
                    None => 0u64,
                });
                assert(time_control_ok(white, *tc) == fits);
            }
            if mtg == 0 || inc_ms > u64::MAX / 3 {
                return false;
            }
            let r = (t / mtg).checked_add(inc_ms * 3 / 4).is_some();
            proof {
                assert(r == fits);
            }
            r
        },
        _ => true,
    }
}

/// The table size an option value asks for: the default for no value, the value when it is a
/// number in range, nothing otherwise.
pub open spec fn hash_request(value: Option<Seq<char>>) -> Option<i64> {
    match value {
        None => Some(HASH_DEFAULT),
        Some(v) => match i64_of_text(v) {
            Some(x) => if HASH_MIN <= x <= HASH_MAX {
                Some(x)
            } else {
                None
            },
            None => None,
        },
    }
}

/// The thread count an option value asks for, with `max` threads available.
pub open spec fn threads_request(value: Option<Seq<char>>, max: i64) -> Option<i64> {
    match value {
        None => Some(THREADS_DEFAULT),
        Some(v) => match i64_of_text(v) {
            Some(x) => if THREADS_MIN <= x <= max {
                Some(x)
            } else {
                None
            },
            None => None,
        },
    }
}

/// The text of an optional string.
pub open spec fn opt_text(value: Option<String>) -> Option<Seq<char>> {
    match value {
        Some(v) => Some(v@),
        None => None,
    }
}

/// Whether the move whose UCI text is `t` can be played in `p`: the position is one whose
/// moves can all be made and one of its legal moves has that text.
pub open spec fn text_playable(p: Position, t: Seq<char>) -> bool {
    crate::position::sound_position(p) && exists|m: u32| #[trigger] legal_move(p, m) && move_text(m) == t
}

/// The legal move of `p` whose UCI text is `t` (there is at most one: see
/// `move_names::lemma_move_text_unique`).
pub open spec fn named_move(p: Position, t: Seq<char>) -> u32 {
    choose|m: u32| legal_move(p, m) && move_text(m) == t
}

/// The position the moves of a `position` command lead to from `p`: each named move is
/// played in turn, and the first that cannot be played ends the list.
pub open spec fn moves_played(p: Position, texts: Seq<Seq<char>>) -> Position
    decreases texts.len(),
{
    if texts.len() == 0 {
        p
    } else if text_playable(p, texts[0]) {
        moves_played(make_spec(p, named_move(p, texts[0])), texts.drop_first())
    } else {
        p
    }
}

/// The time limit a `go` command sets for the side to move (`white` or black): the time
/// control's budget when its millisecond counts can be used, none otherwise.
pub open spec fn go_time_limit(white: bool, tc: Option<TimeControl>) -> Option<Duration> {
    match tc {
        Some(t) => if time_control_ok(white, t) {
            match time_control_budget(white, t) {
                Some(ms) => Some(millis_duration(ms as u64)),
                None => None,
            }
        } else {
            None
        },
        None => None,
    }
}

/// The position a `position` command starts from: the starting position, the FEN's, or the
/// current one.
pub open spec fn position_base(current: Position, startpos: bool, fen: Option<String>) -> Position {
    if startpos {
        start_position()
    } else {
        match fen {
            Some(f) => match parse_fen(f@) {
                Ok(b) => b,
                Err(_) => current,
            },
            None => current,
        }
    }
}

/// The best move a search result holds, if any.
pub open spec fn found_move(result: Option<SearchResult>) -> Option<Move> {
    match result {
        Some(sr) => sr.best_move,
        None => None,
    }
}

/// The move that answers `go`: the search's best move, or else the first legal move of the
/// position searched; none when the search found nothing and there is no legal move (or the
/// position is one whose moves cannot all be made).
pub fn chosen_move(board: &mut Board, result: Option<SearchResult>) -> (r: Option<Move>)
    requires
        old(board).wf(),
    ensures
        final(board).wf(),
        final(board)@ == old(board)@,
        found_move(result) is Some ==> r == found_move(result),
        found_move(result) is None ==> {
            &&& r matches Some(m) ==> legal_move(old(board)@, m@)
            &&& crate::position::sound_position(old(board)@) ==> (r is None <==> forall|m: u32| !legal_move(old(board)@, m))
            &&& !crate::position::sound_position(old(board)@) ==> r is None
        },
{
    if let Some(sr) = result {
        if sr.best_move.is_some() {
            return sr.best_move;
        }
    }
    if !board.is_sound() {
        return None;
    }
    let ghost p = board@;
    let mut list = MoveList::new();
    board.generate_legal_moves(&mut list);
    if list.len() == 0 {
        proof {
            assert forall|m: u32| !legal_move(p, m) by {
                if legal_move(p, m) {
                    assert(crate::movegen::has_move(list@, 0, m));
                }
            }
        }
        None
    } else {
        assert(legal_move(p, list@[0]@));
        Some(list.get(0))
    }
}

impl Engine {
    /// The debug switch.
    pub closed spec fn debug_on(&self) -> bool {
        self.debug
    }

    /// The options held.
    pub closed spec fn current_options(&self) -> EngineOptions {
        self.options
    }

    /// The position held.
    pub closed spec fn current_board(&self) -> Board {
        self.board
    }

    /// A new engine: debug off, default options, an empty board.
    pub fn new() -> (e: Self)
        ensures
            !e.debug_on(),
            e.current_options().threads_setting() == THREADS_DEFAULT,
            e.current_options().hash_setting() == HASH_DEFAULT,
            e.current_board().wf(),
            forall|s: int| 0 <= s < 64 ==> #[trigger] e.current_board().mailbox@[s] == 0,
    {
        Engine { debug: false, options: EngineOptions::default(), board: Board::empty() }
    }

    /// The current position.
    pub fn board(&self) -> (b: &Board)
        ensures
            *b == self.current_board(),
    {
        &self.board
    }

    /// The options.
    pub fn options(&self) -> (o: EngineOptions)
        ensures
            o == self.current_options(),
    {
        self.options
    }

    /// Whether debug output was asked for.
    pub fn debug(&self) -> (d: bool)
        ensures
            d == self.debug_on(),
    {
        self.debug
    }

    /// Sets the starting position.
    pub fn setup(&mut self)
        ensures
            final(self).current_board().wf(),
            final(self).current_board()@ == start_position(),
            final(self).current_options() == old(self).current_options(),
            final(self).debug_on() == old(self).debug_on(),
    {
        self.board = Board::startpos();
    }

    /// Sets the table size from an option value; returns the size to resize the table to.
    fn set_hash(&mut self, value: &Option<String>) -> (r: Option<usize>)
        ensures
            final(self).board == old(self).board,
            final(self).debug == old(self).debug,
            match hash_request(opt_text(*value)) {
                Some(x) => final(self).options.hash_setting() == x && final(self).options.threads_setting()
                    == old(self).options.threads_setting() && r == Some(x as usize),
                None => final(self).options == old(self).options && r is None,
            },
    {
        match value {
            Some(val) => match parse_i64(val.as_str()) {
                Some(x) => {
                    if HASH_MIN <= x && x <= HASH_MAX {
                        self.options.hash_option = x;
                        Some(x as usize)
                    } else {
                        None
                    }
                },
                None => None,
            },
            None => {
                self.options.hash_option = HASH_DEFAULT;
                Some(HASH_DEFAULT as usize)
            },
        }
    }

    /// Sets the thread count from an option value, with `max_threads` available.
    fn set_threads(&mut self, value: &Option<String>, max_threads: i64)
        ensures
            final(self).board == old(self).board,
            final(self).debug == old(self).debug,
            match threads_request(opt_text(*value), max_threads) {
                Some(x) => final(self).options.threads_setting() == x && final(self).options.hash_setting()
                    == old(self).options.hash_setting(),
                None => final(self).options == old(self).options,
            },
    {
        match value {
            Some(val) => match parse_i64(val.as_str()) {
                Some(x) => {
                    if THREADS_MIN <= x && x <= max_threads {
                        self.options.threads_option = x;
                    }
                },
                None => {},
            },
            None => {
                self.options.threads_option = THREADS_DEFAULT;
            },
        }
    }

    /// Applies a `setoption`: `Hash` or `Threads`, any other name is ignored. Returns the
    /// size to resize the table to, if the table size changed.
    fn set_option(&mut self, name: &String, value: &Option<String>, max_threads: i64) -> (r: Option<usize>)
        ensures
            final(self).board == old(self).board,
            final(self).debug == old(self).debug,
            if name@ == "Hash"@ {
                match hash_request(opt_text(*value)) {
                    Some(x) => final(self).options.hash_setting() == x && r == Some(x as usize),
                    None => final(self).options == old(self).options && r is None,
                }
            } else if name@ == "Threads"@ {
                r is None && match threads_request(opt_text(*value), max_threads) {
                    Some(x) => final(self).options.threads_setting() == x && final(self).options.hash_setting()
                        == old(self).options.hash_setting(),
                    None => final(self).options == old(self).options,
                }
            } else {
                final(self).options == old(self).options && r is None
            },
    {
        if text_is(name, "Hash") {
            self.set_hash(value)
        } else if text_is(name, "Threads") {
            self.set_threads(value, max_threads);
            None
        } else {
            None
        }
    }

    /// Applies an engine command and says what the surroundings must do.
    pub fn command(&mut self, cmd: EngineCommand) -> (actions: Vec<EngineAction>)
        requires
            old(self).current_board().wf(),
        ensures
            final(self).current_board().wf(),
            !(cmd is Debug) ==> final(self).debug_on() == old(self).debug_on(),
            !(cmd is SetOption) ==> final(self).current_options() == old(self).current_options(),
            match cmd {
                EngineCommand::Uci => actions@ == seq![EngineAction::Identify] && final(self).current_board()@ == start_position()
                    && final(self).current_options() == old(self).current_options(),
                EngineCommand::IsReady => actions@ == seq![EngineAction::ReadyOk] && final(self).current_board()@ == old(self).current_board()@
                    && final(self).current_options() == old(self).current_options(),
                EngineCommand::Debug(d) => actions@.len() == 0 && final(self).debug_on() == d && final(self).current_board()@ == old(self).current_board()@,
                EngineCommand::SetOption { name, value, max_threads } => final(self).current_board()@ == old(self).current_board()@ && (if name@
                    == "Hash"@ {
                    match hash_request(opt_text(value)) {
                        Some(x) => final(self).current_options().hash_setting() == x && actions@ == seq![EngineAction::ResizeTable(x as usize)],
                        None => final(self).current_options() == old(self).current_options() && actions@.len() == 0,
                    }
                } else if name@ == "Threads"@ {
                    match threads_request(opt_text(value), max_threads) {
                        Some(x) => final(self).current_options().threads_setting() == x && final(self).current_options().hash_setting()
                            == old(self).current_options().hash_setting() && actions@.len() == 0,
                        None => final(self).current_options() == old(self).current_options() && actions@.len() == 0,
                    }
                } else {
                    final(self).current_options() == old(self).current_options() && actions@.len() == 0
                }),
                EngineCommand::UciNewGame => actions@ == seq![EngineAction::ClearTable] && final(self).current_board()@ == old(self).current_board()@,
                EngineCommand::Position { startpos, fen, moves } => actions@.len() == 0 && final(self).current_options() == old(self).current_options()
                    && final(self).debug_on() == old(self).debug_on() && if !startpos && fen is Some && parse_fen(fen->0@) is Err {
                    final(self).current_board()@ == old(self).current_board()@
                } else {
                    final(self).current_board()@ == moves_played(
                        position_base(old(self).current_board()@, startpos, fen),
                        moves@.map_values(|t: String| t@),
                    )
                },
                EngineCommand::Go { depth, time_control } => actions@.len() == 2 && actions@[0] == EngineAction::StopSearch
                    && (actions@[1] matches EngineAction::StartSearch { board, max_depth, time_limit } && board@ == old(self).current_board()@
                    && board.wf() && max_depth == (match depth {
                    Some(d) => d,
                    None => 99u8,
                }) && time_limit == go_time_limit(old(self).current_board().side_to_move == 0, time_control))
                    && final(self).current_board()@ == old(self).current_board()@,
                EngineCommand::Stop => actions@ == seq![EngineAction::StopSearch] && final(self).current_board()@ == old(self).current_board()@,
                _ => actions@.len() == 0 && final(self).current_board()@ == old(self).current_board()@ && final(self).current_options() == old(self).current_options(),
            },
    {
        let mut actions: Vec<EngineAction> = Vec::new();
        let ghost c0 = cmd;
        match cmd {
            EngineCommand::Uci => {
                actions.push(EngineAction::Identify);
                self.setup();
            },
            EngineCommand::IsReady => {
                actions.push(EngineAction::ReadyOk);
            },
            EngineCommand::Debug(debug) => {
                self.debug = debug;
            },
            EngineCommand::SetOption { name, value, max_threads } => {
                if let Some(mb) = self.set_option(&name, &value, max_threads) {
                    actions.push(EngineAction::ResizeTable(mb));
                }
            },
            EngineCommand::Register => {},
            EngineCommand::UciNewGame => {
                actions.push(EngineAction::ClearTable);
            },
            EngineCommand::Position { startpos, fen, moves } => {
                let ghost fen0 = fen;
                let ghost texts = moves@.map_values(|t: String| t@);
                let ghost base = position_base(self.board@, startpos, fen);
                if startpos {
                    self.board = Board::startpos();
                } else {
                    match fen {
                        Some(f) => {
                            match Board::from_fen(f.as_str()) {
                                Ok(b) => {
                                    self.board = b;
                                },
                                Err(_) => {
                                    return actions;
                                },
                            }
                        },
                        None => {},
                    }
                }
                let n = moves.len();
                let mut i: usize = 0;
                proof {
                    assert(texts.skip(0) =~= texts);
                    assert(self.board@ == base);
                }
                while i < n
                    invariant
                        self.board.wf(),
                        n == moves@.len(),
                        i <= n,
                        actions@.len() == 0,
                        self.options == old(self).current_options(),
                        !startpos && fen0 is Some ==> parse_fen(fen0->0@) is Ok,
                        c0 == (EngineCommand::Position { startpos, fen: fen0, moves }),
                        c0 == cmd,
                        self.debug == old(self).debug_on(),
                        texts == moves@.map_values(|t: String| t@),
                        base == position_base(old(self).current_board()@, startpos, fen0),
                        moves_played(base, texts) == moves_played(self.board@, texts.skip(i as int)),
                    decreases n - i,
                {
                    let ghost q = self.board@;
                    let ghost rest = texts.skip(i as int);
                    assert(rest[0] == texts[i as int]);
                    if !self.board.play_move_text(&moves[i]) {
                        proof {
                            assert(!text_playable(q, texts[i as int]));
                        }
                        return actions;
                    }
                    proof {
                        let m = choose|m: u32| #[trigger] legal_move(q, m) && move_text(m) == moves@[i as int]@ && self.board@ == make_spec(q, m);
                        let nm = named_move(q, texts[i as int]);
                        assert(legal_move(q, nm) && move_text(nm) == texts[i as int]);
                        crate::move_names::lemma_move_text_unique(q, m, nm);
                        assert(rest.drop_first() =~= texts.skip(i + 1));
                    }
                    i += 1;
                }
                proof {
                    assert(texts.skip(n as int) =~= Seq::<Seq<char>>::empty());
                }
            },
            EngineCommand::Go { depth, time_control } => {
                let white = self.board.side_to_move == 0;
                let max_depth = match depth {
                    Some(d) => d,
                    None => 99,
                };
                let time_limit = match time_control {
                    Some(tc) => {
                        if time_control_usable(white, &tc) {
                            allocate_time_from_time_control(white, Some(&tc))
                        } else {
                            None
                        }
                    },
                    None => None,
                };
                actions.push(EngineAction::StopSearch);
                actions.push(EngineAction::StartSearch { board: self.board.duplicate(), max_depth, time_limit });
            },
            EngineCommand::Stop => {
                actions.push(EngineAction::StopSearch);
            },
            EngineCommand::PonderHit => {},
            EngineCommand::Quit => {},
            EngineCommand::Other => {},
        }
        actions
    }
}

} // verus!
