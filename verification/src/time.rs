//! Time management: how long to think about one move.
use vstd::prelude::*;
use std::time::Duration;

verus! {

/// The result of `Duration::from_millis` for `ms`.
pub uninterp spec fn millis_duration(ms: u64) -> Duration;

/// `Duration::from_millis`: the duration of `ms` milliseconds; it depends on `ms` alone.
#[verifier::external_body]
fn duration_from_millis(ms: u64) -> (d: Duration)
    ensures
        d == millis_duration(ms),
{
    Duration::from_millis(ms)
}

/// The thinking time in milliseconds: the remaining time shared over the moves to go (30
/// when not given), plus three quarters of the increment, at most half the remaining time,
/// less a 50 ms safety margin, and never under 10 ms.
pub open spec fn time_budget(time_remaining_ms: u64, increment_ms: u64, moves_to_go: Option<u32>) -> int {
    let mtg: int = match moves_to_go {
        Some(m) => m as int,
        None => 30,
    };
    let t = time_remaining_ms as int;
    let with_inc = t / mtg + (increment_ms as int) * 3 / 4;
    let capped = if with_inc < t / 2 {
        with_inc
    } else {
        t / 2
    };
    let safe = if capped > 50 {
        capped - 50
    } else {
        0
    };
    if safe > 10 {
        safe
    } else {
        10
    }
}

/// The thinking time is never under 10 ms, and never over half the remaining time unless
/// that half is under 10 ms.
pub proof fn lemma_time_budget_bounds(time_remaining_ms: u64, increment_ms: u64, moves_to_go: Option<u32>)
    requires
        moves_to_go != Some(0u32),
    ensures
        time_budget(time_remaining_ms, increment_ms, moves_to_go) >= 10,
        time_budget(time_remaining_ms, increment_ms, moves_to_go) <= (if time_remaining_ms / 2 > 10 {
            time_remaining_ms / 2
        } else {
            10
        }),
{
}

/// The budget can be worked out without overflow: moves to go are not zero, three times the
/// increment fits, and the remaining time shared over the moves plus three quarters of the
/// increment fits.
pub open spec fn budget_fits(time_remaining_ms: u64, increment_ms: u64, moves_to_go: Option<u32>) -> bool {
    let mtg: int = match moves_to_go {
        Some(m) => m as int,
        None => 30,
    };
    &&& moves_to_go != Some(0u32)
    &&& increment_ms <= u64::MAX / 3
    &&& (time_remaining_ms as int) / mtg + (increment_ms as int) * 3 / 4 <= u64::MAX
}

/// The thinking time in milliseconds, as `time_budget` gives it.
pub fn allocate_time_ms(time_remaining_ms: u64, increment_ms: u64, moves_to_go: Option<u32>) -> (r: u64)
    requires
        budget_fits(time_remaining_ms, increment_ms, moves_to_go),
    ensures
        r == time_budget(time_remaining_ms, increment_ms, moves_to_go),
{
    let mtg: u64 = match moves_to_go {
        Some(m) => m as u64,
        None => 30,
    };
    let base = time_remaining_ms / mtg;
    let with_inc = base + (increment_ms * 3 / 4);
    let half = time_remaining_ms / 2;
    let capped = if with_inc < half {
        with_inc
    } else {
        half
    };
    let safe = capped.saturating_sub(50);
    if safe > 10 {
        safe
    } else {
        10
    }
}

/// The time to think about one move.
pub fn allocate_time(time_remaining_ms: u64, increment_ms: u64, moves_to_go: Option<u32>) -> (d: Duration)
    requires
        budget_fits(time_remaining_ms, increment_ms, moves_to_go),
    ensures
        d == millis_duration(time_budget(time_remaining_ms, increment_ms, moves_to_go) as u64),
{
    duration_from_millis(allocate_time_ms(time_remaining_ms, increment_ms, moves_to_go))
}

/// A time control of the `go` command, with durations in milliseconds.
#[derive(Debug, Clone, Copy, PartialEq, Eq)]
pub enum TimeControl {
    TimeLeft {
        white_time: Option<i64>,
        black_time: Option<i64>,
        white_increment: Option<i64>,
        black_increment: Option<i64>,
        moves_to_go: Option<u8>,
    },
    MoveTime(i64),
    Infinite,
    Ponder,
}

/// A millisecond count read as `u64`, as a cast does (negative counts wrap around).
pub open spec fn millis_u64(ms: i64) -> u64 {
    ms as u64
}

/// What the time control gives the side to move, in milliseconds: `None` when the search
/// is not timed.
pub open spec fn time_control_budget(white: bool, tc: TimeControl) -> Option<int> {
    match tc {
        TimeControl::TimeLeft { white_time, black_time, white_increment, black_increment, moves_to_go } => {
            let time = if white {
                white_time
            } else {
                black_time
            };
            let inc = if white {
                white_increment
            } else {
                black_increment
            };
            match time {
                Some(t) => Some(
                    time_budget(
                        millis_u64(t),
                        match inc {
                            Some(i) => millis_u64(i),
                            None => 0,
                        },
                        match moves_to_go {
                            Some(m) => Some(m as u32),
                            None => None,
                        },
                    ),
                ),
                None => None,
            }
        },
        TimeControl::MoveTime(ms) => Some(
            (if ms > i64::MIN + 50 {
                ms - 50
            } else {
                i64::MIN as int
            }) as u64 as int,
        ),
        TimeControl::Infinite => None,
        TimeControl::Ponder => None,
    }
}

/// The timed limits a time control can be used with: when it gives the side to move a
/// remaining time, the budget for it fits (`budget_fits`).
pub open spec fn time_control_ok(white: bool, tc: TimeControl) -> bool {
    match tc {
        TimeControl::TimeLeft { white_time, black_time, white_increment, black_increment, moves_to_go } => {
            let time = if white {
                white_time
            } else {
                black_time
            };
            let inc = if white {
                white_increment
            } else {
                black_increment
            };
            let inc_ms: u64 = match inc {
                Some(i) => millis_u64(i),
                None => 0,
            };
            let mtg: Option<u32> = match moves_to_go {
                Some(m) => Some(m as u32),
                None => None,
            };
            forall|t: i64| time == Some(t) ==> budget_fits(millis_u64(t), inc_ms, mtg)
        },
        _ => true,
    }
}

/// The thinking time a time control gives the side to move (`white` or black); `None` when
/// the search is not timed.
pub fn allocate_time_from_time_control(white: bool, time_control: Option<&TimeControl>) -> (r: Option<Duration>)
    requires
        time_control matches Some(tc) ==> time_control_ok(white, *tc),
    ensures
        time_control is None ==> r is None,
        time_control matches Some(tc) ==> match time_control_budget(white, *tc) {
            Some(ms) => r == Some(millis_duration(ms as u64)),
            None => r is None,
        },
{
    let tc = match time_control {
        Some(tc) => tc,
        None => {
            return None;
        },
    };
    match tc {
        TimeControl::TimeLeft { white_time, black_time, white_increment, black_increment, moves_to_go } => {
            let time = if white {
                *white_time
            } else {
                *black_time
            };
            let time_ms = match time {
                Some(t) => t as u64,
                None => {
                    return None;
                },
            };
            let inc = if white {
                *white_increment
            } else {
                *black_increment
            };
            let inc_ms = match inc {
                Some(i) => i as u64,
                None => 0,
            };
            let mtg = match moves_to_go {
                Some(m) => Some(*m as u32),
                None => None,
            };
            Some(allocate_time(time_ms, inc_ms, mtg))
        },
        TimeControl::MoveTime(ms) => {
            let less = if *ms > i64::MIN + 50 {
                *ms - 50
            } else {
                i64::MIN
            };
            Some(duration_from_millis(less as u64))
        },
        TimeControl::Infinite => None,
        TimeControl::Ponder => None,
    }
}

} // verus!
