//! The decisions of the sleep loop: how long to sleep between looks at the clock, and
//! what to do at each look.
use vstd::prelude::*;
use crate::duration::{PollInterval, Seconds};

verus! {

/// What the sleep loop does next.
#[derive(Debug, Clone, Copy, PartialEq, Eq, Structural)]
pub enum Step {
    /// Stop with this exit code.
    Exit(i32),
    /// Show the remaining whole seconds if `progress` holds them, then sleep `nanos`
    /// nanoseconds.
    Wait { progress: Option<Seconds>, nanos: u128 },
}

/// Whether a live countdown is drawn: it was asked for and standard output is a terminal.
pub fn shows_live_progress(show_progress: bool, is_tty: bool) -> (res: bool)
    ensures
        res == (show_progress && is_tty),
{
    show_progress && is_tty
}

/// The longest sleep between two looks at the clock, in nanoseconds.
pub open spec fn spec_poll_nanos(live: bool, poll_interval: PollInterval) -> int {
    if live {
        200_000_000
    } else {
        poll_interval.0.0 * 1_000_000_000
    }
}

/// The longest sleep between two looks at the clock: a fifth of a second while a live
/// countdown is drawn, else the poll interval.
pub fn poll_nanos(live: bool, poll_interval: PollInterval) -> (res: u128)
    ensures
        res == spec_poll_nanos(live, poll_interval),
        live ==> res == 200_000_000,
        !live ==> res == poll_interval.0.0 * 1_000_000_000,
{
    if live {
        200_000_000
    } else {
        poll_interval.0.0 as u128 * 1_000_000_000
    }
}

/// The step after a look at the clock that found `remaining` nanoseconds left.
pub open spec fn spec_next_step(stop: bool, remaining: int, live: bool, poll_interval: PollInterval) -> Step {
    let poll = spec_poll_nanos(live, poll_interval);
    let nap = if remaining < poll {
        remaining
    } else {
        poll
    };
    if stop {
        Step::Exit(130)
    } else if remaining == 0 || nap == 0 {
        Step::Exit(0)
    } else {
        Step::Wait {
            progress: if live {
                Some(Seconds((remaining / 1_000_000_000) as u64))
            } else {
                None
            },
            nanos: nap as u128,
        }
    }
}

/// Decides what the sleep loop does after a look at the clock: a stop signal ends it with
/// exit code 130, the deadline reached ends it with 0, and otherwise it shows the
/// countdown if it is live and sleeps until the deadline or the next look, whichever
/// comes first.
pub fn next_step(stop: bool, remaining_nanos: u128, live: bool, poll_interval: PollInterval) -> (res: Step)
    requires
        remaining_nanos / 1_000_000_000 <= u64::MAX,
    ensures
        res == spec_next_step(stop, remaining_nanos as int, live, poll_interval),
        stop ==> res == Step::Exit(130),
        res matches Step::Wait { nanos, .. } ==> 0 < nanos <= remaining_nanos && nanos
            <= spec_poll_nanos(live, poll_interval),
        !stop && remaining_nanos == 0 ==> res == Step::Exit(0),
        res matches Step::Wait { nanos, progress } ==> {
            &&& (nanos == remaining_nanos || nanos == spec_poll_nanos(live, poll_interval))
            &&& (progress is Some <==> live)
            &&& (live ==> progress == Some(Seconds((remaining_nanos / 1_000_000_000) as u64)))
        },
        !stop && remaining_nanos > 0 && spec_poll_nanos(live, poll_interval) > 0 ==> res is Wait,
{
    if stop {
        return Step::Exit(130);
    }
    if remaining_nanos == 0 {
        return Step::Exit(0);
    }
    let poll = poll_nanos(live, poll_interval);
    let nap = if remaining_nanos < poll {
        remaining_nanos
    } else {
        poll
    };
    if nap == 0 {
        return Step::Exit(0);
    }
    let progress = if live {
        Some(Seconds((remaining_nanos / 1_000_000_000) as u64))
    } else {
        None
    };
    Step::Wait { progress, nanos: nap }
}

} // verus!
