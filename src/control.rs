//! User messages and the small decisions they drive: scrubbing and list selection.

use vstd::prelude::*;

use crate::clock::{euclid_mod, valid_instant};

verus! {

/// An arrow key.
#[derive(Debug, Clone, Copy, PartialEq, Eq, Structural)]
pub enum Direction {
    Up,
    Down,
    Left,
    Right,
}

/// Everything the user, or the clock, can ask of the dashboard.
#[derive(Debug, Clone)]
pub enum Message {
    Tick,
    ScrubTimeline(Direction),
    ScrubTimelineWithShift(Direction),
    ResetToNow,
    FineAdjust(i32),
    NavigateZone(Direction),
    ToggleTimeFormat,
    ToggleTimezoneDisplayMode,
    ToggleDate,
    ToggleSunTimes,
    ToggleHelp,
    CycleColorTheme,
    StartAddZone,
    UpdateAddZoneInput(String),
    NavigateSearchResults(Direction),
    SelectSearchResult(usize),
    ConfirmAddZone,
    CancelAddZone,
    RemoveCurrentZone,
    StartRenameZone,
    UpdateRenameInput(String),
    ConfirmRename,
    CancelRename,
    ClearCustomName,
    Quit,
}

/// Where a coarse scrub lands: left goes to the start of the current hour, or
/// to the hour before when already on one; right goes to the start of the
/// next hour; up and down stay.
pub open spec fn scrub_target(t: int, dir: Direction) -> int {
    let hour_start = t - t % 3600;
    match dir {
        Direction::Left => if t % 3600 == 0 {
            t - 3600
        } else {
            hour_start
        },
        Direction::Right => hour_start + 3600,
        _ => t,
    }
}

/// The scrub instant after a coarse step in `dir`.
pub fn scrub_hour(t: i64, dir: Direction) -> (r: i64)
    requires
        valid_instant(t as int),
    ensures
        r as int == scrub_target(t as int, dir),
{
    let into_hour = euclid_mod(t, 3600);
    let hour_start = t - into_hour;
    match dir {
        Direction::Left => if into_hour == 0 {
            t - 3600
        } else {
            hour_start
        },
        Direction::Right => hour_start + 3600,
        _ => t,
    }
}

/// The scrub instant after a fine step in `dir`: one minute either way.
pub fn scrub_minute(t: i64, dir: Direction) -> (r: i64)
    requires
        valid_instant(t as int),
    ensures
        r as int == match dir {
            Direction::Left => t - 60,
            Direction::Right => t + 60,
            _ => t as int,
        },
{
    match dir {
        Direction::Left => t - 60,
        Direction::Right => t + 60,
        _ => t,
    }
}

/// The selection after moving up or down a list of `count` entries: one step,
/// stopping at either end; left and right do nothing.
pub fn step_selection(selected: usize, count: usize, dir: Direction) -> (r: usize)
    ensures
        r as int == match dir {
            Direction::Up => if selected > 0 {
                selected - 1
            } else {
                selected as int
            },
            Direction::Down => if count > 0 && selected < count - 1 {
                selected + 1
            } else {
                selected as int
            },
            _ => selected as int,
        },
{
    match dir {
        Direction::Up => if selected > 0 {
            selected - 1
        } else {
            selected
        },
        Direction::Down => if count > 0 && selected < count - 1 {
            selected + 1
        } else {
            selected
        },
        _ => selected,
    }
}

/// A selection kept within a list of `count` entries after the list shrank:
/// the last entry when it fell off the end, 0 for an empty list.
pub fn clamp_selection(selected: usize, count: usize) -> (r: usize)
    ensures
        r as int == if selected < count {
            selected as int
        } else if count > 0 {
            count - 1
        } else {
            0
        },
{
    if selected < count {
        selected
    } else if count > 0 {
        count - 1
    } else {
        0
    }
}

} // verus!
