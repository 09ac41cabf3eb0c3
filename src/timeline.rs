//! The visible window, instant/column mapping, DST steps, midnights and shading.

use vstd::prelude::*;

use crate::clock::{
    floor_div, euclid_mod, known_zone, local_reading, zone_is_known, local_resolution, offset_seconds,
    resolve_local, valid_instant, wall_clock, wall_clock_at, window_instant, zone_offset, LocalTime,
};
use crate::config::{activity_of, TimeActivity, TimeDisplayConfig};

verus! {

/// Fewest minutes a window shows: a day either side of the scrub instant.
pub const MIN_WINDOW_MINUTES: u32 = 2880;

/// Most minutes a window shows: one week.
pub const MAX_WINDOW_MINUTES: u32 = 10080;

/// Minutes shown by a window `width` columns wide: two columns per hour,
/// clamped between two days and one week.
pub open spec fn window_minutes(width: int) -> int {
    let m = 30 * width;
    if m < MIN_WINDOW_MINUTES {
        MIN_WINDOW_MINUTES as int
    } else if m > MAX_WINDOW_MINUTES {
        MAX_WINDOW_MINUTES as int
    } else {
        m
    }
}

/// Seconds from the scrub instant to either edge of the window.
pub open spec fn half_window_seconds(width: int) -> int {
    window_minutes(width) / 2 * 60
}

/// Length in minutes of the window shown at `width` columns.
pub fn minutes_for_width(width: u16) -> (r: u32)
    ensures
        r as int == window_minutes(width as int),
{
    let m: u32 = 30 * (width as u32);
    if m < MIN_WINDOW_MINUTES {
        MIN_WINDOW_MINUTES
    } else if m > MAX_WINDOW_MINUTES {
        MAX_WINDOW_MINUTES
    } else {
        m
    }
}

/// Every width gets a window between two days and a week long; a width of 80
/// gets 48 hours, 200 gets 100 hours and 2000 gets the full week.
pub proof fn lemma_window_length(width: u16)
    ensures
        48 * 60 <= window_minutes(width as int) <= 168 * 60,
        window_minutes(80) == 48 * 60,
        window_minutes(200) == 100 * 60,
        window_minutes(2000) == 168 * 60,
{
}

/// The visible interval `[start, end)` centred on the scrub instant.
pub fn window(scrub: i64, width: u16) -> (r: (i64, i64))
    requires
        valid_instant(scrub as int),
    ensures
        r.0 as int == scrub as int - half_window_seconds(width as int),
        r.1 as int == scrub as int + half_window_seconds(width as int),
        window_instant(r.0 as int),
        window_instant(r.1 as int),
{
    let half: i64 = (minutes_for_width(width) / 2) as i64 * 60;
    (scrub - half, scrub + half)
}

/// The column at which instant `t` is drawn in a window `[start, end)` that
/// is `width` columns wide: the fraction of the window elapsed at `t`, times
/// the width, rounded half away from zero and clamped to the columns.
pub open spec fn column_of(t: int, start: int, end: int, width: int) -> int {
    let d = end - start;
    let n = t - start;
    let last = if width > 0 {
        width - 1
    } else {
        0
    };
    if d == 0 {
        0
    } else {
        let num = if d > 0 {
            n
        } else {
            -n
        };
        let den = if d > 0 {
            d
        } else {
            -d
        };
        if num <= 0 {
            0
        } else {
            let c = (2 * num * width + den) / (2 * den);
            if c < last {
                c
            } else {
                last
            }
        }
    }
}

/// Maps an instant to its column in the window `[start, end)`.
pub fn instant_to_column(t: i64, start: i64, end: i64, width: u16) -> (r: u16)
    ensures
        r as int == column_of(t as int, start as int, end as int, width as int),
{
    let d: i128 = end as i128 - start as i128;
    let n: i128 = t as i128 - start as i128;
    let last: u16 = if width > 0 {
        width - 1
    } else {
        0
    };
    if d == 0 {
        return 0;
    }
    let num: i128 = if d > 0 {
        n
    } else {
        -n
    };
    let den: i128 = if d > 0 {
        d
    } else {
        -d
    };
    if num <= 0 {
        return 0;
    }
    proof {
        assert(num <= 0x2_0000_0000_0000_0000);
        assert(den <= 0x2_0000_0000_0000_0000);
        assert(num * (width as i128) <= 0x2_0000_0000_0000_0000 * 65535) by (nonlinear_arith)
            requires
                0 < num <= 0x2_0000_0000_0000_0000,
                0 <= width <= 65535,
        ;
        assert(0 <= num * (width as i128)) by (nonlinear_arith)
            requires
                0 < num,
                0 <= width,
        ;
    }
    let prod: i128 = num * (width as i128);
    let c: i128 = (2 * prod + den) / (2 * den);
    assert(2 * prod == 2 * num * width) by (nonlinear_arith)
        requires
            prod == num * width,
    ;
    if c < last as i128 {
        c as u16
    } else {
        last
    }
}

/// The column of the window's start is the first one, the end of a
/// non-empty window maps to the last column, and later instants never map
/// to earlier columns.
pub proof fn lemma_column_monotonic(t1: int, t2: int, start: int, end: int, width: int)
    requires
        start <= end,
        t1 <= t2,
        width >= 0,
    ensures
        column_of(start, start, end, width) == 0,
        start < end && width > 0 ==> column_of(end, start, end, width) == width - 1,
        column_of(t1, start, end, width) <= column_of(t2, start, end, width),
{
    if start < end && width > 0 {
        let d = end - start;
        assert(2 * d * width + d == (2 * d) * width + d) by (nonlinear_arith);
        vstd::arithmetic::div_mod::lemma_fundamental_div_mod_converse(
            2 * d * width + d,
            2 * d,
            width,
            d,
        );
    }
    let d = end - start;
    if d > 0 && t1 - start > 0 {
        let a = 2 * (t1 - start) * width + d;
        let b = 2 * (t2 - start) * width + d;
        assert(a <= b) by (nonlinear_arith)
            requires
                a == 2 * (t1 - start) * width + d,
                b == 2 * (t2 - start) * width + d,
                t1 <= t2,
                width >= 0,
        ;
        vstd::arithmetic::div_mod::lemma_div_is_ordered(a, b, 2 * d);
    }
}

/// The instant shown at `column` of a window `[start, end)` of `width`
/// columns: the start plus the column's share of the window, in whole minutes.
pub open spec fn instant_at_column(column: int, start: int, end: int, width: int) -> int {
    start + 60 * ((column * ((end - start) / 60)) / width)
}

/// Maps a column back to the instant it stands for.
pub fn column_to_instant(column: u16, start: i64, end: i64, width: u16) -> (r: i64)
    requires
        column < width,
        start <= end,
        window_instant(start as int),
        window_instant(end as int),
    ensures
        r as int == instant_at_column(column as int, start as int, end as int, width as int),
        start <= r <= end,
{
    let span_minutes: i64 = (end - start) / 60;
    proof {
        assert(span_minutes <= 300_000_000_000);
        assert((column as int) * span_minutes <= 65535 * 300_000_000_000) by (nonlinear_arith)
            requires
                0 <= column <= 65535,
                0 <= span_minutes <= 300_000_000_000,
        ;
    }
    let scaled: i64 = (column as i64) * span_minutes;
    proof {
        assert(0 <= scaled <= (width as int) * span_minutes) by (nonlinear_arith)
            requires
                scaled == column as int * span_minutes,
                0 <= column < width,
                span_minutes >= 0,
        ;
        vstd::arithmetic::div_mod::lemma_div_is_ordered(
            scaled as int,
            (width as int) * span_minutes,
            width as int,
        );
        vstd::arithmetic::div_mod::lemma_div_multiples_vanish(span_minutes as int, width as int);
        vstd::arithmetic::div_mod::lemma_fundamental_div_mod((end - start) as int, 60);
    }
    let minutes: i64 = scaled / (width as i64);
    start + 60 * minutes
}

/// A change of a zone's offset, seen at hour granularity.
#[derive(Debug, Clone, Copy, PartialEq, Eq, Structural)]
pub enum DstTransition {
    /// The offset got larger an hour later: clocks jumped forward.
    SpringForward,
    /// The offset got smaller an hour later: clocks were set back.
    FallBack,
}

/// How the offset an hour later compares with the offset now.
pub open spec fn transition_between(before: int, after: int) -> Option<DstTransition> {
    if after > before {
        Some(DstTransition::SpringForward)
    } else if after < before {
        Some(DstTransition::FallBack)
    } else {
        None
    }
}

/// The transition, if any, between `t` and one hour after `t` in zone `id`.
pub open spec fn transition_at(id: Seq<char>, t: int) -> Option<DstTransition> {
    transition_between(zone_offset(id, t), zone_offset(id, t + 3600))
}

/// Whether the zone's offset differs between `t` and one hour later, and in
/// which direction; `None` when `id` names no known zone.
pub fn detect_dst_transition(id: &str, t: i64) -> (r: Option<Option<DstTransition>>)
    requires
        window_instant(t as int),
    ensures
        r is Some <==> known_zone(id@),
        r is Some ==> r->0 == transition_at(id@, t as int),
{
    if !zone_is_known(id) {
        return None;
    }
    Some(transition_step(id, t))
}

fn transition_step(id: &str, t: i64) -> (r: Option<DstTransition>)
    requires
        known_zone(id@),
        window_instant(t as int),
    ensures
        r == transition_at(id@, t as int),
{
    let before = offset_seconds(id, t);
    let after = offset_seconds(id, t + 3600);
    if after > before {
        Some(DstTransition::SpringForward)
    } else if after < before {
        Some(DstTransition::FallBack)
    } else {
        None
    }
}

/// The transitions found at `from`, `from` + 1h, `from` + 2h, ... while before `end`.
pub open spec fn dst_scan(id: Seq<char>, from: int, end: int) -> Seq<(i64, DstTransition)>
    decreases (if end > from {
        end - from
    } else {
        0
    }),
{
    if from >= end {
        seq![]
    } else {
        let rest = dst_scan(id, from + 3600, end);
        match transition_at(id, from) {
            Some(k) => seq![(from as i64, k)] + rest,
            None => rest,
        }
    }
}

/// Every hour step of `[start, end)`, counted from `start`, at which the
/// zone's offset differs from its offset an hour later. True transitions need
/// not fall on these steps; each is reported at the step before it.
/// `None` when `id` names no known zone.
pub fn dst_transitions_in_range(id: &str, start: i64, end: i64) -> (r: Option<
    Vec<(i64, DstTransition)>,
>)
    requires
        window_instant(start as int),
        window_instant(end as int),
    ensures
        r is Some <==> known_zone(id@),
        r is Some ==> r->0@ == dst_scan(id@, start as int, end as int),
        r is Some ==> forall|i: int| 0 <= i < r->0@.len() ==> start <= (#[trigger] r->0@[i]).0 < end,
{
    if !zone_is_known(id) {
        return None;
    }
    let mut out: Vec<(i64, DstTransition)> = Vec::new();
    let mut current = start;
    proof {
        lemma_dst_scan_bounds(id@, start as int, end as int);
    }
    while current < end
        invariant
            known_zone(id@),
            window_instant(start as int),
            window_instant(end as int),
            start <= current,
            current == start || current <= end + 3600,
            out@ + dst_scan(id@, current as int, end as int) == dst_scan(id@, start as int, end as int),
        decreases end + 3600 - current,
    {
        let found = transition_step(id, current);
        proof {
            let rest = dst_scan(id@, current + 3600, end as int);
            match found {
                Some(k) => {
                    assert(out@.push((current, k)) + rest =~= out@ + (seq![(current, k)] + rest));
                },
                None => {},
            }
        }
        match found {
            Some(k) => out.push((current, k)),
            None => {},
        }
        current = current + 3600;
    }
    assert(out@ + dst_scan(id@, current as int, end as int) =~= out@);
    Some(out)
}

/// Every step reported by a scan lies in the scanned range.
pub proof fn lemma_dst_scan_bounds(id: Seq<char>, from: int, end: int)
    requires
        window_instant(from),
        window_instant(end),
    ensures
        forall|i: int|
            0 <= i < dst_scan(id, from, end).len() ==> from <= (#[trigger] dst_scan(id, from, end)[i]).0
                < end,
    decreases (if end > from {
        end - from
    } else {
        0
    }),
{
    if from < end && from + 3600 < end {
        lemma_dst_scan_bounds(id, from + 3600, end);
    }
    if from < end {
        let rest = dst_scan(id, from + 3600, end);
        match transition_at(id, from) {
            Some(k) => {
                let s = seq![(from as i64, k)] + rest;
                assert forall|i: int| 0 <= i < s.len() implies from <= (#[trigger] s[i]).0 < end by {
                    if i > 0 {
                        assert(s[i] == rest[i - 1]);
                    }
                }
            },
            None => {},
        }
    }
}

/// The first local day whose midnight is not before `start`.
pub open spec fn first_midnight_day(id: Seq<char>, start: int) -> int {
    let local = start + zone_offset(id, start);
    if local % 86400 == 0 {
        local / 86400
    } else {
        local / 86400 + 1
    }
}

/// The local day that `end` falls on.
pub open spec fn last_midnight_day(id: Seq<char>, end: int) -> int {
    (end + zone_offset(id, end)) / 86400
}

/// The UTC instants of the local midnights of days `day..=last` that resolve
/// to a single instant within `[start, end]`; folds and gaps are skipped.
pub open spec fn midnight_scan(id: Seq<char>, day: int, last: int, start: int, end: int) -> Seq<i64>
    decreases (if last + 1 > day {
        last + 1 - day
    } else {
        0
    }),
{
    if day > last {
        seq![]
    } else {
        let rest = midnight_scan(id, day + 1, last, start, end);
        match local_resolution(id, day * 86400) {
            LocalTime::Unique(u) => if start <= u <= end {
                seq![u] + rest
            } else {
                rest
            },
            _ => rest,
        }
    }
}

/// How the local midnight that starts day `d` (counted from 1970-01-01) maps to UTC.
pub open spec fn midnight_resolution(id: Seq<char>, d: int) -> LocalTime {
    local_resolution(id, d * 86400)
}

/// The local midnights of zone `id` that fall within `[start, end]`.
pub open spec fn midnights(id: Seq<char>, start: int, end: int) -> Seq<i64> {
    midnight_scan(
        id,
        first_midnight_day(id, start),
        last_midnight_day(id, end),
        start,
        end,
    )
}

/// The UTC instants of the zone's local midnights inside `[start, end]`, in
/// order of day. A midnight that a DST fold makes ambiguous, or a gap skips,
/// gets no marker. `None` when `id` names no known zone.
pub fn midnight_markers_in_range(id: &str, start: i64, end: i64) -> (r: Option<Vec<i64>>)
    requires
        window_instant(start as int),
        window_instant(end as int),
    ensures
        r is Some <==> known_zone(id@),
        r is Some ==> r->0@ == midnights(id@, start as int, end as int),
        r is Some ==> forall|i: int|
            0 <= i < r->0@.len() ==> start <= #[trigger] r->0@[i] <= end && local_reading(
                id@,
                r->0@[i] as int,
            ) % 86400 == 0 && first_midnight_day(id@, start as int) * 86400 <= local_reading(
                id@,
                r->0@[i] as int,
            ) <= last_midnight_day(id@, end as int) * 86400,
        r is Some ==> forall|i: int, j: int|
            0 <= i < j < r->0@.len() ==> local_reading(id@, #[trigger] r->0@[i] as int)
                < local_reading(id@, #[trigger] r->0@[j] as int),
        r is Some ==> forall|d: int|
            first_midnight_day(id@, start as int) <= d <= last_midnight_day(id@, end as int) ==> ((
            exists|i: int|
                0 <= i < r->0@.len() && local_reading(id@, #[trigger] r->0@[i] as int) == d
                    * 86400) <==> match #[trigger] midnight_resolution(id@, d) {
                LocalTime::Unique(u) => start <= u <= end,
                _ => false,
            }),
{
    if !zone_is_known(id) {
        return None;
    }
    let off_start = offset_seconds(id, start);
    let local_start = start + off_start as i64;
    let mut day = floor_div(local_start, 86400);
    if euclid_mod(local_start, 86400) != 0 {
        day = day + 1;
    }
    let off_end = offset_seconds(id, end);
    let last = floor_div(end + off_end as i64, 86400);
    let ghost first = day;
    assert(-94_000_000 <= first);
    assert(last <= 94_000_000);
    let mut out: Vec<i64> = Vec::new();
    let ghost mut days: Seq<int> = seq![];
    while day <= last
        invariant
            known_zone(id@),
            first == first_midnight_day(id@, start as int),
            last == last_midnight_day(id@, end as int),
            -94_000_000 <= first <= day,
            last <= 94_000_000,
            day == first || day <= last + 1,
            out@ + midnight_scan(id@, day as int, last as int, start as int, end as int)
                == midnights(id@, start as int, end as int),
            days.len() == out@.len(),
            forall|i: int|
                0 <= i < out@.len() ==> start <= #[trigger] out@[i] <= end && local_reading(
                    id@,
                    out@[i] as int,
                ) == days[i] * 86400,
            forall|i: int| 0 <= i < days.len() ==> first <= #[trigger] days[i] < day && days[i] <= last,
            forall|i: int, j: int| 0 <= i < j < days.len() ==> #[trigger] days[i] < #[trigger] days[j],
            forall|d: int|
                first <= d < day ==> ((exists|i: int| 0 <= i < days.len() && #[trigger] days[i]
                    == d) <==> match #[trigger] midnight_resolution(id@, d) {
                    LocalTime::Unique(u) => start <= u <= end,
                    _ => false,
                }),
        decreases last + 1 - day,
    {
        let res = resolve_local(id, day * 86400);
        let ghost rest = midnight_scan(id@, day + 1, last as int, start as int, end as int);
        let ghost old_days = days;
        let ghost old_out = out@;
        proof {
            assert(res == midnight_resolution(id@, day as int));
        }
        match res {
            LocalTime::Unique(u) => {
                if start <= u && u <= end {
                    assert(out@.push(u) + rest =~= out@ + (seq![u] + rest));
                    out.push(u);
                    proof {
                        days = days.push(day as int);
                        assert forall|i: int| 0 <= i < out@.len() implies start <= #[trigger] out@[i]
                            <= end && local_reading(id@, out@[i] as int) == days[i] * 86400 by {
                            if i < old_out.len() {
                                assert(out@[i] == old_out[i]);
                                assert(days[i] == old_days[i]);
                            }
                        }
                        assert forall|i: int, j: int| 0 <= i < j < days.len() implies #[trigger] days[i]
                            < #[trigger] days[j] by {
                            assert(old_days[i] < day);
                            if j < old_days.len() {
                                assert(old_days[i] < old_days[j]);
                            }
                        }
                    }
                }
            },
            _ => {},
        }
        proof {
            assert forall|i: int| 0 <= i < days.len() implies first <= #[trigger] days[i] < day + 1
                && days[i] <= last by {
                if i < old_days.len() {
                    assert(days[i] == old_days[i]);
                }
            }
            assert forall|d: int| first <= d < day + 1 implies ((exists|i: int|
                0 <= i < days.len() && #[trigger] days[i] == d) <==> match #[trigger] midnight_resolution(
                id@,
                d,
            ) {
                LocalTime::Unique(u) => start <= u <= end,
                _ => false,
            }) by {
                if d < day {
                    if exists|i: int| 0 <= i < days.len() && #[trigger] days[i] == d {
                        let i = choose|i: int| 0 <= i < days.len() && #[trigger] days[i] == d;
                        if i >= old_days.len() {
                            assert(days[i] == day);
                        }
                        assert(old_days[i] == d);
                    }
                    if exists|i: int| 0 <= i < old_days.len() && #[trigger] old_days[i] == d {
                        let i = choose|i: int| 0 <= i < old_days.len() && #[trigger] old_days[i] == d;
                        assert(days[i] == d);
                    }
                } else {
                    if days.len() > old_days.len() {
                        assert(days[old_days.len() as int] == d);
                    } else {
                        assert forall|i: int| 0 <= i < days.len() implies #[trigger] days[i] != d by {
                            assert(old_days[i] < day);
                        }
                    }
                }
            }
        }
        day = day + 1;
    }
    proof {
        assert forall|d: int| first <= d <= last implies ((exists|i: int|
            0 <= i < out@.len() && local_reading(id@, #[trigger] out@[i] as int) == d * 86400)
            <==> match #[trigger] midnight_resolution(id@, d) {
            LocalTime::Unique(u) => start <= u <= end,
            _ => false,
        }) by {
            if exists|i: int| 0 <= i < out@.len() && local_reading(id@, #[trigger] out@[i] as int)
                == d * 86400 {
                let i = choose|i: int|
                    0 <= i < out@.len() && local_reading(id@, #[trigger] out@[i] as int) == d * 86400;
                assert(local_reading(id@, out@[i] as int) == days[i] * 86400);
                assert(days[i] == d);
            }
            if exists|i: int| 0 <= i < days.len() && #[trigger] days[i] == d {
                let i = choose|i: int| 0 <= i < days.len() && #[trigger] days[i] == d;
                assert(local_reading(id@, out@[i] as int) == d * 86400);
            }
        }
    }
    assert(out@ + midnight_scan(id@, day as int, last as int, start as int, end as int) =~= out@);
    let r = Some(out);
    assert forall|d: int|
        first_midnight_day(id@, start as int) <= d <= last_midnight_day(id@, end as int) implies ((
        exists|i: int|
            0 <= i < r->0@.len() && local_reading(id@, #[trigger] r->0@[i] as int) == d * 86400)
            <==> match #[trigger] midnight_resolution(id@, d) {
            LocalTime::Unique(u) => start <= u <= end,
            _ => false,
        }) by {
        if exists|i: int| 0 <= i < out@.len() && local_reading(id@, #[trigger] out@[i] as int)
            == d * 86400 {
            let i = choose|i: int|
                0 <= i < out@.len() && local_reading(id@, #[trigger] out@[i] as int) == d * 86400;
            assert(r->0@[i] == out@[i]);
        }
    }
    r
}

/// The local hour of day in zone `id` at instant `t`.
pub open spec fn local_hour(id: Seq<char>, t: int) -> int {
    wall_clock(id, t).0
}

/// The activity band of the local hour shown at each column of the window;
/// `None` when `id` names no known zone.
pub fn timeline_activities(
    id: &str,
    start: i64,
    end: i64,
    width: u16,
    cfg: &TimeDisplayConfig,
) -> (r: Option<Vec<TimeActivity>>)
    requires
        start <= end,
        window_instant(start as int),
        window_instant(end as int),
    ensures
        r is Some <==> known_zone(id@),
        r is Some ==> r->0@.len() == width,
        r is Some ==> forall|i: int|
            0 <= i < width ==> #[trigger] r->0@[i] == activity_of(
                *cfg,
                local_hour(id@, instant_at_column(i, start as int, end as int, width as int)) as u32,
            ),
{
    if !zone_is_known(id) {
        return None;
    }
    let mut out: Vec<TimeActivity> = Vec::new();
    let mut col: u16 = 0;
    while col < width
        invariant
            known_zone(id@),
            start <= end,
            window_instant(start as int),
            window_instant(end as int),
            col <= width,
            out@.len() == col,
            forall|i: int|
                0 <= i < col ==> #[trigger] out@[i] == activity_of(
                    *cfg,
                    local_hour(id@, instant_at_column(i, start as int, end as int, width as int))
                        as u32,
                ),
        decreases width - col,
    {
        let t = column_to_instant(col, start, end, width);
        let reading = wall_clock_at(id, t);
        out.push(cfg.get_time_activity(reading.0 as u32));
        col = col + 1;
    }
    Some(out)
}

/// The local day that `start` falls on.
pub open spec fn first_day(id: Seq<char>, start: int) -> int {
    (start + zone_offset(id, start)) / 86400
}

/// For each local day `day..=last`, the day and the column of its `hour`
/// o'clock, when that local time resolves to a single instant.
pub open spec fn day_scan(
    id: Seq<char>,
    day: int,
    last: int,
    hour: int,
    start: int,
    end: int,
    width: int,
) -> Seq<(i64, u16)>
    decreases (if last + 1 > day {
        last + 1 - day
    } else {
        0
    }),
{
    if day > last {
        seq![]
    } else {
        let rest = day_scan(id, day + 1, last, hour, start, end, width);
        match local_resolution(id, day * 86400 + hour * 3600) {
            LocalTime::Unique(u) => seq![(day as i64, column_of(u as int, start, end, width) as u16)]
                + rest,
            _ => rest,
        }
    }
}

/// Where to label each local day the window shows: the day (counted from
/// 1970-01-01) and the column of `hour` o'clock on it, skipping a day whose
/// `hour` o'clock a DST change makes ambiguous or skips. `None` when `id`
/// names no known zone.
pub fn day_label_columns(id: &str, start: i64, end: i64, width: u16, hour: u32) -> (r: Option<
    Vec<(i64, u16)>,
>)
    requires
        window_instant(start as int),
        window_instant(end as int),
        hour < 24,
    ensures
        r is Some <==> known_zone(id@),
        r is Some ==> r->0@ == day_scan(
            id@,
            first_day(id@, start as int),
            last_midnight_day(id@, end as int),
            hour as int,
            start as int,
            end as int,
            width as int,
        ),
{
    if !zone_is_known(id) {
        return None;
    }
    let off_start = offset_seconds(id, start);
    let mut day = floor_div(start + off_start as i64, 86400);
    let off_end = offset_seconds(id, end);
    let last = floor_div(end + off_end as i64, 86400);
    let ghost first = day;
    assert(-94_000_000 <= first);
    assert(last <= 94_000_000);
    let ghost whole = day_scan(
        id@,
        first as int,
        last as int,
        hour as int,
        start as int,
        end as int,
        width as int,
    );
    let mut out: Vec<(i64, u16)> = Vec::new();
    while day <= last
        invariant
            known_zone(id@),
            hour < 24,
            -94_000_000 <= first <= day,
            last <= 94_000_000,
            day == first || day <= last + 1,
            whole == day_scan(
                id@,
                first as int,
                last as int,
                hour as int,
                start as int,
                end as int,
                width as int,
            ),
            out@ + day_scan(
                id@,
                day as int,
                last as int,
                hour as int,
                start as int,
                end as int,
                width as int,
            ) == whole,
        decreases last + 1 - day,
    {
        let res = resolve_local(id, day * 86400 + (hour as i64) * 3600);
        let ghost rest = day_scan(
            id@,
            day + 1,
            last as int,
            hour as int,
            start as int,
            end as int,
            width as int,
        );
        match res {
            LocalTime::Unique(u) => {
                let col = instant_to_column(u, start, end, width);
                assert(out@.push((day, col)) + rest =~= out@ + (seq![(day, col)] + rest));
                out.push((day, col));
            },
            _ => {},
        }
        day = day + 1;
    }
    assert(out@ + day_scan(
        id@,
        day as int,
        last as int,
        hour as int,
        start as int,
        end as int,
        width as int,
    ) =~= out@);
    Some(out)
}

/// Where a label of `len` columns starts so that it is centred on `pos`
/// without running past either edge of `width` columns.
pub fn centered_start(pos: u16, len: u16, width: u16) -> (r: u16)
    ensures
        r as int == ({
            let s = if pos >= len / 2 {
                pos - len / 2
            } else {
                0
            };
            let room = if width >= len {
                width - len
            } else {
                0
            };
            if s < room {
                s
            } else {
                room
            }
        }),
{
    let s = if pos >= len / 2 {
        pos - len / 2
    } else {
        0
    };
    let room = if width >= len {
        width - len
    } else {
        0
    };
    if s < room {
        s
    } else {
        room
    }
}

} // verus!
