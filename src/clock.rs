//! Instants, the timezone database lookups the engine relies on, and wall-clock arithmetic.

use vstd::prelude::*;

use chrono::{Offset, TimeZone};

verus! {

/// Instants are whole seconds since 1970-01-01T00:00:00Z. This bound (about
/// 250,000 years either way) keeps every instant, and every local reading a
/// day away from it, inside the calendar range of the date library.
pub const INSTANT_LIMIT: i64 = 8_000_000_000_000;

/// Bound on the edges of a timeline window: `INSTANT_LIMIT` with weeks to spare.
pub const WINDOW_LIMIT: i64 = 8_100_000_000_000;

/// The range accepted by the timezone lookups, still inside the date library's calendar.
pub const LOOKUP_LIMIT: i64 = 8_200_000_000_000;

/// An instant the engine works with.
pub open spec fn valid_instant(t: int) -> bool {
    -INSTANT_LIMIT <= t <= INSTANT_LIMIT
}

/// An instant that may stand at the edge of a timeline window.
pub open spec fn window_instant(t: int) -> bool {
    -WINDOW_LIMIT <= t <= WINDOW_LIMIT
}

/// An instant, or a local reading, the timezone lookups accept.
pub open spec fn in_lookup_range(t: int) -> bool {
    -LOOKUP_LIMIT <= t <= LOOKUP_LIMIT
}

/// How a local wall-clock reading maps back to UTC.
#[derive(Debug, Clone, Copy, PartialEq, Eq, Structural)]
pub enum LocalTime {
    /// Exactly one UTC instant shows this reading.
    Unique(i64),
    /// The reading occurs twice (clocks were set back).
    Ambiguous,
    /// The reading never occurs (clocks jumped over it).
    Nonexistent,
}

/// Whether an IANA identifier names a zone of the timezone database.
pub uninterp spec fn known_zone(id: Seq<char>) -> bool;

/// Seconds that local time in zone `id` is ahead of UTC at UTC instant `t`.
pub uninterp spec fn zone_offset(id: Seq<char>, t: int) -> int;

/// How the local reading `local` (seconds since the local epoch) in zone `id` maps to UTC.
pub uninterp spec fn local_resolution(id: Seq<char>, local: int) -> LocalTime;

/// Relies on chrono-tz's `FromStr` for `Tz`: whether the identifier parses to a zone.
#[verifier::external_body]
fn zone_lookup(id: &str) -> (r: bool)
    ensures
        r == known_zone(id@),
{
    id.parse::<chrono_tz::Tz>().is_ok()
}

/// Whether `id` names a zone of the timezone database.
pub fn zone_is_known(id: &str) -> (r: bool)
    ensures
        r == known_zone(id@),
{
    zone_lookup(id)
}

/// Relies on chrono-tz's `offset_from_utc_datetime` for `Tz`, read through
/// chrono's `Offset::fix` and `local_minus_utc`: the zone's offset at a UTC
/// instant. A chrono `FixedOffset` is always strictly less than a day.
#[verifier::external_body]
pub(crate) fn offset_seconds(id: &str, t: i64) -> (r: i32)
    requires
        known_zone(id@),
        in_lookup_range(t as int),
    ensures
        r as int == zone_offset(id@, t as int),
        -86400 < r < 86400,
{
    let tz: chrono_tz::Tz = id.parse().unwrap();
    let at = chrono::DateTime::from_timestamp(t, 0).unwrap();
    tz.offset_from_utc_datetime(&at.naive_utc()).fix().local_minus_utc()
}

/// Relies on chrono's `TimeZone::from_local_datetime` for chrono-tz's `Tz`:
/// the UTC instant that shows a local reading, if there is exactly one. That
/// instant is the reading less the offset of the span the reading falls in,
/// which is the zone's offset at that instant.
#[verifier::external_body]
pub(crate) fn resolve_local(id: &str, local: i64) -> (r: LocalTime)
    requires
        known_zone(id@),
        in_lookup_range(local as int),
    ensures
        r == local_resolution(id@, local as int),
        match r {
            LocalTime::Unique(u) => u + zone_offset(id@, u as int) == local,
            _ => true,
        },
{
    let tz: chrono_tz::Tz = id.parse().unwrap();
    let naive = chrono::DateTime::from_timestamp(local, 0).unwrap().naive_utc();
    match tz.from_local_datetime(&naive) {
        chrono::LocalResult::Single(d) => LocalTime::Unique(d.timestamp()),
        chrono::LocalResult::Ambiguous(_, _) => LocalTime::Ambiguous,
        chrono::LocalResult::None => LocalTime::Nonexistent,
    }
}


/// The abbreviation chrono-tz gives zone `id` at UTC instant `t` ("EST", "JST", "+0530").
pub uninterp spec fn zone_abbreviation(id: Seq<char>, t: int) -> Seq<char>;

/// Relies on chrono's `%Z` formatting of a time in a chrono-tz `Tz`: the
/// zone's abbreviation at an instant.
#[verifier::external_body]
pub(crate) fn abbreviation_at(id: &str, t: i64) -> (r: String)
    requires
        known_zone(id@),
        in_lookup_range(t as int),
    ensures
        r@ == zone_abbreviation(id@, t as int),
{
    let tz: chrono_tz::Tz = id.parse().unwrap();
    let at = chrono::DateTime::from_timestamp(t, 0).unwrap();
    at.with_timezone(&tz).format("%Z").to_string()
}

/// The local reading (seconds since the local epoch) of zone `id` at `t`.
pub open spec fn local_reading(id: Seq<char>, t: int) -> int {
    t + zone_offset(id, t)
}

/// Whole hours in `secs`, rounded toward zero.
pub open spec fn whole_hours(secs: int) -> int {
    if secs >= 0 {
        secs / 3600
    } else {
        -((-secs) / 3600)
    }
}

/// The offset in whole hours (toward zero) that zone `id` has at `t`.
pub open spec fn offset_hours_at(id: Seq<char>, t: int) -> int {
    whole_hours(zone_offset(id, t))
}

/// An offset in seconds as whole hours, rounded toward zero.
pub fn offset_to_hours(secs: i32) -> (r: i32)
    requires
        -86400 < secs < 86400,
    ensures
        r as int == whole_hours(secs as int),
        -24 < r < 24,
{
    if secs >= 0 {
        secs / 3600
    } else {
        -((-secs) / 3600)
    }
}

/// The zone's current offset in whole hours (toward zero).
pub(crate) fn utc_offset_hours(id: &str, now: i64) -> (r: i32)
    requires
        known_zone(id@),
        valid_instant(now as int),
    ensures
        r as int == offset_hours_at(id@, now as int),
{
    let s = offset_seconds(id, now);
    offset_to_hours(s)
}

/// Local wall-clock hour of day and minute of hour for a local reading.
pub open spec fn clock_reading(local: int) -> (int, int) {
    ((local % 86400) / 3600, (local % 3600) / 60)
}

/// The wall clock in zone `id` at `t`: hour, minute, and offset in seconds.
pub open spec fn wall_clock(id: Seq<char>, t: int) -> (int, int, int) {
    let local = t + zone_offset(id, t);
    (clock_reading(local).0, clock_reading(local).1, zone_offset(id, t))
}

/// A multiple of a day that lifts every value the engine takes a remainder of above zero.
pub const MOD_SHIFT: i64 = 8_640_000_000_000_000;

/// The remainder of `a` by `m`, always in `0..m`.
pub fn euclid_mod(a: i64, m: i64) -> (r: i64)
    requires
        m > 0,
        MOD_SHIFT % m == 0,
        -LOOKUP_LIMIT - 86400 <= a <= LOOKUP_LIMIT + 86400,
    ensures
        r as int == (a as int) % (m as int),
        0 <= r < m,
{
    let shifted = a + MOD_SHIFT;
    let r = shifted % m;
    proof {
        let mi = m as int;
        let k: int = MOD_SHIFT as int / mi;
        vstd::arithmetic::div_mod::lemma_fundamental_div_mod(MOD_SHIFT as int, mi);
        assert(MOD_SHIFT as int == mi * k);
        vstd::arithmetic::div_mod::lemma_mod_multiples_vanish(k, a as int, mi);
    }
    r
}

/// Reads the wall clock of a zone at an instant.
pub(crate) fn wall_clock_at(id: &str, t: i64) -> (r: (i64, i64, i32))
    requires
        known_zone(id@),
        in_lookup_range(t as int),
    ensures
        (r.0 as int, r.1 as int, r.2 as int) == wall_clock(id@, t as int),
        0 <= r.0 < 24,
{
    let off = offset_seconds(id, t);
    let local = t + off as i64;
    let day_secs = euclid_mod(local, 86400);
    let hour_secs = euclid_mod(local, 3600);
    (day_secs / 3600, hour_secs / 60, off)
}

/// `a` divided by a positive `m`, rounded down.
pub fn floor_div(a: i64, m: i64) -> (r: i64)
    requires
        m > 0,
        MOD_SHIFT % m == 0,
        -LOOKUP_LIMIT - 86400 <= a <= LOOKUP_LIMIT + 86400,
    ensures
        r as int == (a as int) / (m as int),
        r as int * m as int + (a as int) % (m as int) == a as int,
{
    let shifted = a + MOD_SHIFT;
    let q = shifted / m - MOD_SHIFT / m;
    proof {
        let mi = m as int;
        let k: int = MOD_SHIFT as int / mi;
        vstd::arithmetic::div_mod::lemma_fundamental_div_mod(MOD_SHIFT as int, mi);
        assert(MOD_SHIFT as int == k * mi);
        vstd::arithmetic::div_mod::lemma_hoist_over_denominator(a as int, k, mi as nat);
        vstd::arithmetic::div_mod::lemma_fundamental_div_mod(a as int, mi);
        assert(q as int == a as int / mi);
        assert(mi * (a as int / mi) == (a as int / mi) * mi) by (nonlinear_arith);
    }
    q
}

} // verus!
