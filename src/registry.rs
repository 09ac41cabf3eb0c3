//! The ordered registry of timeline rows: adding, removing, merging and splitting.

use vstd::prelude::*;

use crate::catalog::{CitiesData, CityData};
use crate::clock::{
    known_zone, offset_hours_at, utc_offset_hours, valid_instant, wall_clock, wall_clock_at,
    zone_is_known,
};
use crate::config::{ZoneConfig, ZoneConfigCompat};
use crate::naming::{find_by, in_zone};
use crate::properties::{
    fits_row, lemma_add_row_unique, lemma_merge_unique, lemma_place_unique,
    lemma_remove_relabel_unique, lemma_sort_unique, lemma_split_unique, unique_holders,
};
use crate::order::{
    first_index, insert_ordered, lemma_first_index, lemma_first_index_range, lemma_insert_at,
    sort_ordered,
};
use crate::text::{chars_of, eq_ascii_nocase, eq_ignore_ascii_case};
use crate::zones::{copy_label, opt_view, zones_view, MemberCity, MemberView, TimeZone, ZoneView};

verus! {

/// The key rows are ordered by: the zone's offset at `now` in whole hours.
pub open spec fn zone_key(z: ZoneView, now: int) -> int {
    offset_hours_at(z.id, now)
}

/// Row order at `now`: a smaller offset comes first.
pub open spec fn zone_order(now: int) -> spec_fn(ZoneView, ZoneView) -> bool {
    |a: ZoneView, b: ZoneView| zone_key(a, now) < zone_key(b, now)
}

/// Rows sorted by offset at `now`; rows with equal offsets keep their order.
pub open spec fn sort_zones(s: Seq<ZoneView>, now: int) -> Seq<ZoneView> {
    sort_ordered(s, zone_order(now))
}

/// Whether a row is for zone `t`: its own zone, or that of one of its cities.
pub open spec fn holds_zone(z: ZoneView, t: Seq<char>) -> bool {
    z.id == t || exists|k: int| 0 <= k < z.members.len() && (#[trigger] z.members[k]).timezone == t
}

/// Rows for zone `t`.
pub open spec fn holder(t: Seq<char>) -> spec_fn(ZoneView) -> bool {
    |z: ZoneView| holds_zone(z, t)
}

/// Rows whose zone shows the same wall clock as zone `t` at `now`.
pub open spec fn same_clock(t: Seq<char>, now: int) -> spec_fn(ZoneView) -> bool {
    |z: ZoneView| wall_clock(z.id, now) == wall_clock(t, now)
}

/// A row with one more city.
pub open spec fn with_member(z: ZoneView, m: MemberView) -> ZoneView {
    ZoneView { members: z.members.push(m), ..z }
}

/// A new row for a city.
pub open spec fn new_row(m: MemberView, label: Option<Seq<char>>) -> ZoneView {
    ZoneView { id: m.timezone, code: m.code, label, members: seq![m] }
}


/// Rows whose own zone is `t`.
pub open spec fn has_id(t: Seq<char>) -> spec_fn(ZoneView) -> bool {
    |z: ZoneView| z.id == t
}

/// Row `z` with the cities of row `e` added after its own.
pub open spec fn absorb(z: ZoneView, e: ZoneView) -> ZoneView {
    ZoneView { members: z.members + e.members, ..z }
}

/// Folds row `e` into `out`: into the first row of the same zone; failing
/// that, into the first row showing the same wall clock at `now`; else `e`
/// is appended.
pub open spec fn merge_one(out: Seq<ZoneView>, e: ZoneView, now: int) -> Seq<ZoneView> {
    let j = first_index(out, has_id(e.id));
    if j >= 0 {
        out.update(j, absorb(out[j], e))
    } else {
        let k = first_index(out, same_clock(e.id, now));
        if k >= 0 {
            out.update(k, absorb(out[k], e))
        } else {
            out.push(e)
        }
    }
}

/// The rows of `s`, front to back, each folded into the rows before it.
pub open spec fn merge_rows(s: Seq<ZoneView>, now: int) -> Seq<ZoneView>
    decreases s.len(),
{
    if s.len() == 0 {
        seq![]
    } else {
        merge_one(merge_rows(s.drop_last(), now), s.last(), now)
    }
}

/// One row per distinct zone among the cities `ms` of row `z`, in order of
/// first appearance; the row for `z`'s own zone keeps `z`'s label.
pub open spec fn split_groups(ms: Seq<MemberView>, z: ZoneView) -> Seq<ZoneView>
    decreases ms.len(),
{
    if ms.len() == 0 {
        seq![]
    } else {
        let g = split_groups(ms.drop_last(), z);
        let m = ms.last();
        let j = first_index(g, has_id(m.timezone));
        if j >= 0 {
            g.update(j, with_member(g[j], m))
        } else {
            g.push(
                new_row(
                    m,
                    if m.timezone == z.id {
                        z.label
                    } else {
                        None
                    },
                ),
            )
        }
    }
}

/// A row with at most one city stays; any other becomes one row per zone of its cities.
pub open spec fn split_row(z: ZoneView) -> Seq<ZoneView> {
    if z.members.len() <= 1 {
        seq![z]
    } else {
        split_groups(z.members, z)
    }
}

/// Every row of `s` split, in order.
pub open spec fn split_rows(s: Seq<ZoneView>) -> Seq<ZoneView>
    decreases s.len(),
{
    if s.len() == 0 {
        seq![]
    } else {
        split_rows(s.drop_last()) + split_row(s.last())
    }
}

/// `s` with `z` added: onto the first row for `z`'s zone, or as a row of its own.
pub open spec fn add_row(s: Seq<ZoneView>, z: ZoneView) -> Seq<ZoneView> {
    let j = first_index(s, holder(z.id));
    if j >= 0 {
        s.update(j, absorb(s[j], z))
    } else {
        s.push(z)
    }
}

/// Where a city goes: onto the first row for its zone; failing that, when
/// merging by time, onto the first row showing the same wall clock; else
/// onto a row of its own at the end.
pub open spec fn place_city(
    s: Seq<ZoneView>,
    m: MemberView,
    label: Option<Seq<char>>,
    now: int,
    merge: bool,
) -> Seq<ZoneView> {
    let j = first_index(s, holder(m.timezone));
    if j >= 0 {
        s.update(j, with_member(s[j], m))
    } else {
        let k = if merge {
            first_index(s, same_clock(m.timezone, now))
        } else {
            -1
        };
        if k >= 0 {
            s.update(k, with_member(s[k], m))
        } else {
            s.push(new_row(m, label))
        }
    }
}

/// Index of the first ", " in `s` at or after `i`, or -1.
pub open spec fn first_sep(s: Seq<char>, i: int) -> int
    decreases s.len() - i,
{
    if i < 0 || i + 2 > s.len() {
        -1
    } else if s[i] == ',' && s[i + 1] == ' ' {
        i
    } else {
        first_sep(s, i + 1)
    }
}

/// A name as looked up: the city, and the country when it is written "City, Country".
pub open spec fn name_parts(name: Seq<char>) -> (Seq<char>, Option<Seq<char>>) {
    let i = first_sep(name, 0);
    if i >= 0 {
        (name.subrange(0, i), Some(name.subrange(i + 2, name.len() as int)))
    } else {
        (name, None)
    }
}

/// Whether a catalog city answers to `name`, ignoring ASCII case.
pub open spec fn city_matches(c: CityData, name: Seq<char>) -> bool {
    let parts = name_parts(name);
    eq_ascii_nocase(c.name@, parts.0) && match parts.1 {
        Some(country) => eq_ascii_nocase(c.country@, country),
        None => true,
    }
}

/// Catalog cities answering to `name`.
pub open spec fn answers_to(name: Seq<char>) -> spec_fn(CityData) -> bool {
    |c: CityData| city_matches(c, name)
}

/// A catalog city as a row member.
pub open spec fn member_of(c: CityData) -> MemberView {
    MemberView { name: c.name@, code: c.code@, country: c.country@, timezone: c.timezone@ }
}


/// Whether `name` finds a catalog city whose zone is known.
pub open spec fn can_add(catalog: CitiesData, name: Seq<char>) -> bool {
    let i = first_index(catalog.cities@, answers_to(name));
    i >= 0 && known_zone(catalog.cities@[i].timezone@)
}

/// The rows after adding the city `name` finds, re-sorted at `now`; the rows
/// unchanged if it finds none.
pub open spec fn added(
    s: Seq<ZoneView>,
    catalog: CitiesData,
    name: Seq<char>,
    label: Option<Seq<char>>,
    now: int,
    merge: bool,
) -> Seq<ZoneView> {
    let i = first_index(catalog.cities@, answers_to(name));
    if can_add(catalog, name) {
        sort_zones(place_city(s, member_of(catalog.cities@[i]), label, now, merge), now)
    } else {
        s
    }
}


/// The cities a fresh timeline shows.
pub open spec fn default_city_names() -> Seq<Seq<char>> {
    seq![
        "Los Angeles"@,
        "New York"@,
        "UTC"@,
        "London"@,
        "Berlin"@,
        "Tokyo"@,
        "Sydney"@,
    ]
}

/// The rows after adding each of `names` in turn, without merging by time.
pub open spec fn added_all(
    s: Seq<ZoneView>,
    catalog: CitiesData,
    names: Seq<Seq<char>>,
    now: int,
) -> Seq<ZoneView>
    decreases names.len(),
{
    if names.len() == 0 {
        s
    } else {
        added(added_all(s, catalog, names.drop_last(), now), catalog, names.last(), None, now, false)
    }
}


/// Rows whose offset at `now` is `hours` whole hours.
pub open spec fn offset_is(hours: int, now: int) -> spec_fn(ZoneView) -> bool {
    |z: ZoneView| zone_key(z, now) == hours
}


/// The city name a row is saved under: its first city, else the first
/// catalog city in its zone, else its zone identifier.
pub open spec fn saved_name(z: ZoneView, cities: Seq<CityData>) -> Seq<char> {
    let i = first_index(cities, in_zone(z.id));
    if z.members.len() > 0 {
        z.members[0].name
    } else if i >= 0 {
        cities[i].name@
    } else {
        z.id
    }
}

/// The city name of a saved zone.
pub open spec fn config_name(c: ZoneConfigCompat) -> Seq<char> {
    match c {
        ZoneConfigCompat::Simple(n) => n@,
        ZoneConfigCompat::Full(z) => z.city_name@,
    }
}

/// The label of a saved zone.
pub open spec fn config_label(c: ZoneConfigCompat) -> Option<Seq<char>> {
    match c {
        ZoneConfigCompat::Simple(_) => None,
        ZoneConfigCompat::Full(z) => opt_view(z.custom_label),
    }
}

/// The rows after adding every saved zone in turn, each with its label.
pub open spec fn added_configs(
    s: Seq<ZoneView>,
    catalog: CitiesData,
    zones: Seq<ZoneConfigCompat>,
    now: int,
) -> Seq<ZoneView>
    decreases zones.len(),
{
    if zones.len() == 0 {
        s
    } else {
        let c = zones.last();
        added(
            added_configs(s, catalog, zones.drop_last(), now),
            catalog,
            config_name(c),
            config_label(c),
            now,
            false,
        )
    }
}


/// Every row, and every city on it, names a zone of the timezone database.
pub open spec fn rows_known(s: Seq<ZoneView>) -> bool {
    forall|i: int|
        0 <= i < s.len() ==> known_zone((#[trigger] s[i]).id) && forall|k: int|
            0 <= k < s[i].members.len() ==> known_zone((#[trigger] s[i].members[k]).timezone)
}

/// The ordered rows of the timeline, and whether cities whose clocks read the
/// same are put on one row.
pub struct TimeZoneManager {
    zones: Vec<TimeZone>,
    merge_by_time: bool,
}

impl View for TimeZoneManager {
    type V = Seq<ZoneView>;

    closed spec fn view(&self) -> Seq<ZoneView> {
        zones_view(self.zones@)
    }
}

/// A row's sort key at `now`.
fn row_key(z: &TimeZone, now: i64) -> (r: i32)
    requires
        known_zone(z@.id),
        valid_instant(now as int),
    ensures
        r as int == zone_key(z@, now as int),
{
    utc_offset_hours(z.timezone_id.as_str(), now)
}

/// Places `x` after every row whose offset is not larger.
fn insert_by_offset(v: &mut Vec<TimeZone>, x: TimeZone, now: i64)
    requires
        rows_known(zones_view(old(v)@)),
        rows_known(seq![x@]),
        valid_instant(now as int),
    ensures
        zones_view(final(v)@) == insert_ordered(zones_view(old(v)@), x@, zone_order(now as int)),
        rows_known(zones_view(final(v)@)),
{
    let ghost s = zones_view(v@);
    let ghost xv = x@;
    proof {
        assert(known_zone(seq![x@][0].id));
    }
    let kx = row_key(&x, now);
    let mut p: usize = v.len();
    loop
        invariant
            s == zones_view(v@),
            xv == x@,
            rows_known(s),
            valid_instant(now as int),
            kx as int == zone_key(xv, now as int),
            p <= v@.len(),
            forall|j: int| p <= j < s.len() ==> zone_order(now as int)(xv, #[trigger] s[j]),
        ensures
            p <= v@.len(),
            forall|j: int| p <= j < s.len() ==> zone_order(now as int)(xv, #[trigger] s[j]),
            p == 0 || !zone_order(now as int)(xv, s[p - 1]),
        decreases p,
    {
        if p == 0 {
            break;
        }
        assert(s[p - 1] == v@[p - 1]@);
        let kp = row_key(&v[p - 1], now);
        if kx >= kp {
            break;
        }
        p = p - 1;
    }
    proof {
        lemma_insert_at(s, xv, zone_order(now as int), p as int);
    }
    v.insert(p, x);
    proof {
        let t = s.subrange(0, p as int).push(xv) + s.subrange(p as int, s.len() as int);
        assert(zones_view(v@) =~= t);
        assert forall|i: int| 0 <= i < t.len() implies known_zone((#[trigger] t[i]).id) && forall|
            k: int,
        | 0 <= k < t[i].members.len() ==> known_zone((#[trigger] t[i].members[k]).timezone) by {
            if i < p {
                assert(t[i] == s[i]);
            } else if i == p {
                assert(t[i] == seq![xv][0]);
            } else {
                assert(t[i] == s[i - 1]);
            }
        }
    }
}

/// Sorts rows by their offset at `now`, keeping the order of rows with equal offsets.
fn sort_by_offset(v: Vec<TimeZone>, now: i64) -> (r: Vec<TimeZone>)
    requires
        rows_known(zones_view(v@)),
        valid_instant(now as int),
    ensures
        zones_view(r@) == sort_zones(zones_view(v@), now as int),
        rows_known(zones_view(r@)),
{
    let ghost orig = zones_view(v@);
    let n0 = v.len();
    let mut rest = v;
    let mut out: Vec<TimeZone> = Vec::new();
    let mut i: usize = 0;
    assert(zones_view(out@) =~= sort_zones(orig.take(0), now as int));
    while rest.len() > 0
        invariant
            valid_instant(now as int),
            rows_known(orig),
            orig.len() == n0,
            i <= orig.len(),
            zones_view(rest@) == orig.skip(i as int),
            zones_view(out@) == sort_zones(orig.take(i as int), now as int),
            rows_known(zones_view(out@)),
        decreases rest@.len(),
    {
        let ghost r0 = rest@;
        proof {
            assert(zones_view(r0).len() == r0.len());
            assert(zones_view(r0)[0] == r0[0]@);
            assert(orig.skip(i as int)[0] == orig[i as int]);
        }
        let x = rest.remove(0);
        proof {
            assert(zones_view(rest@) =~= zones_view(r0).skip(1));
            assert(zones_view(rest@) =~= orig.skip(i + 1));
            assert(x@ == orig[i as int]);
            assert(orig.take(i + 1).drop_last() =~= orig.take(i as int));
            assert(rows_known(seq![x@])) by {
                assert(seq![x@][0] == orig[i as int]);
            }
        }
        insert_by_offset(&mut out, x, now);
        i = i + 1;
    }
    assert(orig.take(i as int) =~= orig);
    out
}


/// Index of the first ", " in `s`.
fn find_sep(s: &Vec<char>) -> (r: Option<usize>)
    ensures
        match r {
            Some(i) => first_sep(s@, 0) == i && i + 2 <= s@.len(),
            None => first_sep(s@, 0) == -1,
        },
{
    let mut i: usize = 0;
    while i < s.len() && s.len() - i >= 2
        invariant
            first_sep(s@, i as int) == first_sep(s@, 0),
            i <= s@.len(),
        decreases s@.len() - i,
    {
        if s[i] == ',' && s[i + 1] == ' ' {
            return Some(i);
        }
        i = i + 1;
    }
    None
}

/// The characters of `v` from `from` up to `to`.
fn slice_chars(v: &Vec<char>, from: usize, to: usize) -> (r: Vec<char>)
    requires
        from <= to <= v@.len(),
    ensures
        r@ == v@.subrange(from as int, to as int),
{
    let mut out: Vec<char> = Vec::new();
    let mut i: usize = from;
    while i < to
        invariant
            from <= i <= to,
            to <= v@.len(),
            out@ == v@.subrange(from as int, i as int),
        decreases to - i,
    {
        out.push(v[i]);
        proof {
            assert(v@.subrange(from as int, i + 1) =~= v@.subrange(from as int, i as int).push(
                v@[i as int],
            ));
        }
        i = i + 1;
    }
    out
}

/// The first catalog city answering to `name`.
pub fn find_city(catalog: &CitiesData, name: &str) -> (r: Option<usize>)
    ensures
        match r {
            Some(i) => first_index(catalog.cities@, answers_to(name@)) == i && i
                < catalog.cities@.len(),
            None => first_index(catalog.cities@, answers_to(name@)) == -1,
        },
{
    let full = chars_of(name);
    let n = full.len();
    let sep = find_sep(&full);
    let (city, country): (Vec<char>, Option<Vec<char>>) = match sep {
        Some(i) => (slice_chars(&full, 0, i), Some(slice_chars(&full, i + 2, n))),
        None => (full, None),
    };
    proof {
        let parts = name_parts(name@);
        assert(city@ == parts.0);
        assert(match country {
            Some(c) => parts.1 == Some(c@),
            None => parts.1 is None,
        });
    }
    let ghost cities = catalog.cities@;
    let mut i: usize = 0;
    while i < catalog.cities.len()
        invariant
            cities == catalog.cities@,
            i <= cities.len(),
            city@ == name_parts(name@).0,
            match country {
                Some(c) => name_parts(name@).1 == Some(c@),
                None => name_parts(name@).1 is None,
            },
            forall|j: int| 0 <= j < i ==> !answers_to(name@)(#[trigger] cities[j]),
        decreases cities.len() - i,
    {
        let c = &catalog.cities[i];
        let name_chars = chars_of(c.name.as_str());
        let mut hit = eq_ignore_ascii_case(&name_chars, &city);
        match &country {
            Some(want) => {
                if hit {
                    let country_chars = chars_of(c.country.as_str());
                    hit = eq_ignore_ascii_case(&country_chars, want);
                }
            },
            None => {},
        }
        if hit {
            proof {
                lemma_first_index(cities, answers_to(name@), i as int);
            }
            return Some(i);
        }
        i = i + 1;
    }
    proof {
        lemma_first_index(cities, answers_to(name@), i as int);
    }
    None
}

/// Whether row `z` is for zone `t`.
fn row_holds(z: &TimeZone, t: &String) -> (r: bool)
    ensures
        r == holds_zone(z@, t@),
{
    if z.timezone_id == *t {
        return true;
    }
    let mut k: usize = 0;
    while k < z.members.len()
        invariant
            k <= z.members@.len(),
            z.timezone_id@ != t@,
            forall|j: int| 0 <= j < k ==> (#[trigger] z@.members[j]).timezone != t@,
        decreases z.members@.len() - k,
    {
        assert(z@.members[k as int] == z.members@[k as int]@);
        if z.members[k].timezone == *t {
            return true;
        }
        k = k + 1;
    }
    false
}

/// The first row for zone `t`.
fn find_holder(v: &Vec<TimeZone>, t: &String) -> (r: Option<usize>)
    ensures
        match r {
            Some(i) => first_index(zones_view(v@), holder(t@)) == i && i < v@.len(),
            None => first_index(zones_view(v@), holder(t@)) == -1,
        },
{
    let ghost s = zones_view(v@);
    let mut i: usize = 0;
    while i < v.len()
        invariant
            s == zones_view(v@),
            i <= v@.len(),
            forall|j: int| 0 <= j < i ==> !holder(t@)(#[trigger] s[j]),
        decreases v@.len() - i,
    {
        assert(s[i as int] == v@[i as int]@);
        if row_holds(&v[i], t) {
            proof {
                lemma_first_index(s, holder(t@), i as int);
            }
            return Some(i);
        }
        i = i + 1;
    }
    proof {
        lemma_first_index(s, holder(t@), i as int);
    }
    None
}

/// The first row whose clock reads the same as zone `t`'s at `now`.
fn find_same_clock(v: &Vec<TimeZone>, t: &String, now: i64) -> (r: Option<usize>)
    requires
        rows_known(zones_view(v@)),
        known_zone(t@),
        valid_instant(now as int),
    ensures
        match r {
            Some(i) => first_index(zones_view(v@), same_clock(t@, now as int)) == i && i < v@.len(),
            None => first_index(zones_view(v@), same_clock(t@, now as int)) == -1,
        },
{
    let ghost s = zones_view(v@);
    let target = wall_clock_at(t.as_str(), now);
    let mut i: usize = 0;
    while i < v.len()
        invariant
            s == zones_view(v@),
            rows_known(s),
            valid_instant(now as int),
            (target.0 as int, target.1 as int, target.2 as int) == wall_clock(t@, now as int),
            i <= v@.len(),
            forall|j: int| 0 <= j < i ==> !same_clock(t@, now as int)(#[trigger] s[j]),
        decreases v@.len() - i,
    {
        assert(s[i as int] == v@[i as int]@);
        let here = wall_clock_at(v[i].timezone_id.as_str(), now);
        if here.0 == target.0 && here.1 == target.1 && here.2 == target.2 {
            proof {
                lemma_first_index(s, same_clock(t@, now as int), i as int);
            }
            return Some(i);
        }
        i = i + 1;
    }
    proof {
        lemma_first_index(s, same_clock(t@, now as int), i as int);
    }
    None
}

/// Adds a city to the row at `j`.
fn push_member(v: &mut Vec<TimeZone>, j: usize, m: MemberCity)
    requires
        j < old(v)@.len(),
    ensures
        zones_view(final(v)@) == zones_view(old(v)@).update(
            j as int,
            with_member(zones_view(old(v)@)[j as int], m@),
        ),
{
    let ghost before = zones_view(v@);
    let mut z = v.remove(j);
    let ghost zv = z@;
    z.members.push(m);
    assert(z@.members =~= zv.members.push(m@));
    v.insert(j, z);
    assert(zones_view(v@) =~= before.update(j as int, with_member(before[j as int], m@)));
}

/// Rows stay known when a city of a known zone joins one of them.
proof fn lemma_join_known(s: Seq<ZoneView>, j: int, m: MemberView)
    requires
        rows_known(s),
        known_zone(m.timezone),
        0 <= j < s.len(),
    ensures
        rows_known(s.update(j, with_member(s[j], m))),
{
    let t = s.update(j, with_member(s[j], m));
    assert forall|i: int| 0 <= i < t.len() implies known_zone((#[trigger] t[i]).id) && forall|
        k: int,
    | 0 <= k < t[i].members.len() ==> known_zone((#[trigger] t[i].members[k]).timezone) by {
        if i == j {
            assert forall|k: int| 0 <= k < t[i].members.len() implies known_zone(
                (#[trigger] t[i].members[k]).timezone,
            ) by {
                if k < s[i].members.len() {
                    assert(t[i].members[k] == s[i].members[k]);
                } else {
                    assert(t[i].members[k] == m);
                }
            }
        } else {
            assert(t[i] == s[i]);
        }
    }
}

/// Rows stay known when a known row is appended.
proof fn lemma_push_known(s: Seq<ZoneView>, z: ZoneView)
    requires
        rows_known(s),
        rows_known(seq![z]),
    ensures
        rows_known(s.push(z)),
{
    let t = s.push(z);
    assert forall|i: int| 0 <= i < t.len() implies known_zone((#[trigger] t[i]).id) && forall|
        k: int,
    | 0 <= k < t[i].members.len() ==> known_zone((#[trigger] t[i].members[k]).timezone) by {
        if i < s.len() {
            assert(t[i] == s[i]);
        } else {
            assert(t[i] == seq![z][0]);
        }
    }
}

/// Rows stay known when a city of a known zone is placed.
proof fn lemma_place_known(
    s: Seq<ZoneView>,
    m: MemberView,
    label: Option<Seq<char>>,
    now: int,
    merge: bool,
)
    requires
        rows_known(s),
        known_zone(m.timezone),
    ensures
        rows_known(place_city(s, m, label, now, merge)),
{
    let j = first_index(s, holder(m.timezone));
    lemma_first_index_range(s, holder(m.timezone));
    lemma_first_index_range(s, same_clock(m.timezone, now));
    if j >= 0 {
        lemma_join_known(s, j, m);
    } else {
        let k = if merge {
            first_index(s, same_clock(m.timezone, now))
        } else {
            -1
        };
        if k >= 0 {
            lemma_join_known(s, k, m);
        } else {
            let z = new_row(m, label);
            assert(rows_known(seq![z])) by {
                assert(seq![z][0].members[0] == m);
            }
            lemma_push_known(s, z);
        }
    }
}

/// Whether a row and all its cities name known zones.
fn row_is_known(z: &TimeZone) -> (r: bool)
    ensures
        r == rows_known(seq![z@]),
{
    assert(seq![z@][0] == z@);
    if !zone_is_known(z.timezone_id.as_str()) {
        return false;
    }
    let mut k: usize = 0;
    while k < z.members.len()
        invariant
            k <= z.members@.len(),
            seq![z@][0] == z@,
            known_zone(z@.id),
            forall|j: int| 0 <= j < k ==> known_zone((#[trigger] z@.members[j]).timezone),
        decreases z.members@.len() - k,
    {
        assert(z@.members[k as int] == z.members@[k as int]@);
        if !zone_is_known(z.members[k].timezone.as_str()) {
            return false;
        }
        k = k + 1;
    }
    true
}

/// Whether row `z` shares no zone with a row of `v` other than `joins`, the
/// first row for its own zone.
fn row_fits(v: &Vec<TimeZone>, z: &TimeZone, joins: Option<usize>) -> (r: bool)
    requires
        match joins {
            Some(j) => first_index(zones_view(v@), holder(z@.id)) == j,
            None => first_index(zones_view(v@), holder(z@.id)) == -1,
        },
    ensures
        r == fits_row(zones_view(v@), z@),
{
    let ghost s = zones_view(v@);
    let ghost jj = first_index(s, holder(z@.id));
    let mut i: usize = 0;
    while i < v.len()
        invariant
            s == zones_view(v@),
            jj == first_index(s, holder(z@.id)),
            match joins {
                Some(j) => jj == j,
                None => jj == -1,
            },
            i <= v@.len(),
            forall|a: int, t: Seq<char>|
                0 <= a < i && #[trigger] holds_zone(s[a], t) && holds_zone(z@, t) ==> a == jj,
        decreases v@.len() - i,
    {
        assert(s[i as int] == v@[i as int]@);
        let skip = match joins {
            Some(j) => j == i,
            None => false,
        };
        if !skip {
            assert(i as int != jj);
            if row_holds(&v[i], &z.timezone_id) {
                assert(holds_zone(z@, z@.id));
                assert(holds_zone(s[i as int], z@.id));
                return false;
            }
            let mut k: usize = 0;
            while k < z.members.len()
                invariant
                    s == zones_view(v@),
                    s[i as int] == v@[i as int]@,
                    i < v@.len(),
                    jj == first_index(s, holder(z@.id)),
                    i as int != jj,
                    k <= z@.members.len(),
                    !holds_zone(s[i as int], z@.id),
                    forall|x: int| 0 <= x < k ==> !holds_zone(s[i as int], (#[trigger] z@.members[x]).timezone),
                decreases z@.members.len() - k,
            {
                assert(z@.members[k as int] == z.members@[k as int]@);
                if row_holds(&v[i], &z.members[k].timezone) {
                    assert(holds_zone(z@, z@.members[k as int].timezone));
                    assert(holds_zone(s[i as int], z@.members[k as int].timezone));
                    assert(i as int != jj);
                    return false;
                }
                k = k + 1;
            }
            assert forall|t: Seq<char>| #[trigger] holds_zone(s[i as int], t) implies !holds_zone(z@, t) by {
                if holds_zone(z@, t) && z@.id != t {
                    let x = choose|x: int| 0 <= x < z@.members.len() && (#[trigger] z@.members[x]).timezone == t;
                }
            }
        }
        i = i + 1;
    }
    true
}

/// The first row whose own zone is `t`.
fn find_id(v: &Vec<TimeZone>, t: &String) -> (r: Option<usize>)
    ensures
        match r {
            Some(i) => first_index(zones_view(v@), has_id(t@)) == i && i < v@.len(),
            None => first_index(zones_view(v@), has_id(t@)) == -1,
        },
{
    let ghost s = zones_view(v@);
    let mut i: usize = 0;
    while i < v.len()
        invariant
            s == zones_view(v@),
            i <= v@.len(),
            forall|j: int| 0 <= j < i ==> !has_id(t@)(#[trigger] s[j]),
        decreases v@.len() - i,
    {
        assert(s[i as int] == v@[i as int]@);
        if v[i].timezone_id == *t {
            proof {
                lemma_first_index(s, has_id(t@), i as int);
            }
            return Some(i);
        }
        i = i + 1;
    }
    proof {
        lemma_first_index(s, has_id(t@), i as int);
    }
    None
}

/// Moves the cities of `e` onto the row at `j`.
fn absorb_at(v: &mut Vec<TimeZone>, j: usize, e: TimeZone)
    requires
        j < old(v)@.len(),
    ensures
        zones_view(final(v)@) == zones_view(old(v)@).update(
            j as int,
            absorb(zones_view(old(v)@)[j as int], e@),
        ),
{
    let ghost before = zones_view(v@);
    let ghost ev = e@;
    let mut z = v.remove(j);
    let ghost zv = z@;
    let mut extra = e.members;
    z.members.append(&mut extra);
    assert(z@.members =~= zv.members + ev.members);
    v.insert(j, z);
    assert(zones_view(v@) =~= before.update(j as int, absorb(before[j as int], ev)));
}

/// Rows stay known when a known row is folded into one of them.
proof fn lemma_absorb_known(s: Seq<ZoneView>, j: int, e: ZoneView)
    requires
        rows_known(s),
        rows_known(seq![e]),
        0 <= j < s.len(),
    ensures
        rows_known(s.update(j, absorb(s[j], e))),
{
    let t = s.update(j, absorb(s[j], e));
    assert forall|i: int| 0 <= i < t.len() implies known_zone((#[trigger] t[i]).id) && forall|
        k: int,
    | 0 <= k < t[i].members.len() ==> known_zone((#[trigger] t[i].members[k]).timezone) by {
        if i == j {
            assert forall|k: int| 0 <= k < t[i].members.len() implies known_zone(
                (#[trigger] t[i].members[k]).timezone,
            ) by {
                if k < s[i].members.len() {
                    assert(t[i].members[k] == s[i].members[k]);
                } else {
                    assert(t[i].members[k] == seq![e][0].members[k - s[i].members.len()]);
                }
            }
        } else {
            assert(t[i] == s[i]);
        }
    }
}

/// Element `i` of known rows is known on its own.
proof fn lemma_row_known(s: Seq<ZoneView>, i: int)
    requires
        rows_known(s),
        0 <= i < s.len(),
    ensures
        rows_known(seq![s[i]]),
{
    assert(seq![s[i]][0] == s[i]);
}

/// Folds every row into the rows before it, front to back.
fn merge_all(v: Vec<TimeZone>, now: i64) -> (r: Vec<TimeZone>)
    requires
        rows_known(zones_view(v@)),
        valid_instant(now as int),
    ensures
        zones_view(r@) == merge_rows(zones_view(v@), now as int),
        rows_known(zones_view(r@)),
{
    let ghost orig = zones_view(v@);
    let n0 = v.len();
    let mut rest = v;
    let mut out: Vec<TimeZone> = Vec::new();
    let mut i: usize = 0;
    assert(zones_view(out@) =~= merge_rows(orig.take(0), now as int));
    while rest.len() > 0
        invariant
            valid_instant(now as int),
            rows_known(orig),
            orig.len() == n0,
            i <= orig.len(),
            zones_view(rest@) == orig.skip(i as int),
            zones_view(out@) == merge_rows(orig.take(i as int), now as int),
            rows_known(zones_view(out@)),
        decreases rest@.len(),
    {
        let ghost r0 = rest@;
        proof {
            assert(zones_view(r0).len() == r0.len());
            assert(zones_view(r0)[0] == r0[0]@);
            assert(orig.skip(i as int)[0] == orig[i as int]);
        }
        let e = rest.remove(0);
        let ghost before = zones_view(out@);
        proof {
            assert(zones_view(rest@) =~= zones_view(r0).skip(1));
            assert(zones_view(rest@) =~= orig.skip(i + 1));
            assert(e@ == orig[i as int]);
            assert(orig.take(i + 1).drop_last() =~= orig.take(i as int));
            lemma_row_known(orig, i as int);
        }
        match find_id(&out, &e.timezone_id) {
            Some(j) => {
                proof {
                    lemma_absorb_known(before, j as int, e@);
                }
                absorb_at(&mut out, j, e);
            },
            None => {
                assert(known_zone(seq![e@][0].id));
                match find_same_clock(&out, &e.timezone_id, now) {
                    Some(k) => {
                        proof {
                            lemma_absorb_known(before, k as int, e@);
                        }
                        absorb_at(&mut out, k, e);
                    },
                    None => {
                        proof {
                            lemma_push_known(before, e@);
                        }
                        out.push(e);
                        assert(zones_view(out@) =~= before.push(e@));
                    },
                }
            },
        }
        i = i + 1;
    }
    assert(orig.take(i as int) =~= orig);
    out
}

/// A copy of a city.
fn copy_member(m: &MemberCity) -> (r: MemberCity)
    ensures
        r@ == m@,
{
    MemberCity {
        name: m.name.clone(),
        code: m.code.clone(),
        country: m.country.clone(),
        timezone: m.timezone.clone(),
    }
}

/// One row per zone among the cities of `z`.
fn split_members(z: &TimeZone) -> (r: Vec<TimeZone>)
    requires
        rows_known(seq![z@]),
    ensures
        zones_view(r@) == split_groups(z@.members, z@),
        rows_known(zones_view(r@)),
{
    let ghost ms = z@.members;
    let mut out: Vec<TimeZone> = Vec::new();
    let mut k: usize = 0;
    assert(zones_view(out@) =~= split_groups(ms.take(0), z@));
    assert(seq![z@][0] == z@);
    while k < z.members.len()
        invariant
            ms == z@.members,
            rows_known(seq![z@]),
            k <= ms.len(),
            zones_view(out@) == split_groups(ms.take(k as int), z@),
            rows_known(zones_view(out@)),
        decreases ms.len() - k,
    {
        let m = &z.members[k];
        let ghost before = zones_view(out@);
        proof {
            assert(ms[k as int] == m@);
            assert(ms.take(k + 1).drop_last() =~= ms.take(k as int));
            assert(ms.take(k + 1).last() == m@);
            assert(seq![z@][0].members[k as int] == m@);
        }
        match find_id(&out, &m.timezone) {
            Some(j) => {
                proof {
                    lemma_join_known(before, j as int, m@);
                }
                push_member(&mut out, j, copy_member(m));
            },
            None => {
                let label = if z.timezone_id == m.timezone {
                    copy_label(&z.custom_label)
                } else {
                    None
                };
                let row = TimeZone {
                    timezone_id: m.timezone.clone(),
                    display_name: m.code.clone(),
                    custom_label: label,
                    members: vec![copy_member(m)],
                };
                let ghost lv = if m@.timezone == z@.id {
                    z@.label
                } else {
                    None
                };
                assert(row@ == new_row(m@, lv)) by {
                    assert(row@.members =~= seq![m@]);
                }
                proof {
                    assert(rows_known(seq![row@])) by {
                        assert(seq![row@][0].members[0] == m@);
                    }
                    lemma_push_known(before, row@);
                }
                out.push(row);
                assert(zones_view(out@) =~= before.push(row@));
            },
        }
        k = k + 1;
    }
    assert(ms.take(k as int) =~= ms);
    out
}

/// Splits every row with more than one city into one row per zone.
fn split_all(v: Vec<TimeZone>) -> (r: Vec<TimeZone>)
    requires
        rows_known(zones_view(v@)),
    ensures
        zones_view(r@) == split_rows(zones_view(v@)),
        rows_known(zones_view(r@)),
{
    let ghost orig = zones_view(v@);
    let n0 = v.len();
    let mut rest = v;
    let mut out: Vec<TimeZone> = Vec::new();
    let mut i: usize = 0;
    assert(zones_view(out@) =~= split_rows(orig.take(0)));
    while rest.len() > 0
        invariant
            rows_known(orig),
            orig.len() == n0,
            i <= orig.len(),
            zones_view(rest@) == orig.skip(i as int),
            zones_view(out@) == split_rows(orig.take(i as int)),
            rows_known(zones_view(out@)),
        decreases rest@.len(),
    {
        let ghost r0 = rest@;
        proof {
            assert(zones_view(r0).len() == r0.len());
            assert(zones_view(r0)[0] == r0[0]@);
            assert(orig.skip(i as int)[0] == orig[i as int]);
        }
        let z = rest.remove(0);
        let ghost before = zones_view(out@);
        proof {
            assert(zones_view(rest@) =~= zones_view(r0).skip(1));
            assert(zones_view(rest@) =~= orig.skip(i + 1));
            assert(z@ == orig[i as int]);
            assert(orig.take(i + 1).drop_last() =~= orig.take(i as int));
            lemma_row_known(orig, i as int);
        }
        if z.members.len() <= 1 {
            proof {
                lemma_push_known(before, z@);
            }
            out.push(z);
            assert(zones_view(out@) =~= before + seq![orig[i as int]]);
        } else {
            let mut groups = split_members(&z);
            let ghost gv = zones_view(groups@);
            proof {
                lemma_concat_known(before, gv);
            }
            out.append(&mut groups);
            assert(zones_view(out@) =~= before + gv);
        }
        i = i + 1;
    }
    assert(orig.take(i as int) =~= orig);
    out
}

/// Two sequences of known rows make a sequence of known rows.
proof fn lemma_concat_known(a: Seq<ZoneView>, b: Seq<ZoneView>)
    requires
        rows_known(a),
        rows_known(b),
    ensures
        rows_known(a + b),
{
    let t = a + b;
    assert forall|i: int| 0 <= i < t.len() implies known_zone((#[trigger] t[i]).id) && forall|
        k: int,
    | 0 <= k < t[i].members.len() ==> known_zone((#[trigger] t[i].members[k]).timezone) by {
        if i < a.len() {
            assert(t[i] == a[i]);
        } else {
            assert(t[i] == b[i - a.len()]);
        }
    }
}


impl TimeZoneManager {
    /// Invariant: every row and every city on a row names a known zone, and
    /// no zone is held by two rows.
    pub closed spec fn wf(&self) -> bool {
        rows_known(self@) && unique_holders(self@)
    }

    /// A well-formed registry has each zone on at most one row.
    pub proof fn lemma_wf_unique(&self)
        requires
            self.wf(),
        ensures
            unique_holders(self@),
    {
    }

    /// Whether cities whose clocks read the same share a row.
    pub closed spec fn merges_by_time(&self) -> bool {
        self.merge_by_time
    }

    /// An empty registry that keeps zones apart.
    pub fn new() -> (r: TimeZoneManager)
        ensures
            r@ == Seq::<ZoneView>::empty(),
            r.wf(),
            !r.merges_by_time(),
    {
        let r = TimeZoneManager { zones: Vec::new(), merge_by_time: false };
        assert(r@ =~= Seq::<ZoneView>::empty());
        r
    }


    /// A registry holding the default cities that the catalog knows,
    /// sorted by offset at `now`.
    pub fn with_default_zones(catalog: &CitiesData, now: i64) -> (r: TimeZoneManager)
        requires
            valid_instant(now as int),
        ensures
            r.wf(),
            !r.merges_by_time(),
            r@ == added_all(seq![], *catalog, default_city_names(), now as int),
    {
        let names: Vec<&str> = vec![
            "Los Angeles",
            "New York",
            "UTC",
            "London",
            "Berlin",
            "Tokyo",
            "Sydney",
        ];
        let ghost want = default_city_names();
        assert(names@.map_values(|n: &str| n@) =~= want);
        let mut m = TimeZoneManager::new();
        let mut i: usize = 0;
        assert(want.take(0) =~= Seq::<Seq<char>>::empty());
        while i < names.len()
            invariant
                want == default_city_names(),
                names@.map_values(|n: &str| n@) == want,
                i <= names@.len(),
                valid_instant(now as int),
                m.wf(),
                !m.merges_by_time(),
                m@ == added_all(seq![], *catalog, want.take(i as int), now as int),
            decreases names@.len() - i,
        {
            assert(names@[i as int]@ == want[i as int]);
            assert(want.take(i + 1).drop_last() =~= want.take(i as int));
            m.add_timezone_by_name(catalog, names[i], now);
            i = i + 1;
        }
        assert(want.take(i as int) =~= want);
        m
    }


    /// The first row whose offset at `now` is `hours` whole hours, such as
    /// the row matching the machine's own offset.
    pub fn index_with_offset(&self, hours: i32, now: i64) -> (r: Option<usize>)
        requires
            self.wf(),
            valid_instant(now as int),
        ensures
            match r {
                Some(i) => first_index(self@, offset_is(hours as int, now as int)) == i,
                None => first_index(self@, offset_is(hours as int, now as int)) == -1,
            },
    {
        let ghost s = self@;
        let mut i: usize = 0;
        while i < self.zones.len()
            invariant
                s == self@,
                rows_known(s),
                valid_instant(now as int),
                i <= s.len(),
                forall|j: int| 0 <= j < i ==> !offset_is(hours as int, now as int)(#[trigger] s[j]),
            decreases s.len() - i,
        {
            assert(s[i as int] == self.zones@[i as int]@);
            if row_key(&self.zones[i], now) == hours {
                proof {
                    lemma_first_index(s, offset_is(hours as int, now as int), i as int);
                }
                return Some(i);
            }
            i = i + 1;
        }
        proof {
            lemma_first_index(s, offset_is(hours as int, now as int), i as int);
        }
        None
    }


    /// The rows as saved zones: under their first city's name, else the
    /// first catalog city in their zone, else their zone; with their label
    /// when they have one.
    pub fn zone_configs(&self, catalog: &CitiesData) -> (r: Vec<ZoneConfigCompat>)
        ensures
            r@.len() == self@.len(),
            forall|i: int|
                0 <= i < r@.len() ==> config_name(#[trigger] r@[i]) == saved_name(
                    self@[i],
                    catalog.cities@,
                ) && config_label(r@[i]) == self@[i].label && (r@[i] is Simple <==> self@[i].label
                    is None),
    {
        let mut out: Vec<ZoneConfigCompat> = Vec::new();
        let mut i: usize = 0;
        while i < self.zones.len()
            invariant
                i <= self@.len(),
                out@.len() == i,
                forall|k: int|
                    0 <= k < i ==> config_name(#[trigger] out@[k]) == saved_name(
                        self@[k],
                        catalog.cities@,
                    ) && config_label(out@[k]) == self@[k].label && (out@[k] is Simple
                        <==> self@[k].label is None),
            decreases self@.len() - i,
        {
            let z = &self.zones[i];
            assert(self@[i as int] == z@);
            let name = if z.members.len() > 0 {
                z.members[0].name.clone()
            } else {
                match find_by(&catalog.cities, &z.timezone_id, 2) {
                    Some(j) => catalog.cities[j].name.clone(),
                    None => z.timezone_id.clone(),
                }
            };
            let entry = match &z.custom_label {
                Some(label) => ZoneConfigCompat::Full(
                    ZoneConfig { city_name: name, custom_label: Some(label.clone()) },
                ),
                None => ZoneConfigCompat::Simple(name),
            };
            out.push(entry);
            i = i + 1;
        }
        out
    }

    /// A registry of the saved zones, each added with its label, without
    /// merging by time; the default cities when none of them could be added.
    pub fn from_zone_configs(catalog: &CitiesData, zones: &Vec<ZoneConfigCompat>, now: i64) -> (r:
        TimeZoneManager)
        requires
            valid_instant(now as int),
        ensures
            r.wf(),
            !r.merges_by_time(),
            r@ == if added_configs(seq![], *catalog, zones@, now as int).len() > 0 {
                added_configs(seq![], *catalog, zones@, now as int)
            } else {
                added_all(seq![], *catalog, default_city_names(), now as int)
            },
    {
        let mut m = TimeZoneManager::new();
        let mut i: usize = 0;
        assert(zones@.take(0) =~= Seq::<ZoneConfigCompat>::empty());
        while i < zones.len()
            invariant
                i <= zones@.len(),
                valid_instant(now as int),
                m.wf(),
                !m.merges_by_time(),
                m@ == added_configs(seq![], *catalog, zones@.take(i as int), now as int),
            decreases zones@.len() - i,
        {
            let c = &zones[i];
            assert(zones@.take(i + 1).drop_last() =~= zones@.take(i as int));
            assert(zones@.take(i + 1).last() == *c);
            let label: Option<String> = match c.custom_label() {
                Some(l) => Some(String::from_str(l)),
                None => None,
            };
            m.add_timezone_with_label(catalog, c.city_name(), label, now);
            i = i + 1;
        }
        assert(zones@.take(i as int) =~= zones@);
        if m.zone_count() == 0 {
            TimeZoneManager::with_default_zones(catalog, now)
        } else {
            m
        }
    }

    /// The rows, in display order.
    pub fn zones(&self) -> (r: &[TimeZone])
        ensures
            zones_view(r@) == self@,
    {
        self.zones.as_slice()
    }

    pub fn zone_count(&self) -> (r: usize)
        ensures
            r == self@.len(),
    {
        self.zones.len()
    }

    /// Whether cities whose clocks read the same share a row.
    pub fn merge_by_time(&self) -> (r: bool)
        ensures
            r == self.merges_by_time(),
    {
        self.merge_by_time
    }


    /// Adds the first catalog city answering to `name` ("City" or "City,
    /// Country", ASCII case ignored), labelled `custom_label` if it gets a
    /// row of its own. False, with nothing changed, when no city answers or
    /// its zone is unknown. The rows are then re-sorted by offset at `now`.
    pub fn add_timezone_with_label(
        &mut self,
        catalog: &CitiesData,
        name: &str,
        custom_label: Option<String>,
        now: i64,
    ) -> (r: bool)
        requires
            old(self).wf(),
            valid_instant(now as int),
        ensures
            final(self).wf(),
            final(self).merges_by_time() == old(self).merges_by_time(),
            r == can_add(*catalog, name@),
            final(self)@ == added(
                old(self)@,
                *catalog,
                name@,
                opt_view(custom_label),
                now as int,
                old(self).merges_by_time(),
            ),
    {
        let found = find_city(catalog, name);
        let i = match found {
            Some(i) => i,
            None => {
                return false;
            },
        };
        let city = &catalog.cities[i];
        if !zone_is_known(city.timezone.as_str()) {
            return false;
        }
        let m = MemberCity {
            name: city.name.clone(),
            code: city.code.clone(),
            country: city.country.clone(),
            timezone: city.timezone.clone(),
        };
        let ghost mv = m@;
        let ghost before = self@;
        assert(mv == member_of(catalog.cities@[i as int]));
        let mut rows: Vec<TimeZone> = Vec::new();
        core::mem::swap(&mut rows, &mut self.zones);
        assert(zones_view(rows@) == before);
        match find_holder(&rows, &city.timezone) {
            Some(j) => {
                push_member(&mut rows, j, m);
            },
            None => {
                let k = if self.merge_by_time {
                    find_same_clock(&rows, &city.timezone, now)
                } else {
                    None
                };
                match k {
                    Some(k) => {
                        push_member(&mut rows, k, m);
                    },
                    None => {
                        let z = TimeZone {
                            timezone_id: city.timezone.clone(),
                            display_name: city.code.clone(),
                            custom_label,
                            members: vec![m],
                        };
                        assert(z@ == new_row(mv, opt_view(custom_label))) by {
                            assert(z@.members =~= seq![mv]);
                        }
                        rows.push(z);
                        assert(zones_view(rows@) =~= before.push(new_row(mv, opt_view(custom_label))));
                    },
                }
            },
        }
        let ghost placed = zones_view(rows@);
        proof {
            lemma_place_known(before, mv, opt_view(custom_label), now as int, self.merge_by_time);
            assert(placed == place_city(
                before,
                mv,
                opt_view(custom_label),
                now as int,
                self.merge_by_time,
            ));
            lemma_place_unique(before, mv, opt_view(custom_label), now as int, self.merge_by_time);
            lemma_sort_unique(placed, now as int);
        }
        self.zones = sort_by_offset(rows, now);
        true
    }

    /// Adds the first catalog city answering to `name`, with no label.
    pub fn add_timezone_by_name(&mut self, catalog: &CitiesData, name: &str, now: i64) -> (r: bool)
        requires
            old(self).wf(),
            valid_instant(now as int),
        ensures
            final(self).wf(),
            final(self).merges_by_time() == old(self).merges_by_time(),
            r == can_add(*catalog, name@),
            final(self)@ == added(
                old(self)@,
                *catalog,
                name@,
                None,
                now as int,
                old(self).merges_by_time(),
            ),
    {
        self.add_timezone_with_label(catalog, name, None, now)
    }


    /// Turns merging by time on or off and regroups the rows: on, every row
    /// is folded into an earlier one of the same zone or the same wall clock
    /// at `now`; off, every row with more than one city becomes one row per
    /// zone of its cities. The rows are then re-sorted by offset at `now`.
    pub fn reorganize_for_merge(&mut self, enable: bool, now: i64)
        requires
            old(self).wf(),
            valid_instant(now as int),
        ensures
            final(self).wf(),
            final(self).merges_by_time() == enable,
            final(self)@ == sort_zones(
                if enable {
                    merge_rows(old(self)@, now as int)
                } else {
                    split_rows(old(self)@)
                },
                now as int,
            ),
    {
        let ghost before = self@;
        let mut rows: Vec<TimeZone> = Vec::new();
        core::mem::swap(&mut rows, &mut self.zones);
        let regrouped = if enable {
            merge_all(rows, now)
        } else {
            split_all(rows)
        };
        proof {
            if enable {
                lemma_merge_unique(before, now as int);
            } else {
                lemma_split_unique(before);
            }
            lemma_sort_unique(zones_view(regrouped@), now as int);
        }
        self.zones = sort_by_offset(regrouped, now);
        self.merge_by_time = enable;
    }

    /// Adds a row: its cities join the first row for its zone if there is
    /// one, else it stands on its own. The rows are then re-sorted. False,
    /// with nothing changed, when the row or one of its cities names an
    /// unknown zone, or when it shares a zone with a row other than the one
    /// it would join.
    pub fn add_zone(&mut self, timezone: TimeZone, now: i64) -> (r: bool)
        requires
            old(self).wf(),
            valid_instant(now as int),
        ensures
            final(self).wf(),
            final(self).merges_by_time() == old(self).merges_by_time(),
            r == (rows_known(seq![timezone@]) && fits_row(old(self)@, timezone@)),
            r ==> final(self)@ == sort_zones(add_row(old(self)@, timezone@), now as int),
            !r ==> final(self)@ == old(self)@,
    {
        if !row_is_known(&timezone) {
            return false;
        }
        let joins = find_holder(&self.zones, &timezone.timezone_id);
        if !row_fits(&self.zones, &timezone, joins) {
            return false;
        }
        proof {
            lemma_add_row_unique(self@, timezone@);
        }
        let mut rows: Vec<TimeZone> = Vec::new();
        core::mem::swap(&mut rows, &mut self.zones);
        let ghost before = zones_view(rows@);
        match find_holder(&rows, &timezone.timezone_id) {
            Some(j) => {
                proof {
                    lemma_absorb_known(before, j as int, timezone@);
                }
                absorb_at(&mut rows, j, timezone);
            },
            None => {
                proof {
                    lemma_push_known(before, timezone@);
                }
                let ghost zv = timezone@;
                rows.push(timezone);
                assert(zones_view(rows@) =~= before.push(zv));
            },
        }
        proof {
            lemma_sort_unique(zones_view(rows@), now as int);
        }
        self.zones = sort_by_offset(rows, now);
        true
    }

    /// Removes the row at `index`, if there is one.
    pub fn remove_zone(&mut self, index: usize) -> (r: Option<TimeZone>)
        requires
            old(self).wf(),
        ensures
            final(self).wf(),
            final(self).merges_by_time() == old(self).merges_by_time(),
            index < old(self)@.len() ==> r is Some && r->0@ == old(self)@[index as int]
                && final(self)@ == old(self)@.remove(index as int),
            index >= old(self)@.len() ==> r is None && final(self)@ == old(self)@,
    {
        if index < self.zones.len() {
            let ghost before = self@;
            let z = self.zones.remove(index);
            proof {
                assert(self@ =~= before.remove(index as int));
                lemma_remove_relabel_unique(before, index as int, None);
                assert forall|i: int| 0 <= i < self@.len() implies known_zone(
                    (#[trigger] self@[i]).id,
                ) && forall|k: int|
                    0 <= k < self@[i].members.len() ==> known_zone(
                        (#[trigger] self@[i].members[k]).timezone,
                    ) by {
                    if i < index {
                        assert(self@[i] == before[i]);
                    } else {
                        assert(self@[i] == before[i + 1]);
                    }
                }
            }
            Some(z)
        } else {
            None
        }
    }

    /// Sets or clears the label of the row at `index`; false if there is no such row.
    pub fn update_zone_label(&mut self, index: usize, custom_label: Option<String>) -> (r: bool)
        requires
            old(self).wf(),
        ensures
            final(self).wf(),
            final(self).merges_by_time() == old(self).merges_by_time(),
            r == (index < old(self)@.len()),
            r ==> final(self)@ == old(self)@.update(
                index as int,
                ZoneView { label: opt_view(custom_label), ..old(self)@[index as int] },
            ),
            !r ==> final(self)@ == old(self)@,
    {
        if index < self.zones.len() {
            let ghost before = self@;
            let mut z = self.zones.remove(index);
            z.custom_label = custom_label;
            self.zones.insert(index, z);
            proof {
                assert(self@ =~= before.update(
                    index as int,
                    ZoneView { label: opt_view(custom_label), ..before[index as int] },
                ));
                lemma_remove_relabel_unique(before, index as int, opt_view(custom_label));
            }
            true
        } else {
            false
        }
    }
}

} // verus!
