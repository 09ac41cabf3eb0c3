//! How rows are named and titled, and where their cities are.

use vstd::prelude::*;

use crate::catalog::{CitiesData, CityData};
use crate::clock::{
    abbreviation_at, known_zone, offset_hours_at, utc_offset_hours, valid_instant,
    zone_abbreviation, zone_is_known,
};
use crate::config::TimezoneDisplayMode;
use crate::order::{first_index, lemma_first_index};
use crate::text::{chars_of, decimal, digits, int_text, nat_text, upper_of, uppercase};
use crate::zones::{TimeZone, ZoneView};

verus! {

/// " +N" after a row's name when it shows N more cities than its first.
pub open spec fn extra_cities(z: ZoneView) -> Seq<char> {
    if z.members.len() > 1 {
        " +"@ + digits((z.members.len() - 1) as nat)
    } else {
        seq![]
    }
}

/// A row's title: in short mode its label or code, in full mode its label
/// with its city in parentheses, or its city alone; then any extra cities
/// and the offset.
pub open spec fn title_text(
    z: ZoneView,
    mode: TimezoneDisplayMode,
    cities: Seq<CityData>,
    hours: int,
) -> Seq<char> {
    let tail = extra_cities(z) + " "@ + offset_label(hours);
    match mode {
        TimezoneDisplayMode::Short => crate::zones::effective_name(z) + tail,
        TimezoneDisplayMode::Full => match z.label {
            Some(l) => l + " ("@ + city_name_of(z, cities) + tail + ")"@,
            None => city_name_of(z, cities) + tail,
        },
    }
}

/// A zone identifier's last '/'-separated part with '_' read as a space:
/// "America/New_York" gives "New York".
pub open spec fn place_name(id: Seq<char>) -> Seq<char> {
    id.subrange(last_slash(id) + 1, id.len() as int).map_values(
        |c: char|
            if c == '_' {
                ' '
            } else {
                c
            },
    )
}

/// The long form of a row's name: place, abbreviation and offset.
pub open spec fn full_display_text(id: Seq<char>, abbreviation: Seq<char>, hours: int) -> Seq<
    char,
> {
    place_name(id) + " "@ + abbreviation + " "@ + offset_label(hours)
}

/// How an offset in whole hours is written: "UTC+9", "UTC+0", "UTC-8".
pub open spec fn offset_label(hours: int) -> Seq<char> {
    if hours >= 0 {
        "UTC+"@ + decimal(hours)
    } else {
        "UTC"@ + decimal(hours)
    }
}

/// Catalog cities whose short code is `code`.
pub open spec fn has_code(code: Seq<char>) -> spec_fn(CityData) -> bool {
    |c: CityData| c.code@ == code
}

/// Catalog cities named exactly `name`.
pub open spec fn has_name(name: Seq<char>) -> spec_fn(CityData) -> bool {
    |c: CityData| c.name@ == name
}

/// Catalog cities in zone `id`.
pub open spec fn in_zone(id: Seq<char>) -> spec_fn(CityData) -> bool {
    |c: CityData| c.timezone@ == id
}

/// The city a row stands for: its first city, else the catalog city with
/// its code, else its code itself.
pub open spec fn city_name_of(z: ZoneView, cities: Seq<CityData>) -> Seq<char> {
    let i = first_index(cities, has_code(z.code));
    if z.members.len() > 0 {
        z.members[0].name
    } else if i >= 0 {
        cities[i].name@
    } else {
        z.code
    }
}

/// Where a row's city lies, in millionths of a degree: the catalog city named
/// like its first city, else the one with its code.
pub open spec fn coordinates_of(z: ZoneView, cities: Seq<CityData>) -> Option<(i32, i32)> {
    let by_name = if z.members.len() > 0 {
        first_index(cities, has_name(z.members[0].name))
    } else {
        -1
    };
    let by_code = first_index(cities, has_code(z.code));
    if by_name >= 0 {
        Some((cities[by_name].latitude_micro, cities[by_name].longitude_micro))
    } else if by_code >= 0 {
        Some((cities[by_code].latitude_micro, cities[by_code].longitude_micro))
    } else {
        None
    }
}

/// Index of the last '/' in `s`, or -1.
pub open spec fn last_slash(s: Seq<char>) -> int
    decreases s.len(),
{
    if s.len() == 0 {
        -1
    } else if s.last() == '/' {
        s.len() - 1
    } else {
        last_slash(s.drop_last())
    }
}

/// A code made from a zone identifier: the first three characters of its
/// last '/'-separated part, upper-cased.
pub open spec fn fallback_code(id: Seq<char>) -> Seq<char> {
    let part = id.subrange(last_slash(id) + 1, id.len() as int);
    upper_of(
        if part.len() > 3 {
            part.take(3)
        } else {
            part
        },
    )
}

/// The code a zone gets: that of the first catalog city in it, else one made from its identifier.
pub open spec fn zone_code(id: Seq<char>, cities: Seq<CityData>) -> Seq<char> {
    let i = first_index(cities, in_zone(id));
    if i >= 0 {
        cities[i].code@
    } else {
        fallback_code(id)
    }
}

/// The first catalog city satisfying a string test on one of its fields.
pub(crate) fn find_by(cities: &Vec<CityData>, want: &String, field: u8) -> (r: Option<usize>)
    requires
        field < 3,
    ensures
        ({
            let p = if field == 0 {
                has_code(want@)
            } else if field == 1 {
                has_name(want@)
            } else {
                in_zone(want@)
            };
            match r {
                Some(i) => first_index(cities@, p) == i && i < cities@.len(),
                None => first_index(cities@, p) == -1,
            }
        }),
{
    let ghost p = if field == 0 {
        has_code(want@)
    } else if field == 1 {
        has_name(want@)
    } else {
        in_zone(want@)
    };
    let mut i: usize = 0;
    while i < cities.len()
        invariant
            i <= cities@.len(),
            field < 3,
            p == (if field == 0 {
                has_code(want@)
            } else if field == 1 {
                has_name(want@)
            } else {
                in_zone(want@)
            }),
            forall|j: int| 0 <= j < i ==> !p(#[trigger] cities@[j]),
        decreases cities@.len() - i,
    {
        let c = &cities[i];
        let hit = if field == 0 {
            c.code == *want
        } else if field == 1 {
            c.name == *want
        } else {
            c.timezone == *want
        };
        if hit {
            proof {
                lemma_first_index(cities@, p, i as int);
            }
            return Some(i);
        }
        i = i + 1;
    }
    proof {
        lemma_first_index(cities@, p, i as int);
    }
    None
}

/// Index of the last '/' in `s`.
fn find_last_slash(s: &Vec<char>) -> (r: Option<usize>)
    ensures
        match r {
            Some(i) => last_slash(s@) == i && i < s@.len(),
            None => last_slash(s@) == -1,
        },
{
    let mut n: usize = s.len();
    assert(s@.take(n as int) =~= s@);
    while n > 0
        invariant
            n <= s@.len(),
            last_slash(s@) == last_slash(s@.take(n as int)),
        decreases n,
    {
        if s[n - 1] == '/' {
            assert(s@.take(n as int).last() == '/');
            return Some(n - 1);
        }
        assert(s@.take(n as int).drop_last() =~= s@.take(n - 1));
        n = n - 1;
    }
    None
}

/// The country of the first catalog city named exactly `city`, else "Unknown".
pub fn get_country_for_city(catalog: &CitiesData, city: &String) -> (r: String)
    ensures
        ({
            let i = first_index(catalog.cities@, has_name(city@));
            r@ == if i >= 0 {
                catalog.cities@[i].country@
            } else {
                "Unknown"@
            }
        }),
{
    match find_by(&catalog.cities, city, 1) {
        Some(i) => catalog.cities[i].country.clone(),
        None => String::from_str("Unknown"),
    }
}

impl TimeZone {
    /// A row for zone `id`, coded after the first catalog city in it.
    pub fn from_tz(catalog: &CitiesData, id: &String) -> (r: TimeZone)
        ensures
            r@ == (ZoneView {
                id: id@,
                code: zone_code(id@, catalog.cities@),
                label: None,
                members: seq![],
            }),
    {
        let code = match find_by(&catalog.cities, id, 2) {
            Some(i) => catalog.cities[i].code.clone(),
            None => {
                let chars = chars_of(id.as_str());
                let n = chars.len();
                let start = match find_last_slash(&chars) {
                    Some(i) => i + 1,
                    None => 0,
                };
                let end = if n - start > 3 {
                    start + 3
                } else {
                    n
                };
                let part = id.as_str().substring_char(start, end);
                proof {
                    let whole = id@.subrange(last_slash(id@) + 1, id@.len() as int);
                    assert(whole =~= id@.subrange(start as int, n as int));
                    if whole.len() > 3 {
                        assert(whole.take(3) =~= part@);
                    } else {
                        assert(whole =~= part@);
                    }
                }
                uppercase(part)
            },
        };
        TimeZone::new(id.clone(), code)
    }

    /// The city this row stands for.
    pub fn get_city_name(&self, catalog: &CitiesData) -> (r: String)
        ensures
            r@ == city_name_of(self@, catalog.cities@),
    {
        if self.members.len() > 0 {
            return self.members[0].name.clone();
        }
        match find_by(&catalog.cities, &self.display_name, 0) {
            Some(i) => catalog.cities[i].name.clone(),
            None => self.display_name.clone(),
        }
    }

    /// Where the row's city lies, if the catalog knows it.
    pub fn get_coordinates(&self, catalog: &CitiesData) -> (r: Option<(i32, i32)>)
        ensures
            r == coordinates_of(self@, catalog.cities@),
    {
        if self.members.len() > 0 {
            match find_by(&catalog.cities, &self.members[0].name, 1) {
                Some(i) => {
                    return Some(
                        (catalog.cities[i].latitude_micro, catalog.cities[i].longitude_micro),
                    );
                },
                None => {},
            }
        }
        match find_by(&catalog.cities, &self.display_name, 0) {
            Some(i) => Some((catalog.cities[i].latitude_micro, catalog.cities[i].longitude_micro)),
            None => None,
        }
    }


    /// The row's title for `mode` at `now`; `None` when its zone is unknown.
    pub fn title(&self, mode: TimezoneDisplayMode, catalog: &CitiesData, now: i64) -> (r: Option<
        String,
    >)
        requires
            valid_instant(now as int),
        ensures
            r is Some <==> known_zone(self@.id),
            r is Some ==> r->0@ == title_text(
                self@,
                mode,
                catalog.cities@,
                offset_hours_at(self@.id, now as int),
            ),
    {
        let offset = match self.offset_string(now) {
            Some(o) => o,
            None => {
                return None;
            },
        };
        let mut tail = String::new();
        if self.members.len() > 1 {
            tail.append(" +");
            let more = nat_text((self.members.len() - 1) as u64);
            tail.append(more.as_str());
        }
        assert(tail@ =~= extra_cities(self@));
        tail.append(" ");
        tail.append(offset.as_str());
        match mode {
            TimezoneDisplayMode::Short => {
                let mut t = String::from_str(self.effective_display_name());
                t.append(tail.as_str());
                Some(t)
            },
            TimezoneDisplayMode::Full => {
                let city = self.get_city_name(catalog);
                match &self.custom_label {
                    Some(label) => {
                        let mut t = label.clone();
                        t.append(" (");
                        t.append(city.as_str());
                        t.append(tail.as_str());
                        t.append(")");
                        assert(t@ =~= label@ + " ("@ + city@ + tail@ + ")"@);
                        Some(t)
                    },
                    None => {
                        let mut t = city;
                        t.append(tail.as_str());
                        Some(t)
                    },
                }
            },
        }
    }


    /// The zone's abbreviation at `now`, such as "EST"; `None` when its zone is unknown.
    pub fn get_timezone_abbreviation(&self, now: i64) -> (r: Option<String>)
        requires
            valid_instant(now as int),
        ensures
            r is Some <==> known_zone(self@.id),
            r is Some ==> r->0@ == zone_abbreviation(self@.id, now as int),
    {
        if !zone_is_known(self.timezone_id.as_str()) {
            return None;
        }
        Some(abbreviation_at(self.timezone_id.as_str(), now))
    }

    /// "New York EST UTC-5": the place named by the zone, its abbreviation
    /// and its offset at `now`; `None` when its zone is unknown.
    pub fn get_full_display_name(&self, now: i64) -> (r: Option<String>)
        requires
            valid_instant(now as int),
        ensures
            r is Some <==> known_zone(self@.id),
            r is Some ==> r->0@ == full_display_text(
                self@.id,
                zone_abbreviation(self@.id, now as int),
                offset_hours_at(self@.id, now as int),
            ),
    {
        let abbreviation = match self.get_timezone_abbreviation(now) {
            Some(a) => a,
            None => {
                return None;
            },
        };
        let offset = match self.offset_string(now) {
            Some(o) => o,
            None => {
                return None;
            },
        };
        let id = self.timezone_id.as_str();
        let chars = chars_of(id);
        let n = chars.len();
        let start = match find_last_slash(&chars) {
            Some(i) => i + 1,
            None => 0,
        };
        let ghost part = id@.subrange(start as int, n as int);
        let mut text = String::new();
        let mut k: usize = start;
        proof {
            reveal_strlit(" ");
        }
        while k < n
            invariant
                start <= k <= n,
                n == id@.len(),
                chars@ == id@,
                part == id@.subrange(start as int, n as int),
                " "@ == seq![' '],
                text@ == part.take(k - start).map_values(
                    |c: char|
                        if c == '_' {
                            ' '
                        } else {
                            c
                        },
                ),
            decreases n - k,
        {
            let c = chars[k];
            if c == '_' {
                text.append(" ");
            } else {
                let piece = id.substring_char(k, k + 1);
                assert(piece@ =~= seq![c]);
                text.append(piece);
            }
            proof {
                assert(part.take(k + 1 - start) =~= part.take(k - start).push(c));
            }
            k = k + 1;
        }
        assert(part.take(n - start) =~= part);
        text.append(" ");
        text.append(abbreviation.as_str());
        text.append(" ");
        text.append(offset.as_str());
        Some(text)
    }

    /// The row's offset at `now` as text: "UTC+9", "UTC+0", "UTC-8"; `None`
    /// when its zone is unknown.
    pub fn offset_string(&self, now: i64) -> (r: Option<String>)
        requires
            valid_instant(now as int),
        ensures
            r is Some <==> known_zone(self@.id),
            r is Some ==> r->0@ == offset_label(offset_hours_at(self@.id, now as int)),
    {
        if !zone_is_known(self.timezone_id.as_str()) {
            return None;
        }
        let h = utc_offset_hours(self.timezone_id.as_str(), now);
        let digits = int_text(h);
        let mut text = if h >= 0 {
            String::from_str("UTC+")
        } else {
            String::from_str("UTC")
        };
        text.append(digits.as_str());
        Some(text)
    }
}

} // verus!
