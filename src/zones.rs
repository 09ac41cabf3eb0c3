//! Timeline rows and the cities on them.

use vstd::prelude::*;

use crate::clock::{
    known_zone, offset_hours_at, utc_offset_hours, valid_instant, zone_is_known,
};

verus! {

/// A city shown on a zone row.
#[derive(Debug, Clone)]
pub struct MemberCity {
    pub name: String,
    pub code: String,
    pub country: String,
    /// IANA identifier of the city's own timezone.
    pub timezone: String,
}

/// A member city as values.
pub struct MemberView {
    pub name: Seq<char>,
    pub code: Seq<char>,
    pub country: Seq<char>,
    pub timezone: Seq<char>,
}

impl View for MemberCity {
    type V = MemberView;

    open spec fn view(&self) -> MemberView {
        MemberView {
            name: self.name@,
            code: self.code@,
            country: self.country@,
            timezone: self.timezone@,
        }
    }
}

/// One timeline row: a timezone, its short code, an optional label chosen by
/// the user, and the cities shown on it in the order they were added.
#[derive(Debug)]
pub struct TimeZone {
    pub timezone_id: String,
    pub display_name: String,
    pub custom_label: Option<String>,
    pub members: Vec<MemberCity>,
}

/// A zone row as values.
pub struct ZoneView {
    pub id: Seq<char>,
    pub code: Seq<char>,
    pub label: Option<Seq<char>>,
    pub members: Seq<MemberView>,
}

/// The view of an optional string.
pub open spec fn opt_view(o: Option<String>) -> Option<Seq<char>> {
    match o {
        Some(s) => Some(s@),
        None => None,
    }
}

impl View for TimeZone {
    type V = ZoneView;

    open spec fn view(&self) -> ZoneView {
        ZoneView {
            id: self.timezone_id@,
            code: self.display_name@,
            label: opt_view(self.custom_label),
            members: self.members@.map_values(|m: MemberCity| m@),
        }
    }
}

/// The rows of a registry as values.
pub open spec fn zones_view(v: Seq<TimeZone>) -> Seq<ZoneView> {
    v.map_values(|z: TimeZone| z@)
}

/// The name a row is titled with in short mode: its label if it has one,
/// else its code.
pub open spec fn effective_name(z: ZoneView) -> Seq<char> {
    match z.label {
        Some(l) => l,
        None => z.code,
    }
}

pub(crate) fn copy_label(l: &Option<String>) -> (r: Option<String>)
    ensures
        opt_view(r) == opt_view(*l),
{
    match l {
        Some(s) => Some(s.clone()),
        None => None,
    }
}

pub(crate) fn copy_members(ms: &Vec<MemberCity>) -> (r: Vec<MemberCity>)
    ensures
        r@.map_values(|m: MemberCity| m@) == ms@.map_values(|m: MemberCity| m@),
{
    let mut out: Vec<MemberCity> = Vec::new();
    let mut i: usize = 0;
    while i < ms.len()
        invariant
            i <= ms@.len(),
            out@.len() == i,
            forall|k: int| 0 <= k < i ==> (#[trigger] out@[k])@ == ms@[k]@,
        decreases ms@.len() - i,
    {
        let m = MemberCity {
            name: ms[i].name.clone(),
            code: ms[i].code.clone(),
            country: ms[i].country.clone(),
            timezone: ms[i].timezone.clone(),
        };
        out.push(m);
        i = i + 1;
    }
    assert(out@.map_values(|m: MemberCity| m@) =~= ms@.map_values(|m: MemberCity| m@));
    out
}

impl TimeZone {
    /// A row for a zone, titled by `display_name`, with no label and no cities yet.
    pub fn new(timezone_id: String, display_name: String) -> (r: TimeZone)
        ensures
            r@ == (ZoneView {
                id: timezone_id@,
                code: display_name@,
                label: None,
                members: seq![],
            }),
    {
        let r = TimeZone { timezone_id, display_name, custom_label: None, members: Vec::new() };
        assert(r@.members =~= Seq::<MemberView>::empty());
        r
    }

    /// A row with a label of the user's choosing.
    pub fn with_custom_label(
        timezone_id: String,
        display_name: String,
        custom_label: Option<String>,
    ) -> (r: TimeZone)
        ensures
            r@ == (ZoneView {
                id: timezone_id@,
                code: display_name@,
                label: opt_view(custom_label),
                members: seq![],
            }),
    {
        let r = TimeZone { timezone_id, display_name, custom_label, members: Vec::new() };
        assert(r@.members =~= Seq::<MemberView>::empty());
        r
    }

    /// A row for the city it was picked from.
    pub fn with_source_city(
        timezone_id: String,
        display_name: String,
        custom_label: Option<String>,
        source_city: Option<MemberCity>,
    ) -> (r: TimeZone)
        ensures
            r@.id == timezone_id@,
            r@.code == display_name@,
            r@.label == opt_view(custom_label),
            r@.members == match source_city {
                Some(m) => seq![m@],
                None => Seq::<MemberView>::empty(),
            },
    {
        let mut members: Vec<MemberCity> = Vec::new();
        match source_city {
            Some(m) => members.push(m),
            None => {},
        }
        let r = TimeZone { timezone_id, display_name, custom_label, members };
        assert(r@.members =~= match source_city {
            Some(m) => seq![m@],
            None => Seq::<MemberView>::empty(),
        });
        r
    }

    /// A copy of the row.
    pub fn duplicate(&self) -> (r: TimeZone)
        ensures
            r@ == self@,
    {
        TimeZone {
            timezone_id: self.timezone_id.clone(),
            display_name: self.display_name.clone(),
            custom_label: copy_label(&self.custom_label),
            members: copy_members(&self.members),
        }
    }

    /// The label if there is one, else the short code.
    pub fn effective_display_name(&self) -> (r: &str)
        ensures
            r@ == effective_name(self@),
    {
        match &self.custom_label {
            Some(l) => l.as_str(),
            None => self.display_name.as_str(),
        }
    }

    /// The city the row was first created for.
    pub fn source_city(&self) -> (r: Option<&str>)
        ensures
            match r {
                Some(n) => self@.members.len() > 0 && n@ == self@.members[0].name,
                None => self@.members.len() == 0,
            },
    {
        if self.members.len() > 0 {
            Some(self.members[0].name.as_str())
        } else {
            None
        }
    }

    /// The row's offset from UTC at `now`, in whole hours toward zero;
    /// `None` when its zone is unknown.
    pub fn utc_offset_hours(&self, now: i64) -> (r: Option<i32>)
        requires
            valid_instant(now as int),
        ensures
            r is Some <==> known_zone(self@.id),
            r is Some ==> r->0 as int == offset_hours_at(self@.id, now as int),
    {
        if !zone_is_known(self.timezone_id.as_str()) {
            return None;
        }
        Some(utc_offset_hours(self.timezone_id.as_str(), now))
    }
}

} // verus!
