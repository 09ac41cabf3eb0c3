//! Display preferences: hour bands, colour themes, and the saved configuration.

use vstd::prelude::*;

use crate::text::{chars_of, lower_of, lowercase, same_chars};

verus! {

/// Clock format used when showing local times.
#[derive(Debug, Clone, Copy, PartialEq, Eq, Structural)]
pub enum TimeFormat {
    TwentyFourHour,
    TwelveHour,
}

/// How a zone row is titled: by its short code or by its full city name.
#[derive(Debug, Clone, Copy, PartialEq, Eq, Structural)]
pub enum TimezoneDisplayMode {
    Short,
    Full,
}

/// Hour bands that shade the timeline.
#[derive(Debug)]
pub struct TimeDisplayConfig {
    pub work_hours_start: u32,
    pub work_hours_end: u32,
    pub awake_hours_start: u32,
    pub awake_hours_end: u32,
}

/// What a local hour is used for: sleeping, being awake, or working.
#[derive(Debug, Clone, Copy, PartialEq, Eq, Structural)]
pub enum TimeActivity {
    Night,
    Awake,
    Work,
}

/// Band an hour of the day falls into; the hour is taken modulo 24.
pub open spec fn activity_of(cfg: TimeDisplayConfig, hour: u32) -> TimeActivity {
    let h = hour % 24;
    if cfg.work_hours_start <= h && h < cfg.work_hours_end {
        TimeActivity::Work
    } else if cfg.awake_hours_start <= h && h < cfg.awake_hours_end {
        TimeActivity::Awake
    } else {
        TimeActivity::Night
    }
}

/// Shade glyph drawn for each activity band.
pub open spec fn activity_glyph(a: TimeActivity) -> char {
    match a {
        TimeActivity::Night => '\u{2591}',
        TimeActivity::Awake => '\u{2592}',
        TimeActivity::Work => '\u{2593}',
    }
}

impl TimeDisplayConfig {
    pub open spec fn default_bands_spec() -> TimeDisplayConfig {
        TimeDisplayConfig {
            work_hours_start: 8,
            work_hours_end: 18,
            awake_hours_start: 6,
            awake_hours_end: 22,
        }
    }

    /// The usual bands: work 8-18, awake 6-22, night otherwise.
    pub fn default_bands() -> (r: TimeDisplayConfig)
        ensures
            r.work_hours_start == 8,
            r.work_hours_end == 18,
            r.awake_hours_start == 6,
            r.awake_hours_end == 22,
    {
        TimeDisplayConfig {
            work_hours_start: 8,
            work_hours_end: 18,
            awake_hours_start: 6,
            awake_hours_end: 22,
        }
    }

    pub fn get_time_activity(&self, hour: u32) -> (r: TimeActivity)
        ensures
            r == activity_of(*self, hour),
    {
        let h = hour % 24;
        if h >= self.work_hours_start && h < self.work_hours_end {
            TimeActivity::Work
        } else if h >= self.awake_hours_start && h < self.awake_hours_end {
            TimeActivity::Awake
        } else {
            TimeActivity::Night
        }
    }

    pub fn get_activity_char(&self, activity: TimeActivity) -> (r: char)
        ensures
            r == activity_glyph(activity),
    {
        match activity {
            TimeActivity::Night => '\u{2591}',
            TimeActivity::Awake => '\u{2592}',
            TimeActivity::Work => '\u{2593}',
        }
    }
}

impl Clone for TimeDisplayConfig {
    fn clone(&self) -> (r: Self)
        ensures
            r == *self,
    {
        TimeDisplayConfig {
            work_hours_start: self.work_hours_start,
            work_hours_end: self.work_hours_end,
            awake_hours_start: self.awake_hours_start,
            awake_hours_end: self.awake_hours_end,
        }
    }
}

impl Default for TimeDisplayConfig {
    fn default() -> (r: Self)
        ensures
            r.work_hours_start == 8,
            r.work_hours_end == 18,
            r.awake_hours_start == 6,
            r.awake_hours_end == 22,
    {
        TimeDisplayConfig::default_bands()
    }
}


/// Colour palettes for the timeline, in the order they are cycled through.
#[derive(Debug, Clone, Copy, PartialEq, Eq, Structural)]
pub enum ColorTheme {
    Default,
    Ocean,
    Forest,
    Sunset,
    Cyberpunk,
    Monochrome,
}

/// Every theme, in cycling order.
pub open spec fn theme_cycle() -> Seq<ColorTheme> {
    seq![
        ColorTheme::Default,
        ColorTheme::Ocean,
        ColorTheme::Forest,
        ColorTheme::Sunset,
        ColorTheme::Cyberpunk,
        ColorTheme::Monochrome,
    ]
}

/// The theme that follows `t` in the cycle, wrapping around at the end.
pub open spec fn theme_after(t: ColorTheme) -> ColorTheme {
    match t {
        ColorTheme::Default => ColorTheme::Ocean,
        ColorTheme::Ocean => ColorTheme::Forest,
        ColorTheme::Forest => ColorTheme::Sunset,
        ColorTheme::Sunset => ColorTheme::Cyberpunk,
        ColorTheme::Cyberpunk => ColorTheme::Monochrome,
        ColorTheme::Monochrome => ColorTheme::Default,
    }
}

impl ColorTheme {
    pub fn all_themes() -> (r: Vec<ColorTheme>)
        ensures
            r@ == theme_cycle(),
    {
        let r = vec![
            ColorTheme::Default,
            ColorTheme::Ocean,
            ColorTheme::Forest,
            ColorTheme::Sunset,
            ColorTheme::Cyberpunk,
            ColorTheme::Monochrome,
        ];
        assert(r@ =~= theme_cycle());
        r
    }

    /// The next theme: the one after this in `all_themes`, the first after the last.
    pub fn next(&self) -> (r: ColorTheme)
        ensures
            r == theme_after(*self),
    {
        let themes = Self::all_themes();
        let mut idx: usize = 0;
        let mut found = false;
        while idx < themes.len() && !found
            invariant
                themes@ == theme_cycle(),
                idx <= themes.len(),
                found ==> idx < themes.len() && themes@[idx as int] == *self,
                !found ==> forall|j: int| 0 <= j < idx ==> themes@[j] != *self,
            decreases themes.len() - idx + (if found { 0int } else { 1int }),
        {
            if themes[idx] == *self {
                found = true;
            } else {
                idx = idx + 1;
            }
        }
        proof {
            let c = theme_cycle();
            assert(c[0] == ColorTheme::Default && c[1] == ColorTheme::Ocean && c[2]
                == ColorTheme::Forest && c[3] == ColorTheme::Sunset && c[4] == ColorTheme::Cyberpunk
                && c[5] == ColorTheme::Monochrome);
            if !found {
                match *self {
                    ColorTheme::Default => assert(c[0] == *self),
                    ColorTheme::Ocean => assert(c[1] == *self),
                    ColorTheme::Forest => assert(c[2] == *self),
                    ColorTheme::Sunset => assert(c[3] == *self),
                    ColorTheme::Cyberpunk => assert(c[4] == *self),
                    ColorTheme::Monochrome => assert(c[5] == *self),
                }
            }
            assert(found);
            assert(idx == 0 || idx == 1 || idx == 2 || idx == 3 || idx == 4 || idx == 5);
        }
        let next_index = (idx + 1) % themes.len();
        themes[next_index]
    }
}

impl Default for ColorTheme {
    fn default() -> (r: Self)
        ensures
            r == ColorTheme::Default,
    {
        ColorTheme::Default
    }
}

/// A saved zone that carries a label of its own.
#[derive(Debug, Clone)]
pub struct ZoneConfig {
    pub city_name: String,
    pub custom_label: Option<String>,
}

/// A saved zone: either a bare city name or a city with an optional label.
#[derive(Debug, Clone)]
pub enum ZoneConfigCompat {
    Simple(String),
    Full(ZoneConfig),
}

impl ZoneConfigCompat {
    pub fn city_name(&self) -> (r: &str)
        ensures
            r@ == match self {
                ZoneConfigCompat::Simple(name) => name@,
                ZoneConfigCompat::Full(c) => c.city_name@,
            },
    {
        match self {
            ZoneConfigCompat::Simple(name) => name.as_str(),
            ZoneConfigCompat::Full(config) => config.city_name.as_str(),
        }
    }

    pub fn custom_label(&self) -> (r: Option<&str>)
        ensures
            match self {
                ZoneConfigCompat::Simple(_) => r is None,
                ZoneConfigCompat::Full(c) => match c.custom_label {
                    Some(l) => r is Some && r->0@ == l@,
                    None => r is None,
                },
            },
    {
        match self {
            ZoneConfigCompat::Simple(_) => None,
            ZoneConfigCompat::Full(config) => match &config.custom_label {
                Some(l) => Some(l.as_str()),
                None => None,
            },
        }
    }
}

/// Preferences that persist between runs.
#[derive(Debug)]
pub struct AppConfig {
    pub zones: Vec<ZoneConfigCompat>,
    pub selected_zone_index: usize,
    pub display_format: TimeFormat,
    pub timezone_display_mode: TimezoneDisplayMode,
    pub time_config: TimeDisplayConfig,
    pub color_theme: ColorTheme,
    pub show_date: bool,
    pub show_sun_times: bool,
}

/// Sunrise and sunset are shown unless a saved configuration says otherwise.
pub fn default_true() -> (r: bool)
    ensures
        r,
{
    true
}

impl Default for AppConfig {
    /// Seven cities across the globe, 24-hour clock, short names, default bands and theme.
    fn default() -> (r: Self)
        ensures
            r.zones@.len() == 7,
            forall|i: int| 0 <= i < 7 ==> r.zones@[i] is Simple,
            r.selected_zone_index == 0,
            r.display_format == TimeFormat::TwentyFourHour,
            r.timezone_display_mode == TimezoneDisplayMode::Short,
            r.time_config == TimeDisplayConfig::default_bands_spec(),
            r.color_theme == ColorTheme::Default,
            !r.show_date,
            r.show_sun_times,
    {
        let zones = vec![
            ZoneConfigCompat::Simple(String::from_str("Los Angeles")),
            ZoneConfigCompat::Simple(String::from_str("New York")),
            ZoneConfigCompat::Simple(String::from_str("UTC")),
            ZoneConfigCompat::Simple(String::from_str("London")),
            ZoneConfigCompat::Simple(String::from_str("Berlin")),
            ZoneConfigCompat::Simple(String::from_str("Tokyo")),
            ZoneConfigCompat::Simple(String::from_str("Sydney")),
        ];
        AppConfig {
            zones,
            selected_zone_index: 0,
            display_format: TimeFormat::TwentyFourHour,
            timezone_display_mode: TimezoneDisplayMode::Short,
            time_config: TimeDisplayConfig::default_bands(),
            color_theme: ColorTheme::Default,
            show_date: false,
            show_sun_times: default_true(),
        }
    }
}


/// The lower-case name a theme is selected by.
pub open spec fn theme_name(t: ColorTheme) -> Seq<char> {
    match t {
        ColorTheme::Default => "default"@,
        ColorTheme::Ocean => "ocean"@,
        ColorTheme::Forest => "forest"@,
        ColorTheme::Sunset => "sunset"@,
        ColorTheme::Cyberpunk => "cyberpunk"@,
        ColorTheme::Monochrome => "monochrome"@,
    }
}

/// The message given for a name that selects no theme.
pub open spec fn unknown_theme_message(s: Seq<char>) -> Seq<char> {
    "unknown theme: "@ + s
}

fn names_theme(folded: &Vec<char>, name: &str) -> (r: bool)
    ensures
        r == (folded@ == name@),
{
    let n = chars_of(name);
    same_chars(folded, &n)
}

/// Reads a theme name, ignoring case.
pub fn parse_theme(s: &str) -> (r: Result<ColorTheme, String>)
    ensures
        match r {
            Ok(t) => lower_of(s@) == theme_name(t),
            Err(e) => e@ == unknown_theme_message(s@) && forall|t: ColorTheme|
                lower_of(s@) != #[trigger] theme_name(t),
        },
{
    let folded = lowercase(s);
    let f = chars_of(folded.as_str());
    if names_theme(&f, "default") {
        Ok(ColorTheme::Default)
    } else if names_theme(&f, "ocean") {
        Ok(ColorTheme::Ocean)
    } else if names_theme(&f, "forest") {
        Ok(ColorTheme::Forest)
    } else if names_theme(&f, "sunset") {
        Ok(ColorTheme::Sunset)
    } else if names_theme(&f, "cyberpunk") {
        Ok(ColorTheme::Cyberpunk)
    } else if names_theme(&f, "monochrome") {
        Ok(ColorTheme::Monochrome)
    } else {
        let mut m = String::from_str("unknown theme: ");
        m.append(s);
        assert forall|t: ColorTheme| lower_of(s@) != #[trigger] theme_name(t) by {
            match t {
                ColorTheme::Default => {},
                ColorTheme::Ocean => {},
                ColorTheme::Forest => {},
                ColorTheme::Sunset => {},
                ColorTheme::Cyberpunk => {},
                ColorTheme::Monochrome => {},
            }
        }
        Err(m)
    }
}

} // verus!
