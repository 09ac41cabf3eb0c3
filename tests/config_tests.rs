use alltz::text::{int_text, nat_text};
use alltz::config::{
    default_true, parse_theme, AppConfig, ColorTheme, TimeActivity, TimeDisplayConfig, TimeFormat,
    TimezoneDisplayMode, ZoneConfig, ZoneConfigCompat,
};

#[test]
fn test_default_time_periods() {
    let config = TimeDisplayConfig::default();

    assert_eq!(config.get_time_activity(9), TimeActivity::Work);
    assert_eq!(config.get_time_activity(14), TimeActivity::Work);
    assert_eq!(config.get_time_activity(17), TimeActivity::Work);

    assert_eq!(config.get_time_activity(7), TimeActivity::Awake);
    assert_eq!(config.get_time_activity(19), TimeActivity::Awake);
    assert_eq!(config.get_time_activity(21), TimeActivity::Awake);

    assert_eq!(config.get_time_activity(23), TimeActivity::Night);
    assert_eq!(config.get_time_activity(2), TimeActivity::Night);
    assert_eq!(config.get_time_activity(5), TimeActivity::Night);
}

#[test]
fn test_activity_characters() {
    let config = TimeDisplayConfig::default();

    assert_eq!(config.get_activity_char(TimeActivity::Night), '░');
    assert_eq!(config.get_activity_char(TimeActivity::Awake), '▒');
    assert_eq!(config.get_activity_char(TimeActivity::Work), '▓');
}

#[test]
fn test_boundary_conditions() {
    let config = TimeDisplayConfig::default();

    assert_eq!(config.get_time_activity(7), TimeActivity::Awake);
    assert_eq!(config.get_time_activity(8), TimeActivity::Work);

    assert_eq!(config.get_time_activity(17), TimeActivity::Work);
    assert_eq!(config.get_time_activity(18), TimeActivity::Awake);

    assert_eq!(config.get_time_activity(21), TimeActivity::Awake);
    assert_eq!(config.get_time_activity(22), TimeActivity::Night);
}

#[test]
fn test_app_config_default() {
    let config = AppConfig::default();
    assert!(!config.zones.is_empty());
    assert_eq!(config.display_format, TimeFormat::TwentyFourHour);
    assert_eq!(config.timezone_display_mode, TimezoneDisplayMode::Short);
}

#[test]
fn hour_wraps_around_the_day() {
    let config = TimeDisplayConfig::default();
    assert_eq!(config.get_time_activity(24 + 9), TimeActivity::Work);
    assert_eq!(config.get_time_activity(48 + 23), TimeActivity::Night);
}

#[test]
fn default_config_lists_seven_cities() {
    let config = AppConfig::default();
    let names: Vec<&str> = config.zones.iter().map(|z| z.city_name()).collect();
    assert_eq!(
        names,
        vec!["Los Angeles", "New York", "UTC", "London", "Berlin", "Tokyo", "Sydney"]
    );
    assert!(config.show_sun_times);
    assert!(!config.show_date);
    assert_eq!(config.selected_zone_index, 0);
    assert_eq!(config.color_theme, ColorTheme::Default);
    assert!(default_true());
}

#[test]
fn zone_config_reports_name_and_label() {
    let simple = ZoneConfigCompat::Simple("Tokyo".to_string());
    assert_eq!(simple.city_name(), "Tokyo");
    assert_eq!(simple.custom_label(), None);

    let full = ZoneConfigCompat::Full(ZoneConfig {
        city_name: "London".to_string(),
        custom_label: Some("Bob (Sales)".to_string()),
    });
    assert_eq!(full.city_name(), "London");
    assert_eq!(full.custom_label(), Some("Bob (Sales)"));

    let unlabelled = ZoneConfigCompat::Full(ZoneConfig {
        city_name: "Paris".to_string(),
        custom_label: None,
    });
    assert_eq!(unlabelled.custom_label(), None);
}

#[test]
fn themes_cycle_through_all_six() {
    let all = ColorTheme::all_themes();
    assert_eq!(all.len(), 6);
    let mut t = ColorTheme::Default;
    for i in 0..6 {
        assert_eq!(t, all[i]);
        t = t.next();
    }
    assert_eq!(t, ColorTheme::Default);
    assert_eq!(ColorTheme::Monochrome.next(), ColorTheme::Default);
    assert_eq!(ColorTheme::Ocean.next(), ColorTheme::Forest);
}

#[test]
fn theme_names_parse_ignoring_case() {
    assert_eq!(parse_theme("ocean"), Ok(ColorTheme::Ocean));
    assert_eq!(parse_theme("CyberPunk"), Ok(ColorTheme::Cyberpunk));
    assert_eq!(parse_theme("MONOCHROME"), Ok(ColorTheme::Monochrome));
    assert_eq!(parse_theme("default"), Ok(ColorTheme::Default));
}

#[test]
fn unknown_theme_name_is_rejected() {
    assert_eq!(parse_theme("neon"), Err("unknown theme: neon".to_string()));
    assert_eq!(parse_theme(""), Err("unknown theme: ".to_string()));
}

#[test]
fn integers_in_decimal() {
    assert_eq!(int_text(0), "0");
    assert_eq!(int_text(9), "9");
    assert_eq!(int_text(-8), "-8");
    assert_eq!(int_text(i32::MIN), "-2147483648");
    assert_eq!(nat_text(1200), "1200");
    assert_eq!(nat_text(u64::MAX), "18446744073709551615");
}

#[test]
fn test_cycle_color_theme() {
    let initial_theme = ColorTheme::default();
    let mut theme = initial_theme.next();
    assert_ne!(theme, initial_theme);
    for _ in 0..4 {
        theme = theme.next();
    }
    theme = theme.next();
    assert_eq!(theme, initial_theme);
}
