use alltz::catalog::{CitiesData, CityData};
use alltz::config::{TimezoneDisplayMode, ZoneConfig, ZoneConfigCompat};
use alltz::naming::get_country_for_city;
use alltz::registry::TimeZoneManager;
use alltz::zones::{MemberCity, TimeZone};

const JAN_15_2024_NOON_UTC: i64 = 1_705_320_000;

fn city(name: &str, code: &str, tz: &str, country: &str, lat: i32, lon: i32) -> CityData {
    CityData {
        name: name.to_string(),
        code: code.to_string(),
        timezone: tz.to_string(),
        country: country.to_string(),
        latitude_micro: lat,
        longitude_micro: lon,
        aliases: Vec::new(),
    }
}

fn catalog() -> CitiesData {
    CitiesData {
        cities: vec![
            city("Los Angeles", "LAX", "America/Los_Angeles", "USA", 34_052_200, -118_243_700),
            city("New York", "NYC", "America/New_York", "USA", 40_712_800, -74_006_000),
            city("UTC", "UTC", "UTC", "World", 0, 0),
            city("London", "LON", "Europe/London", "UK", 51_507_400, -127_800),
            city("London", "YXU", "Canada/Eastern", "Canada", 42_984_900, -81_245_300),
            city("Manchester", "MAN", "Europe/London", "UK", 53_480_800, -2_242_600),
            city("Berlin", "BER", "Europe/Berlin", "Germany", 52_520_000, 13_405_000),
            city("Paris", "PAR", "Europe/Paris", "France", 48_856_600, 2_352_200),
            city("Tokyo", "TYO", "Asia/Tokyo", "Japan", 35_676_200, 139_650_300),
            city("Sydney", "SYD", "Australia/Sydney", "Australia", -33_868_800, 151_209_300),
            city("Atlantis", "ATL", "Atlantis/Nowhere", "Sea", 0, 0),
        ],
        major_cities: vec!["London".to_string(), "Tokyo".to_string()],
    }
}

fn now() -> i64 {
    chrono::Utc::now().timestamp()
}

fn names_of(z: &TimeZone) -> Vec<String> {
    z.members.iter().map(|m| m.name.clone()).collect()
}

#[test]
fn test_timezone_creation() {
    let tz = TimeZone::from_tz(&catalog(), &"UTC".to_string());
    assert_eq!(tz.timezone_id, "UTC");
    assert_eq!(tz.display_name, "UTC");
    assert_eq!(tz.utc_offset_hours(now()), Some(0));
}

#[test]
fn test_offset_string() {
    let utc = TimeZone::from_tz(&catalog(), &"UTC".to_string());
    assert_eq!(utc.offset_string(now()).as_deref(), Some("UTC+0"));

    let tokyo = TimeZone::from_tz(&catalog(), &"Asia/Tokyo".to_string());
    assert_eq!(tokyo.offset_string(now()).as_deref(), Some("UTC+9"));

    let la = TimeZone::from_tz(&catalog(), &"US/Pacific".to_string());
    let offset = la.offset_string(now()).unwrap();
    assert!(
        offset == "UTC-8" || offset == "UTC-7",
        "Expected UTC-8 or UTC-7, got {offset}"
    );
}

#[test]
fn test_timezone_manager_default() {
    let t = now();
    let manager = TimeZoneManager::with_default_zones(&catalog(), t);
    assert!(manager.zone_count() > 0);

    let zones = manager.zones();
    for i in 1..zones.len() {
        assert!(zones[i - 1].utc_offset_hours(t).unwrap() <= zones[i].utc_offset_hours(t).unwrap());
    }
}

#[test]
fn test_add_remove_zones() {
    let mut manager = TimeZoneManager::new();
    assert_eq!(manager.zone_count(), 0);

    let utc_zone = TimeZone::from_tz(&catalog(), &"UTC".to_string());
    assert!(manager.add_zone(utc_zone, now()));
    assert_eq!(manager.zone_count(), 1);

    let removed = manager.remove_zone(0);
    assert!(removed.is_some());
    assert_eq!(manager.zone_count(), 0);
}

#[test]
fn test_custom_label() {
    let timezone = TimeZone::with_custom_label(
        "Asia/Tokyo".to_string(),
        "TYO".to_string(),
        Some("Alice (Engineering)".to_string()),
    );

    assert_eq!(timezone.display_name, "TYO");
    assert_eq!(timezone.custom_label.as_deref(), Some("Alice (Engineering)"));
    assert_eq!(timezone.effective_display_name(), "Alice (Engineering)");
}

#[test]
fn test_custom_label_none() {
    let timezone = TimeZone::with_custom_label("Asia/Tokyo".to_string(), "TYO".to_string(), None);

    assert_eq!(timezone.display_name, "TYO");
    assert_eq!(timezone.custom_label, None);
    assert_eq!(timezone.effective_display_name(), "TYO");
}

#[test]
fn test_timezone_manager_update_label() {
    let mut manager = TimeZoneManager::new();
    manager.add_timezone_by_name(&catalog(), "Tokyo", now());

    assert_eq!(manager.zones()[0].custom_label, None);

    manager.update_zone_label(0, Some("Team Lead".to_string()));
    assert_eq!(manager.zones()[0].custom_label.as_deref(), Some("Team Lead"));

    manager.update_zone_label(0, None);
    assert_eq!(manager.zones()[0].custom_label, None);
}

#[test]
fn test_add_timezone_with_label() {
    let mut manager = TimeZoneManager::new();

    manager.add_timezone_with_label(&catalog(), "New York", Some("NYC Office".to_string()), now());

    assert_eq!(manager.zone_count(), 1);
    assert_eq!(manager.zones()[0].custom_label.as_deref(), Some("NYC Office"));
}

#[test]
fn test_add_both_london_cities() {
    let mut manager = TimeZoneManager::new();
    let cat = catalog();

    let uk_added = manager.add_timezone_by_name(&cat, "London, UK", now());
    let canada_added = manager.add_timezone_by_name(&cat, "London, Canada", now());

    assert!(uk_added, "Should successfully add London, UK");
    assert!(canada_added, "Should successfully add London, Canada");
    assert_eq!(manager.zone_count(), 2, "Should have 2 zones after adding both Londons");

    let zones = manager.zones();
    let uk_zone = zones
        .iter()
        .find(|z| z.source_city() == Some("London") && z.timezone_id.contains("Europe"));
    let canada_zone = zones
        .iter()
        .find(|z| z.source_city() == Some("London") && z.timezone_id.contains("Canada"));

    assert!(uk_zone.is_some(), "Should find London, UK zone");
    assert!(canada_zone.is_some(), "Should find London, Canada zone");
}

#[test]
fn test_custom_label_display_short_mode() {
    let tz = TimeZone::with_custom_label(
        "Asia/Tokyo".to_string(),
        "TYO".to_string(),
        Some("Alice (Engineering)".to_string()),
    );
    assert_eq!(tz.effective_display_name(), "Alice (Engineering)");
}

#[test]
fn test_custom_label_display_full_mode() {
    let tz = TimeZone::with_custom_label(
        "Asia/Tokyo".to_string(),
        "TYO".to_string(),
        Some("Bob (Sales)".to_string()),
    );
    assert_eq!(tz.custom_label.as_deref(), Some("Bob (Sales)"));
    assert!(!tz.get_full_display_name(now()).unwrap().is_empty());
}

#[test]
fn test_no_custom_label_display() {
    let tz = TimeZone::from_tz(&catalog(), &"Asia/Tokyo".to_string());
    assert_eq!(tz.custom_label, None);
    assert_eq!(tz.effective_display_name(), &tz.display_name);
}

#[test]
fn same_zone_cities_share_one_row() {
    for merge in [false, true] {
        let mut manager = TimeZoneManager::new();
        manager.reorganize_for_merge(merge, JAN_15_2024_NOON_UTC);
        assert!(manager.add_timezone_by_name(&catalog(), "London", JAN_15_2024_NOON_UTC));
        assert!(manager.add_timezone_by_name(&catalog(), "Manchester", JAN_15_2024_NOON_UTC));
        assert_eq!(manager.zone_count(), 1);
        assert_eq!(names_of(&manager.zones()[0]), vec!["London", "Manchester"]);
        assert_eq!(manager.zones()[0].timezone_id, "Europe/London");
    }
}

#[test]
fn merge_then_split_restores_rows() {
    let t = JAN_15_2024_NOON_UTC;
    let mut manager = TimeZoneManager::new();
    for name in ["Berlin", "Paris", "Tokyo", "UTC"] {
        assert!(manager.add_timezone_by_name(&catalog(), name, t));
    }
    assert_eq!(manager.zone_count(), 4);

    manager.reorganize_for_merge(true, t);
    assert!(manager.merge_by_time());
    assert_eq!(manager.zone_count(), 3);
    let ids: Vec<&str> = manager.zones().iter().map(|z| z.timezone_id.as_str()).collect();
    assert_eq!(ids, vec!["UTC", "Europe/Berlin", "Asia/Tokyo"]);
    assert_eq!(names_of(&manager.zones()[1]), vec!["Berlin", "Paris"]);

    manager.reorganize_for_merge(false, t);
    assert!(!manager.merge_by_time());
    assert_eq!(manager.zone_count(), 4);
    let ids: Vec<&str> = manager.zones().iter().map(|z| z.timezone_id.as_str()).collect();
    assert_eq!(ids, vec!["UTC", "Europe/Berlin", "Europe/Paris", "Asia/Tokyo"]);
}

#[test]
fn merging_by_time_joins_on_add() {
    let t = JAN_15_2024_NOON_UTC;
    let mut manager = TimeZoneManager::new();
    manager.reorganize_for_merge(true, t);
    assert!(manager.add_timezone_by_name(&catalog(), "Berlin", t));
    assert!(manager.add_timezone_by_name(&catalog(), "Paris", t));
    assert_eq!(manager.zone_count(), 1);
    assert_eq!(names_of(&manager.zones()[0]), vec!["Berlin", "Paris"]);
}

#[test]
fn utc_comes_before_tokyo() {
    let t = now();
    let mut manager = TimeZoneManager::new();
    assert!(manager.add_timezone_by_name(&catalog(), "Tokyo", t));
    assert!(manager.add_timezone_by_name(&catalog(), "UTC", t));
    assert_eq!(manager.zones()[0].timezone_id, "UTC");
    assert_eq!(manager.zones()[1].timezone_id, "Asia/Tokyo");
}

#[test]
fn rows_with_equal_offsets_keep_their_order() {
    let t = JAN_15_2024_NOON_UTC;
    let mut manager = TimeZoneManager::new();
    assert!(manager.add_timezone_by_name(&catalog(), "Paris", t));
    assert!(manager.add_timezone_by_name(&catalog(), "Berlin", t));
    let ids: Vec<&str> = manager.zones().iter().map(|z| z.timezone_id.as_str()).collect();
    assert_eq!(ids, vec!["Europe/Paris", "Europe/Berlin"]);
}

#[test]
fn unknown_city_is_not_added() {
    let mut manager = TimeZoneManager::new();
    assert!(!manager.add_timezone_by_name(&catalog(), "Gotham", now()));
    assert!(!manager.add_timezone_by_name(&catalog(), "Atlantis", now()));
    assert!(!manager.add_timezone_by_name(&catalog(), "London, France", now()));
    assert_eq!(manager.zone_count(), 0);
}

#[test]
fn city_lookup_ignores_case() {
    let mut manager = TimeZoneManager::new();
    assert!(manager.add_timezone_by_name(&catalog(), "london, canada", now()));
    assert_eq!(manager.zones()[0].timezone_id, "Canada/Eastern");
    assert_eq!(manager.zones()[0].display_name, "YXU");
}

#[test]
fn removing_past_the_end_changes_nothing() {
    let mut manager = TimeZoneManager::new();
    assert!(manager.add_timezone_by_name(&catalog(), "Tokyo", now()));
    assert!(manager.remove_zone(1).is_none());
    assert_eq!(manager.zone_count(), 1);
    assert!(!manager.update_zone_label(3, Some("x".to_string())));
}

#[test]
fn offsets_in_winter() {
    let t = JAN_15_2024_NOON_UTC;
    let ny = TimeZone::from_tz(&catalog(), &"America/New_York".to_string());
    assert_eq!(ny.display_name, "NYC");
    assert_eq!(ny.utc_offset_hours(t), Some(-5));
    assert_eq!(ny.offset_string(t).as_deref(), Some("UTC-5"));
    let india = TimeZone::from_tz(&catalog(), &"Asia/Kolkata".to_string());
    assert_eq!(india.display_name, "KOL");
    assert_eq!(india.utc_offset_hours(t), Some(5));
    assert_eq!(india.offset_string(t).as_deref(), Some("UTC+5"));
}

#[test]
fn unknown_zone_rows_are_refused() {
    let bad = TimeZone::new("Mars/Olympus".to_string(), "OLY".to_string());
    assert_eq!(bad.utc_offset_hours(0), None);
    assert_eq!(bad.offset_string(0), None);
    let mut manager = TimeZoneManager::new();
    assert!(!manager.add_zone(bad, 0));
    assert_eq!(manager.zone_count(), 0);
}

#[test]
fn city_name_and_coordinates() {
    let cat = catalog();
    let mut manager = TimeZoneManager::new();
    assert!(manager.add_timezone_by_name(&cat, "Manchester", now()));
    let row = &manager.zones()[0];
    assert_eq!(row.get_city_name(&cat), "Manchester");
    assert_eq!(row.get_coordinates(&cat), Some((53_480_800, -2_242_600)));

    let bare = TimeZone::new("Asia/Tokyo".to_string(), "TYO".to_string());
    assert_eq!(bare.get_city_name(&cat), "Tokyo");
    assert_eq!(bare.get_coordinates(&cat), Some((35_676_200, 139_650_300)));

    let unknown = TimeZone::new("Asia/Kolkata".to_string(), "KOL".to_string());
    assert_eq!(unknown.get_city_name(&cat), "KOL");
    assert_eq!(unknown.get_coordinates(&cat), None);
}

#[test]
fn source_city_is_first_member() {
    let m = MemberCity {
        name: "Tokyo".to_string(),
        code: "TYO".to_string(),
        country: "Japan".to_string(),
        timezone: "Asia/Tokyo".to_string(),
    };
    let row = TimeZone::with_source_city("Asia/Tokyo".to_string(), "TYO".to_string(), None, Some(m));
    assert_eq!(row.source_city(), Some("Tokyo"));
    let copy = row.duplicate();
    assert_eq!(copy.source_city(), Some("Tokyo"));
    assert_eq!(TimeZone::new("UTC".to_string(), "UTC".to_string()).source_city(), None);
}

#[test]
fn country_lookup() {
    assert_eq!(get_country_for_city(&catalog(), &"London".to_string()), "UK");
    assert_eq!(get_country_for_city(&catalog(), &"Gotham".to_string()), "Unknown");
}

#[test]
fn finds_row_with_local_offset() {
    let t = JAN_15_2024_NOON_UTC;
    let manager = TimeZoneManager::with_default_zones(&catalog(), t);
    let i = manager.index_with_offset(9, t).unwrap();
    assert_eq!(manager.zones()[i].timezone_id, "Asia/Tokyo");
    assert_eq!(manager.index_with_offset(3, t), None);
}

#[test]
fn default_rows_in_offset_order() {
    let t = JAN_15_2024_NOON_UTC;
    let manager = TimeZoneManager::with_default_zones(&catalog(), t);
    let ids: Vec<&str> = manager.zones().iter().map(|z| z.timezone_id.as_str()).collect();
    assert_eq!(
        ids,
        vec![
            "America/Los_Angeles",
            "America/New_York",
            "UTC",
            "Europe/London",
            "Europe/Berlin",
            "Asia/Tokyo",
            "Australia/Sydney"
        ]
    );
}

#[test]
fn titles_follow_display_mode() {
    let t = JAN_15_2024_NOON_UTC;
    let cat = catalog();
    let mut manager = TimeZoneManager::new();
    assert!(manager.add_timezone_by_name(&cat, "London", t));
    assert!(manager.add_timezone_by_name(&cat, "Manchester", t));
    assert!(manager.add_timezone_by_name(&cat, "Tokyo", t));
    manager.update_zone_label(1, Some("Alice".to_string()));
    let london = &manager.zones()[0];
    assert_eq!(london.title(TimezoneDisplayMode::Short, &cat, t).as_deref(), Some("LON +1 UTC+0"));
    assert_eq!(london.title(TimezoneDisplayMode::Full, &cat, t).as_deref(), Some("London +1 UTC+0"));
    let tokyo = &manager.zones()[1];
    assert_eq!(tokyo.title(TimezoneDisplayMode::Short, &cat, t).as_deref(), Some("Alice UTC+9"));
    assert_eq!(
        tokyo.title(TimezoneDisplayMode::Full, &cat, t).as_deref(),
        Some("Alice (Tokyo UTC+9)")
    );
    let bad = TimeZone::new("Mars/Olympus".to_string(), "OLY".to_string());
    assert_eq!(bad.title(TimezoneDisplayMode::Short, &cat, t), None);
}

#[test]
fn test_config_with_custom_labels() {
    let t = JAN_15_2024_NOON_UTC;
    let cat = catalog();
    let mut manager = TimeZoneManager::with_default_zones(&cat, t);
    for i in 0..manager.zone_count() {
        manager.update_zone_label(i, None);
    }
    manager.update_zone_label(0, Some("Alice".to_string()));
    if manager.zone_count() > 1 {
        manager.update_zone_label(1, Some("Bob".to_string()));
    }
    let zones = manager.zone_configs(&cat);
    assert_eq!(zones[0].custom_label(), Some("Alice"));
    if zones.len() > 1 {
        assert_eq!(zones[1].custom_label(), Some("Bob"));
    }
    if zones.len() > 2 {
        assert_eq!(zones[2].custom_label(), None);
    }
}

#[test]
fn saved_zones_round_trip() {
    let t = JAN_15_2024_NOON_UTC;
    let cat = catalog();
    let saved = vec![
        ZoneConfigCompat::Simple("London".to_string()),
        ZoneConfigCompat::Full(ZoneConfig {
            city_name: "Tokyo".to_string(),
            custom_label: Some("Alice (Engineering)".to_string()),
        }),
        ZoneConfigCompat::Simple("Gotham".to_string()),
    ];
    let manager = TimeZoneManager::from_zone_configs(&cat, &saved, t);
    assert_eq!(manager.zone_count(), 2);
    let back = manager.zone_configs(&cat);
    assert_eq!(back.len(), 2);
    assert_eq!(back[0].city_name(), "London");
    assert_eq!(back[0].custom_label(), None);
    assert_eq!(back[1].city_name(), "Tokyo");
    assert_eq!(back[1].custom_label(), Some("Alice (Engineering)"));

    let bare = TimeZone::new("Asia/Tokyo".to_string(), "TYO".to_string());
    let mut m = TimeZoneManager::new();
    assert!(m.add_zone(bare, t));
    assert_eq!(m.zone_configs(&cat)[0].city_name(), "Tokyo");
}

#[test]
fn nothing_saved_gives_defaults() {
    let t = JAN_15_2024_NOON_UTC;
    let manager = TimeZoneManager::from_zone_configs(&catalog(), &Vec::new(), t);
    assert_eq!(manager.zone_count(), 7);
}

#[test]
fn full_names_read_place_abbreviation_offset() {
    let t = JAN_15_2024_NOON_UTC;
    let ny = TimeZone::new("America/New_York".to_string(), "NYC".to_string());
    assert_eq!(ny.get_timezone_abbreviation(t).as_deref(), Some("EST"));
    assert_eq!(ny.get_full_display_name(t).as_deref(), Some("New York EST UTC-5"));
    let tokyo = TimeZone::new("Asia/Tokyo".to_string(), "TYO".to_string());
    assert_eq!(tokyo.get_full_display_name(t).as_deref(), Some("Tokyo JST UTC+9"));
    let utc = TimeZone::new("UTC".to_string(), "UTC".to_string());
    assert_eq!(utc.get_full_display_name(t).as_deref(), Some("UTC UTC UTC+0"));
    let bad = TimeZone::new("Mars/Olympus".to_string(), "OLY".to_string());
    assert_eq!(bad.get_full_display_name(t), None);
}

#[test]
fn rows_overlapping_another_row_are_refused() {
    let t = JAN_15_2024_NOON_UTC;
    let mut manager = TimeZoneManager::new();
    assert!(manager.add_timezone_by_name(&catalog(), "London", t));
    let m = MemberCity {
        name: "Manchester".to_string(),
        code: "MAN".to_string(),
        country: "UK".to_string(),
        timezone: "Europe/London".to_string(),
    };
    let row = TimeZone::with_source_city("Asia/Tokyo".to_string(), "TYO".to_string(), None, Some(m));
    assert!(!manager.add_zone(row, t));
    assert_eq!(manager.zone_count(), 1);

    // a row for a zone already shown joins that row
    let m2 = MemberCity {
        name: "Manchester".to_string(),
        code: "MAN".to_string(),
        country: "UK".to_string(),
        timezone: "Europe/London".to_string(),
    };
    let same = TimeZone::with_source_city("Europe/London".to_string(), "MAN".to_string(), None, Some(m2));
    assert!(manager.add_zone(same, t));
    assert_eq!(manager.zone_count(), 1);
    assert_eq!(names_of(&manager.zones()[0]), vec!["London", "Manchester"]);
}
