use alltz::catalog::{search_timezones, CitiesData, CityData};

fn city(name: &str, code: &str, tz: &str, country: &str, aliases: &[&str]) -> CityData {
    CityData {
        name: name.to_string(),
        code: code.to_string(),
        timezone: tz.to_string(),
        country: country.to_string(),
        latitude_micro: 0,
        longitude_micro: 0,
        aliases: aliases.iter().map(|a| a.to_string()).collect(),
    }
}

fn catalog() -> CitiesData {
    CitiesData {
        cities: vec![
            city("Los Angeles", "LAX", "America/Los_Angeles", "USA", &["LA"]),
            city("New York", "NYC", "America/New_York", "USA", &["Big Apple"]),
            city("UTC", "UTC", "UTC", "World", &[]),
            city("London", "LON", "Europe/London", "UK", &["Greater London"]),
            city("London", "YXU", "Canada/Eastern", "Canada", &[]),
            city("Manchester", "MAN", "Europe/London", "UK", &[]),
            city("Berlin", "BER", "Europe/Berlin", "Germany", &[]),
            city("Paris", "PAR", "Europe/Paris", "France", &[]),
            city("Tokyo", "TYO", "Asia/Tokyo", "Japan", &["Edo"]),
            city("Sydney", "SYD", "Australia/Sydney", "Australia", &[]),
        ],
        major_cities: vec!["London".to_string(), "Tokyo".to_string(), "New York".to_string()],
    }
}

#[test]
fn test_search_london_disambiguation() {
    let results = search_timezones(&catalog(), "London");

    let london_uk = results.iter().find(|r| r.contains("London, UK"));
    let london_canada = results.iter().find(|r| r.contains("London, Canada"));
    assert!(london_uk.is_some(), "Should find London, UK in results");
    assert!(london_canada.is_some(), "Should find London, Canada in results");

    let london_uk_count = results.iter().filter(|r| r.contains("London, UK")).count();
    let london_canada_count = results.iter().filter(|r| r.contains("London, Canada")).count();
    assert_eq!(london_uk_count, 1, "Should have exactly one London, UK entry");
    assert_eq!(london_canada_count, 1, "Should have exactly one London, Canada entry");
}

#[test]
fn london_ranks_by_score() {
    // UK: exact name 1000, alias contains 150, zone contains 50, major 25
    // Canada: exact name 1000, major 25; Manchester: zone contains 50
    let results = search_timezones(&catalog(), "London");
    assert_eq!(results, vec!["London, UK", "London, Canada", "Manchester, UK"]);
}

#[test]
fn blank_query_finds_nothing() {
    assert!(search_timezones(&catalog(), "").is_empty());
    assert!(search_timezones(&catalog(), "   ").is_empty());
}

#[test]
fn query_is_trimmed_and_case_folded() {
    assert_eq!(search_timezones(&catalog(), "  tOKyo "), vec!["Tokyo, Japan"]);
}

#[test]
fn alias_exact_match_scores() {
    assert_eq!(search_timezones(&catalog(), "edo"), vec!["Tokyo, Japan"]);
    assert_eq!(search_timezones(&catalog(), "big apple"), vec!["New York, USA"]);
}

#[test]
fn country_match_scores() {
    assert_eq!(search_timezones(&catalog(), "germany"), vec!["Berlin, Germany"]);
}

#[test]
fn prefix_beats_substring() {
    let results = search_timezones(&catalog(), "lon");
    assert_eq!(results, vec!["London, UK", "London, Canada", "Manchester, UK"]);
}

#[test]
fn equal_scores_sort_by_label() {
    let results = search_timezones(&catalog(), "europe");
    assert_eq!(
        results,
        vec!["London, UK", "Berlin, Germany", "Manchester, UK", "Paris, France"]
    );
}

#[test]
fn results_are_capped_at_eight() {
    let results = search_timezones(&catalog(), "a");
    assert_eq!(results.len(), 8);
    let mut seen = std::collections::HashSet::new();
    for r in &results {
        assert!(seen.insert(r.clone()));
    }
}

#[test]
fn no_match_finds_nothing() {
    assert!(search_timezones(&catalog(), "zzz").is_empty());
}
