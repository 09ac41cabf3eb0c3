use alltz::config::{TimeActivity, TimeDisplayConfig};
use alltz::timeline::{
    centered_start, day_label_columns,
    column_to_instant, detect_dst_transition, dst_transitions_in_range, instant_to_column,
    midnight_markers_in_range, minutes_for_width, timeline_activities, window, DstTransition,
};

const JAN_15_2024_NOON_UTC: i64 = 1_705_320_000;
const MAR_10_2024_0700_UTC: i64 = 1_710_054_000;

fn now() -> i64 {
    chrono::Utc::now().timestamp()
}

#[test]
fn test_time_to_position() {
    let base_time = now();
    let (start, end) = window(base_time, 100);
    let pos = instant_to_column(base_time, start, end, 100);
    assert_eq!(pos, 50);
}

#[test]
fn test_hour_display_mapping() {
    let config = TimeDisplayConfig::default();
    let ch = config.get_activity_char(config.get_time_activity(14));
    assert_eq!(ch, '▓');
    let ch = config.get_activity_char(config.get_time_activity(7));
    assert_eq!(ch, '▒');
    let ch = config.get_activity_char(config.get_time_activity(2));
    assert_eq!(ch, '░');
}

#[test]
fn test_dst_transition_detection() {
    let base_time = now();
    const TEST_WIDTH: u16 = 120;
    let (start, end) = window(base_time, TEST_WIDTH);
    let transitions = dst_transitions_in_range("US/Eastern", start, end).unwrap();
    for (time, transition_type) in transitions {
        assert!(time >= start && time <= end);
        assert!(matches!(
            transition_type,
            DstTransition::SpringForward | DstTransition::FallBack
        ));
    }
}

#[test]
fn test_adaptive_timeline_window() {
    let now = now();
    assert_eq!(minutes_for_width(80), 48 * 60);
    assert_eq!(minutes_for_width(200), 100 * 60);
    assert_eq!(minutes_for_width(1000), 168 * 60);

    let (start, end) = window(now, 200);
    assert_eq!(end - start, 100 * 60 * 60);
}

#[test]
fn test_midnight_markers() {
    const TEST_WIDTH: u16 = 120;
    let (start, end) = window(JAN_15_2024_NOON_UTC, TEST_WIDTH);
    let midnight_markers = midnight_markers_in_range("US/Eastern", start, end).unwrap();
    assert!(!midnight_markers.is_empty());
    for marker in &midnight_markers {
        assert!(*marker >= start);
        assert!(*marker <= end);
    }
    // 2024-01-15 and 2024-01-16 at 00:00 EST
    assert_eq!(midnight_markers, vec![1_705_294_800, 1_705_381_200]);
}

#[test]
fn window_length_bounds_and_examples() {
    assert_eq!(minutes_for_width(0), 48 * 60);
    assert_eq!(minutes_for_width(80), 48 * 60);
    assert_eq!(minutes_for_width(97), 2910);
    assert_eq!(minutes_for_width(200), 100 * 60);
    assert_eq!(minutes_for_width(2000), 168 * 60);
    assert_eq!(minutes_for_width(u16::MAX), 168 * 60);
    for w in [1u16, 50, 96, 150, 336, 337, 5000] {
        let m = minutes_for_width(w);
        assert!((48 * 60..=168 * 60).contains(&m));
    }
}

#[test]
fn window_is_centred_on_the_scrub_instant() {
    let (start, end) = window(JAN_15_2024_NOON_UTC, 120);
    assert_eq!(start, JAN_15_2024_NOON_UTC - 30 * 3600);
    assert_eq!(end, JAN_15_2024_NOON_UTC + 30 * 3600);
}

#[test]
fn columns_never_go_backwards() {
    let (start, end) = window(JAN_15_2024_NOON_UTC, 120);
    assert_eq!(instant_to_column(start, start, end, 120), 0);
    let mut last = 0;
    let mut t = start;
    while t < end {
        let c = instant_to_column(t, start, end, 120);
        assert!(c >= last);
        last = c;
        t += 600;
    }
    assert_eq!(instant_to_column(end, start, end, 120), 119);
}

#[test]
fn column_edge_cases() {
    assert_eq!(instant_to_column(-50, 0, 100, 10), 0);
    assert_eq!(instant_to_column(1_000, 0, 100, 10), 9);
    assert_eq!(instant_to_column(5, 7, 7, 10), 0);
    assert_eq!(instant_to_column(50, 0, 100, 0), 0);
    // 25% of 10 columns is 2.5, which rounds up
    assert_eq!(instant_to_column(25, 0, 100, 10), 3);
    assert_eq!(instant_to_column(24, 0, 100, 10), 2);
    // a window given end first is read the same way
    assert_eq!(instant_to_column(75, 100, 0, 10), 3);
}

#[test]
fn columns_map_back_to_whole_minutes() {
    let start = 1_000_000;
    let end = start + 48 * 3600;
    assert_eq!(column_to_instant(0, start, end, 96), start);
    assert_eq!(column_to_instant(1, start, end, 96), start + 30 * 60);
    assert_eq!(column_to_instant(95, start, end, 96), start + 95 * 30 * 60);
    assert_eq!(column_to_instant(1, start, end, 7), start + 411 * 60);
}

#[test]
fn utc_columns_shade_by_hour() {
    // 2024-01-15T00:00Z, 48 hours over 96 columns: two columns per hour
    let start = 1_705_276_800;
    let end = start + 48 * 3600;
    let cfg = TimeDisplayConfig::default();
    let shades = timeline_activities("UTC", start, end, 96, &cfg).unwrap();
    assert_eq!(shades.len(), 96);
    assert_eq!(shades[0], TimeActivity::Night);
    assert_eq!(shades[14], TimeActivity::Awake);
    assert_eq!(shades[28], TimeActivity::Work);
    assert_eq!(shades[42], TimeActivity::Awake);
    assert_eq!(shades[44], TimeActivity::Night);
    assert_eq!(shades[48 + 28], TimeActivity::Work);
}

#[test]
fn spring_forward_week_reports_one_step() {
    // US/Eastern moves from UTC-5 to UTC-4 at 07:00Z on 2024-03-10 (2 AM local);
    // the hourly step before it sees the offset grow: clocks spring forward
    let (start, end) = window(MAR_10_2024_0700_UTC, 120);
    let events = dst_transitions_in_range("US/Eastern", start, end).unwrap();
    assert_eq!(events, vec![(MAR_10_2024_0700_UTC - 3600, DstTransition::SpringForward)]);
    assert_eq!(
        detect_dst_transition("US/Eastern", MAR_10_2024_0700_UTC - 3600),
        Some(Some(DstTransition::SpringForward))
    );
    assert_eq!(detect_dst_transition("US/Eastern", MAR_10_2024_0700_UTC), Some(None));
}

#[test]
fn fall_back_reports_offset_shrinking() {
    // US/Eastern moves from UTC-4 to UTC-5 at 06:00Z on 2024-11-03
    let change = 1_730_613_600;
    assert_eq!(
        detect_dst_transition("US/Eastern", change - 3600),
        Some(Some(DstTransition::FallBack))
    );
}

#[test]
fn quiet_week_has_no_transitions() {
    let (start, end) = window(JAN_15_2024_NOON_UTC, 2000);
    assert!(dst_transitions_in_range("US/Eastern", start, end).unwrap().is_empty());
    assert!(dst_transitions_in_range("UTC", start, end).unwrap().is_empty());
}

#[test]
fn utc_midnights_fall_on_day_boundaries() {
    let (start, end) = window(JAN_15_2024_NOON_UTC, 80);
    let marks = midnight_markers_in_range("UTC", start, end).unwrap();
    assert_eq!(marks, vec![1_705_276_800, 1_705_363_200]);
    // a window starting exactly at midnight includes it
    let marks = midnight_markers_in_range("UTC", 1_705_276_800, 1_705_276_800 + 3600).unwrap();
    assert_eq!(marks, vec![1_705_276_800]);
}

#[test]
fn unknown_zone_gives_nothing() {
    let cfg = TimeDisplayConfig::default();
    assert_eq!(detect_dst_transition("Mars/Olympus", 0), None);
    assert_eq!(dst_transitions_in_range("Mars/Olympus", 0, 7200), None);
    assert_eq!(midnight_markers_in_range("Mars/Olympus", 0, 7200), None);
    assert_eq!(timeline_activities("Mars/Olympus", 0, 7200, 4, &cfg), None);
}

#[test]
fn day_labels_sit_at_mid_work_hours() {
    // 48 hours around 2024-01-15T12:00Z in UTC: 13:00 on the 14th, 15th and 16th
    let (start, end) = window(JAN_15_2024_NOON_UTC, 96);
    let days = day_label_columns("UTC", start, end, 96, 13).unwrap();
    let day_15 = 19_737;
    assert_eq!(days, vec![(day_15 - 1, 2), (day_15, 50), (day_15 + 1, 95)]);
    assert_eq!(day_label_columns("Mars/Olympus", start, end, 96, 13), None);
}

#[test]
fn labels_stay_inside_the_row() {
    assert_eq!(centered_start(50, 6, 100), 47);
    assert_eq!(centered_start(1, 6, 100), 0);
    assert_eq!(centered_start(99, 6, 100), 94);
    assert_eq!(centered_start(3, 10, 4), 0);
}
