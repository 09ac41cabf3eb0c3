use alltz::control::{clamp_selection, scrub_hour, scrub_minute, step_selection, Direction};

// 2024-01-15T12:34:56Z
const MID_HOUR: i64 = 1_705_322_096;
const ON_HOUR: i64 = 1_705_320_000;

#[test]
fn coarse_scrub_rounds_to_hours() {
    assert_eq!(scrub_hour(MID_HOUR, Direction::Left), ON_HOUR);
    assert_eq!(scrub_hour(ON_HOUR, Direction::Left), ON_HOUR - 3600);
    assert_eq!(scrub_hour(MID_HOUR, Direction::Right), ON_HOUR + 3600);
    assert_eq!(scrub_hour(ON_HOUR, Direction::Right), ON_HOUR + 3600);
    assert_eq!(scrub_hour(MID_HOUR, Direction::Up), MID_HOUR);
    // before the epoch the hour still starts below the instant
    assert_eq!(scrub_hour(-1, Direction::Left), -3600);
}

#[test]
fn test_timeline_scrubbing() {
    let initial = chrono::Utc::now().timestamp();
    let after_right = scrub_hour(initial, Direction::Right);
    assert!(after_right > initial);
    let after_left = scrub_hour(after_right, Direction::Left);
    assert!(after_left < after_right);
}

#[test]
fn fine_scrub_moves_a_minute() {
    assert_eq!(scrub_minute(MID_HOUR, Direction::Left), MID_HOUR - 60);
    assert_eq!(scrub_minute(MID_HOUR, Direction::Right), MID_HOUR + 60);
    assert_eq!(scrub_minute(MID_HOUR, Direction::Down), MID_HOUR);
}

#[test]
fn selection_stops_at_the_ends() {
    assert_eq!(step_selection(0, 3, Direction::Up), 0);
    assert_eq!(step_selection(1, 3, Direction::Up), 0);
    assert_eq!(step_selection(1, 3, Direction::Down), 2);
    assert_eq!(step_selection(2, 3, Direction::Down), 2);
    assert_eq!(step_selection(0, 0, Direction::Down), 0);
    assert_eq!(step_selection(1, 3, Direction::Left), 1);
}

#[test]
fn selection_follows_a_shrinking_list() {
    assert_eq!(clamp_selection(1, 3), 1);
    assert_eq!(clamp_selection(3, 3), 2);
    assert_eq!(clamp_selection(5, 0), 0);
}
