use rinha::calendar::{epoch_minutes, weekday_mon0};

#[test]
fn epoch_minutes_of_unix_epoch() {
    assert_eq!(epoch_minutes(1970, 1, 1, 0, 0), 2440588 * 1440);
    assert_eq!(epoch_minutes(2000, 1, 1, 12, 0), 2451545 * 1440 + 720);
}

#[test]
fn minutes_across_a_leap_day() {
    let before = epoch_minutes(2024, 2, 28, 23, 59);
    let leap = epoch_minutes(2024, 2, 29, 0, 0);
    let march = epoch_minutes(2024, 3, 1, 0, 0);
    assert_eq!(leap - before, 1);
    assert_eq!(march - leap, 1440);
    assert_eq!(epoch_minutes(2023, 3, 1, 0, 0) - epoch_minutes(2023, 2, 28, 0, 0), 1440);
    assert_eq!(epoch_minutes(1900, 3, 1, 0, 0) - epoch_minutes(1900, 2, 28, 0, 0), 1440);
    assert_eq!(epoch_minutes(2000, 3, 1, 0, 0) - epoch_minutes(2000, 2, 28, 0, 0), 2880);
}

#[test]
fn minutes_across_a_year_end() {
    assert_eq!(epoch_minutes(2026, 1, 1, 0, 0) - epoch_minutes(2025, 12, 31, 23, 0), 60);
}

#[test]
fn weekdays_start_on_monday() {
    assert_eq!(weekday_mon0(2024, 1, 1), 0);
    assert_eq!(weekday_mon0(2000, 1, 1), 5);
    assert_eq!(weekday_mon0(2026, 1, 18), 6);
    assert_eq!(weekday_mon0(2024, 2, 29), 3);
}

#[test]
fn weekday_agrees_with_the_day_count() {
    for (y, m, d) in [(2024, 1, 1), (1999, 12, 31), (2026, 7, 4), (1, 1, 1), (2400, 2, 29)] {
        let day = epoch_minutes(y, m, d, 0, 0) / 1440;
        assert_eq!(weekday_mon0(y, m, d), day % 7);
    }
}

#[test]
fn out_of_range_months_follow_truncating_division() {
    assert_eq!(epoch_minutes(2026, 13, 1, 0, 0), epoch_minutes(2027, 1, 1, 0, 0));
    assert!(weekday_mon0(2026, 99, 99) >= 0);
}

#[test]
fn the_next_day_is_the_next_weekday() {
    for (a, b) in [((2024, 2, 28), (2024, 2, 29)), ((2024, 2, 29), (2024, 3, 1)), ((2023, 12, 31), (2024, 1, 1)), ((2023, 4, 30), (2023, 5, 1))] {
        assert_eq!(weekday_mon0(b.0, b.1, b.2), (weekday_mon0(a.0, a.1, a.2) + 1) % 7);
        assert_eq!(epoch_minutes(b.0, b.1, b.2, 8, 15) - epoch_minutes(a.0, a.1, a.2, 8, 15), 1440);
    }
}

#[test]
fn minutes_between_dates_a_year_apart() {
    let a = epoch_minutes(2024, 3, 1, 9, 30);
    let b = epoch_minutes(2025, 3, 1, 10, 0);
    assert_eq!(b - a, 365 * 1440 + 30);
    let c = epoch_minutes(2024, 12, 31, 23, 59);
    let d = epoch_minutes(2024, 1, 1, 0, 0);
    assert_eq!(c - d, 365 * 1440 + 23 * 60 + 59);
}

#[test]
fn far_years_stay_within_range() {
    let y = 10_000_000_000_000i64 - 400;
    assert_eq!(epoch_minutes(y + 400, 1, 1, 0, 0) - epoch_minutes(y, 1, 1, 0, 0), 146097 * 1440);
    let w = weekday_mon0(1_000_000_000_000_000_000, 1, 1);
    assert!((0..7).contains(&w));
    assert_eq!(weekday_mon0(2400, 1, 1), weekday_mon0(2000, 1, 1));
}
