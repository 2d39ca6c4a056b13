use rust_os::clock::{
    civil_from_days, days_from_civil, from_unix_seconds, init, now, to_unix_seconds, Clock,
};
use rust_os::rtc::DateTime;

fn at(year: u16, month: u8, day: u8, hour: u8, minute: u8, second: u8) -> DateTime {
    DateTime { year, month, day, hour, minute, second }
}

#[test]
fn unix_epoch_is_zero() {
    let epoch = at(1970, 1, 1, 0, 0, 0);
    assert_eq!(to_unix_seconds(epoch), 0);
    assert_eq!(from_unix_seconds(0), epoch);
}

#[test]
fn known_timestamp_round_trips() {
    // `date -u -d "2026-07-31 12:34:56"` -> 1785501296
    let dt = at(2026, 7, 31, 12, 34, 56);
    assert_eq!(to_unix_seconds(dt), 1_785_501_296);
    assert_eq!(from_unix_seconds(1_785_501_296), dt);
}

#[test]
fn leap_day_round_trips() {
    // 2024-02-29 00:00:00 UTC -> 1709164800
    let dt = at(2024, 2, 29, 0, 0, 0);
    assert_eq!(to_unix_seconds(dt), 1_709_164_800);
    assert_eq!(from_unix_seconds(1_709_164_800), dt);
}

#[test]
fn year_boundary_round_trips() {
    // 2025-12-31 23:59:59 UTC -> 1767225599
    let dt = at(2025, 12, 31, 23, 59, 59);
    assert_eq!(to_unix_seconds(dt), 1_767_225_599);
    assert_eq!(from_unix_seconds(1_767_225_599), dt);
}

#[test]
fn century_boundaries_are_right() {
    // 1900 was no leap year, 2000 was one.
    assert_eq!(days_from_civil(1900, 3, 1) - days_from_civil(1900, 2, 28), 1);
    assert_eq!(days_from_civil(2000, 3, 1) - days_from_civil(2000, 2, 28), 2);
    assert_eq!(civil_from_days(days_from_civil(2000, 2, 29)), (2000, 2, 29));
    assert_eq!(days_from_civil(0, 3, 1), -719_468);
    assert_eq!(civil_from_days(-719_468), (0, 3, 1));
}

#[test]
fn days_follow_one_another() {
    let mut date = (1899, 12, 31);
    let mut number = days_from_civil(date.0, date.1, date.2);
    for _ in 0..80_000 {
        let next = civil_from_days(number + 1);
        assert_eq!(days_from_civil(next.0, next.1, next.2), number + 1);
        assert!(next > date);
        date = next;
        number += 1;
    }
    assert_eq!(date, (2119, 1, 12));
}

#[test]
fn times_before_the_epoch_work() {
    assert_eq!(from_unix_seconds(-1), at(1969, 12, 31, 23, 59, 59));
    assert_eq!(to_unix_seconds(at(1969, 12, 31, 23, 59, 59)), -1);
}

#[test]
fn a_year_that_does_not_fit_is_cut() {
    // 65536-01-01 00:00:00 UTC
    let seconds = days_from_civil(65536, 1, 1) * 86_400;
    assert_eq!(from_unix_seconds(seconds).year, 0);
    assert_eq!(from_unix_seconds(seconds - 1).year, 65535);
    // The extremes of the type are no obstacle.
    assert_eq!(from_unix_seconds(i64::MIN).second, 52);
    assert_eq!(from_unix_seconds(i64::MAX).second, 7);
}

#[test]
fn the_clock_advances_with_the_ticks() {
    let mut clock = Clock::new();
    assert_eq!(now(&clock, 12), None);
    init(&mut clock, at(2024, 2, 28, 23, 59, 58), 1000);
    assert_eq!(now(&clock, 1000), Some(at(2024, 2, 28, 23, 59, 58)));
    assert_eq!(now(&clock, 1199), Some(at(2024, 2, 28, 23, 59, 59)));
    assert_eq!(now(&clock, 1200), Some(at(2024, 2, 29, 0, 0, 0)));
}

#[test]
fn months_outside_the_year_are_counted_too() {
    // Month 0 is the December before; a negative month is rounded as it falls.
    assert_eq!(days_from_civil(1970, 0, 1), -31);
    assert_eq!(days_from_civil(1970, -9, 1), -306);
    assert_eq!(days_from_civil(1970, -10, 1), -306 - 30);
    assert_eq!(days_from_civil(1970, 13, 1), 365);
}

#[test]
fn the_clock_is_seeded_once() {
    let mut clock = Clock::new();
    assert!(clock.begin().is_some());
    init(&mut clock, at(2026, 7, 19, 14, 33, 7), 100);
    assert!(clock.begin().is_none());
    assert_eq!(now(&clock, 100), Some(at(2026, 7, 19, 14, 33, 7)));
}

#[test]
fn time_does_not_run_back() {
    let mut clock = Clock::new();
    init(&mut clock, at(2024, 2, 28, 23, 59, 0), 0);
    let mut before = 0;
    for ticks in (0..20_000).step_by(7) {
        let seconds = to_unix_seconds(now(&clock, ticks).unwrap());
        assert!(seconds >= before);
        before = seconds;
    }
}
