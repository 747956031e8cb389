use code_time_monitor::aggregate::{
    daily_average, daily_totals, day_index, latest, sum_time, DAY_MS,
};
use code_time_monitor::pairing::Interval;

fn iv(begin: i64, duration: i64) -> Interval {
    Interval { begin, duration, file: "f".to_string() }
}

#[test]
fn total_of_nothing_is_zero() {
    assert_eq!(sum_time(&Vec::new()), 0);
}

#[test]
fn total_adds_durations() {
    assert_eq!(sum_time(&vec![iv(0, 1000), iv(5, 3000), iv(9, -500)]), 3500);
}

#[test]
fn total_does_not_overflow() {
    assert_eq!(sum_time(&vec![iv(0, i64::MAX), iv(1, i64::MAX)]), 2 * (i64::MAX as i128));
}

#[test]
fn zero_window_excludes_the_past() {
    let now: i64 = 1_700_000_000;
    let past = vec![iv(now * 1000 - 1, 4000)];
    assert_eq!(latest(&past, now, 0), 0);
    let at_now = vec![iv(now * 1000, 4000), iv(now * 1000 - 1, 10)];
    assert_eq!(latest(&at_now, now, 0), 4000);
}

#[test]
fn window_boundary_is_inclusive() {
    let now: i64 = 100_000;
    let is = vec![iv((now - 86400) * 1000, 7), iv((now - 86400) * 1000 - 1, 11), iv(now * 1000, 13)];
    assert_eq!(latest(&is, now, 86400), 20);
    assert_eq!(latest(&Vec::new(), now, 86400), 0);
}

#[test]
fn average_is_per_day() {
    let d1: i64 = 19_000 * DAY_MS as i64;
    let d2: i64 = d1 + DAY_MS as i64;
    let a = daily_average(&vec![iv(d1 + 10, 1000), iv(d2 + 20, 3000)]);
    assert_eq!(a.total_ms, 4000);
    assert_eq!(a.days, 2);
    assert_eq!(a.total_ms as f64 / a.days as f64, 2000.0);
}

#[test]
fn intervals_of_one_day_share_a_bucket() {
    let d: i64 = 5 * DAY_MS as i64;
    let a = daily_average(&vec![iv(d, 1000), iv(d + DAY_MS as i64 - 1, 3000), iv(d + DAY_MS as i64, 500)]);
    assert_eq!(a.total_ms, 4500);
    assert_eq!(a.days, 2);
}

#[test]
fn average_of_nothing() {
    let a = daily_average(&Vec::new());
    assert_eq!(a.total_ms, 0);
    assert_eq!(a.days, 0);
}

#[test]
fn days_are_counted_in_utc_from_the_epoch() {
    assert_eq!(day_index(0), 0);
    assert_eq!(day_index(86_399_999), 0);
    assert_eq!(day_index(86_400_000), 1);
    assert_eq!(day_index(-1), -1);
    assert_eq!(day_index(-86_400_000), -1);
    assert_eq!(day_index(-86_400_001), -2);
    assert_eq!(day_index(i64::MIN), -106_751_991_168);
}

#[test]
fn per_day_totals() {
    let d: i64 = 20_000 * DAY_MS as i64;
    let t = daily_totals(&vec![iv(d + 5, 100), iv(d - 1, 7), iv(d + 9, 250), iv(d + DAY_MS as i64, 1)]);
    assert_eq!(t.len(), 3);
    assert_eq!((t[0].day, t[0].total_ms), (20_000, 350));
    assert_eq!((t[1].day, t[1].total_ms), (19_999, 7));
    assert_eq!((t[2].day, t[2].total_ms), (20_001, 1));
    assert_eq!(daily_totals(&Vec::new()).len(), 0);
}
