use rawgallery::datetime::{
    dt_before, dt_not_after, epoch_start, far_future, filter_from_bound, filter_to_bound,
    parse_date, parse_exif_datetime, DateTime,
};

fn dt(year: u32, month: u32, day: u32, hour: u32, minute: u32, second: u32) -> DateTime {
    DateTime { year, month, day, hour, minute, second }
}

#[test]
fn exif_datetime_parses_exactly() {
    assert_eq!(parse_exif_datetime("2021:07:04 12:30:05"), Some(dt(2021, 7, 4, 12, 30, 5)));
}

#[test]
fn exif_datetime_rejects_wrong_separators() {
    assert_eq!(parse_exif_datetime("2021-07-04 12:30:05"), None);
    assert_eq!(parse_exif_datetime("2021:07:04T12:30:05"), None);
}

#[test]
fn exif_datetime_rejects_wrong_length() {
    assert_eq!(parse_exif_datetime("2021:7:4 12:30:05"), None);
    assert_eq!(parse_exif_datetime(""), None);
}

#[test]
fn exif_datetime_rejects_impossible_dates() {
    assert_eq!(parse_exif_datetime("2021:02:30 00:00:00"), None);
    assert_eq!(parse_exif_datetime("2021:13:01 00:00:00"), None);
    assert_eq!(parse_exif_datetime("2021:00:10 00:00:00"), None);
    assert_eq!(parse_exif_datetime("2021:06:31 00:00:00"), None);
    assert_eq!(parse_exif_datetime("2021:01:01 24:00:00"), None);
    assert_eq!(parse_exif_datetime("2021:01:01 00:60:00"), None);
}

#[test]
fn leap_years_follow_the_calendar() {
    assert_eq!(parse_exif_datetime("2020:02:29 01:02:03"), Some(dt(2020, 2, 29, 1, 2, 3)));
    assert_eq!(parse_exif_datetime("2021:02:29 01:02:03"), None);
    assert_eq!(parse_exif_datetime("1900:02:29 01:02:03"), None);
    assert_eq!(parse_exif_datetime("2000:02:29 01:02:03"), Some(dt(2000, 2, 29, 1, 2, 3)));
}

#[test]
fn filter_date_parses_to_midnight() {
    assert_eq!(parse_date("2021-07-04"), Some(dt(2021, 7, 4, 0, 0, 0)));
    assert_eq!(parse_date("2021:07:04"), None);
    assert_eq!(parse_date("2021-02-30"), None);
}

#[test]
fn lower_bound_defaults_to_epoch() {
    assert_eq!(filter_from_bound(&None), epoch_start());
    assert_eq!(filter_from_bound(&Some(String::new())), epoch_start());
    assert_eq!(filter_from_bound(&Some(String::from("not a date"))), epoch_start());
    assert_eq!(filter_from_bound(&Some(String::from("2021-07-04"))), dt(2021, 7, 4, 0, 0, 0));
}

#[test]
fn upper_bound_defaults_to_now_or_far_future() {
    let now = dt(2024, 5, 1, 10, 0, 0);
    assert_eq!(filter_to_bound(&None, now), now);
    assert_eq!(filter_to_bound(&Some(String::new()), now), now);
    assert_eq!(filter_to_bound(&Some(String::from("junk")), now), far_future());
    assert_eq!(
        filter_to_bound(&Some(String::from("2021-07-04")), now),
        dt(2021, 7, 4, 23, 59, 59)
    );
}

#[test]
fn ordering_is_lexicographic_on_fields() {
    let a = dt(2021, 7, 4, 12, 0, 0);
    let b = dt(2021, 7, 4, 12, 0, 1);
    let c = dt(2022, 1, 1, 0, 0, 0);
    assert!(dt_before(&a, &b));
    assert!(dt_before(&b, &c));
    assert!(dt_before(&a, &c));
    assert!(!dt_before(&b, &a));
    assert!(dt_not_after(&a, &a));
    assert!(dt_not_after(&a, &b));
    assert!(!dt_not_after(&b, &a));
}
