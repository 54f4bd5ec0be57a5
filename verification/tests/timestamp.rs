use chrono::{Datelike, NaiveDate, NaiveDateTime, TimeDelta, Timelike};
use rattlebeaver::timestamp::{Range, Timestamp, TimestampError};

fn at(year: i32, month: u32, day: u32, hour: u32, minute: u32, second: u32) -> Timestamp {
    Timestamp::new(year, month, day, hour, minute, second).expect("a time that exists")
}

fn naive(t: &Timestamp) -> NaiveDateTime {
    NaiveDate::from_ymd_opt(t.year(), t.month(), t.day())
        .unwrap()
        .and_hms_opt(t.hour(), t.minute(), t.second())
        .unwrap()
}

fn fields(t: &Timestamp) -> (i32, u32, u32, u32, u32, u32) {
    (t.year(), t.month(), t.day(), t.hour(), t.minute(), t.second())
}

#[test]
fn new_keeps_the_fields() {
    let t = at(2024, 2, 29, 23, 59, 58);
    assert_eq!(fields(&t), (2024, 2, 29, 23, 59, 58));
}

#[test]
fn new_refuses_what_the_calendar_lacks() {
    assert!(Timestamp::new(2023, 2, 29, 0, 0, 0).is_none());
    assert!(Timestamp::new(2024, 2, 30, 0, 0, 0).is_none());
    assert!(Timestamp::new(1900, 2, 29, 0, 0, 0).is_none());
    assert!(Timestamp::new(2000, 2, 29, 0, 0, 0).is_some());
    assert!(Timestamp::new(2024, 4, 31, 0, 0, 0).is_none());
    assert!(Timestamp::new(2024, 0, 1, 0, 0, 0).is_none());
    assert!(Timestamp::new(2024, 13, 1, 0, 0, 0).is_none());
    assert!(Timestamp::new(2024, 1, 0, 0, 0, 0).is_none());
    assert!(Timestamp::new(2024, 1, 32, 0, 0, 0).is_none());
}

#[test]
fn new_refuses_what_the_clock_lacks() {
    assert!(Timestamp::new(2024, 1, 1, 24, 0, 0).is_none());
    assert!(Timestamp::new(2024, 1, 1, 0, 60, 0).is_none());
    assert!(Timestamp::new(2024, 1, 1, 0, 0, 60).is_none());
    assert!(Timestamp::new(2024, 1, 1, 23, 59, 59).is_some());
}

#[test]
fn new_has_the_years_of_chrono() {
    assert!(Timestamp::new(262142, 12, 31, 23, 59, 59).is_some());
    assert!(Timestamp::new(262143, 1, 1, 0, 0, 0).is_none());
    assert!(Timestamp::new(-262143, 1, 1, 0, 0, 0).is_some());
    assert!(Timestamp::new(-262144, 12, 31, 23, 59, 59).is_none());
    assert!(NaiveDate::from_ymd_opt(262142, 12, 31).is_some());
    assert!(NaiveDate::from_ymd_opt(262143, 1, 1).is_none());
    assert!(NaiveDate::from_ymd_opt(-262143, 1, 1).is_some());
    assert!(NaiveDate::from_ymd_opt(-262144, 12, 31).is_none());
}

#[test]
fn floor_resets_one_more_field_at_each_step() {
    let t = at(2024, 7, 19, 13, 47, 31);
    assert_eq!(fields(&t.floor(Range::Minute)), (2024, 7, 19, 13, 47, 0));
    assert_eq!(fields(&t.floor(Range::Hour)), (2024, 7, 19, 13, 0, 0));
    assert_eq!(fields(&t.floor(Range::Day)), (2024, 7, 19, 0, 0, 0));
    assert_eq!(fields(&t.floor(Range::Month)), (2024, 7, 1, 0, 0, 0));
    assert_eq!(fields(&t.floor(Range::Year)), (2024, 1, 1, 0, 0, 0));
}

#[test]
fn floors_nest_from_year_down_to_the_time() {
    let t = at(2024, 7, 19, 13, 47, 31);
    let year = t.floor(Range::Year);
    let month = t.floor(Range::Month);
    let day = t.floor(Range::Day);
    let hour = t.floor(Range::Hour);
    let minute = t.floor(Range::Minute);
    assert!(year.is_before(&month));
    assert!(month.is_before(&day));
    assert!(day.is_before(&hour));
    assert!(hour.is_before(&minute));
    assert!(minute.is_before(&t));
    let start = at(2024, 1, 1, 0, 0, 0);
    for range in [Range::Minute, Range::Hour, Range::Day, Range::Month, Range::Year] {
        assert!(start.floor(range).is_same(&start));
        assert!(!start.is_before(&start.floor(range)));
    }
}

#[test]
fn floor_of_a_floor_is_the_floor() {
    let t = at(1999, 12, 31, 23, 59, 59);
    for range in [Range::Minute, Range::Hour, Range::Day, Range::Month, Range::Year] {
        let once = t.floor(range);
        assert_eq!(once.floor(range), once);
    }
}

#[test]
fn shift_by_minutes_hours_and_days_is_a_fixed_span() {
    let t = at(2024, 2, 28, 23, 59, 30);
    assert_eq!(fields(&t.shift(Range::Minute, 1).unwrap()), (2024, 2, 29, 0, 0, 30));
    assert_eq!(fields(&t.shift(Range::Minute, -60).unwrap()), (2024, 2, 28, 22, 59, 30));
    assert_eq!(fields(&t.shift(Range::Hour, 1).unwrap()), (2024, 2, 29, 0, 59, 30));
    assert_eq!(fields(&t.shift(Range::Hour, -24).unwrap()), (2024, 2, 27, 23, 59, 30));
    assert_eq!(fields(&t.shift(Range::Day, 2).unwrap()), (2024, 3, 1, 23, 59, 30));
    assert_eq!(fields(&t.shift(Range::Day, -59).unwrap()), (2023, 12, 31, 23, 59, 30));
    assert_eq!(fields(&t.shift(Range::Day, 366).unwrap()), (2025, 2, 28, 23, 59, 30));
    assert_eq!(t.shift(Range::Day, 0).unwrap(), t);
}

#[test]
fn shift_by_months_keeps_the_day_or_ends_the_month() {
    let t = at(2024, 1, 31, 8, 15, 0);
    assert_eq!(fields(&t.shift(Range::Month, 1).unwrap()), (2024, 2, 29, 8, 15, 0));
    assert_eq!(fields(&t.shift(Range::Month, 2).unwrap()), (2024, 3, 31, 8, 15, 0));
    assert_eq!(fields(&t.shift(Range::Month, 3).unwrap()), (2024, 4, 30, 8, 15, 0));
    assert_eq!(fields(&t.shift(Range::Month, 13).unwrap()), (2025, 2, 28, 8, 15, 0));
    assert_eq!(fields(&t.shift(Range::Month, -1).unwrap()), (2023, 12, 31, 8, 15, 0));
    assert_eq!(fields(&t.shift(Range::Month, -2).unwrap()), (2023, 11, 30, 8, 15, 0));
    assert_eq!(fields(&t.shift(Range::Month, -12).unwrap()), (2023, 1, 31, 8, 15, 0));
    assert_eq!(fields(&t.shift(Range::Month, -13).unwrap()), (2022, 12, 31, 8, 15, 0));
    assert_eq!(fields(&t.shift(Range::Month, 11).unwrap()), (2024, 12, 31, 8, 15, 0));
    assert_eq!(fields(&t.shift(Range::Month, 12).unwrap()), (2025, 1, 31, 8, 15, 0));
}

#[test]
fn shift_by_years_keeps_the_day_or_ends_february() {
    let t = at(2024, 2, 29, 8, 15, 0);
    assert_eq!(fields(&t.shift(Range::Year, 1).unwrap()), (2025, 2, 28, 8, 15, 0));
    assert_eq!(fields(&t.shift(Range::Year, 4).unwrap()), (2028, 2, 29, 8, 15, 0));
    assert_eq!(fields(&t.shift(Range::Year, -24).unwrap()), (2000, 2, 29, 8, 15, 0));
    assert_eq!(fields(&t.shift(Range::Year, -124).unwrap()), (1900, 2, 28, 8, 15, 0));
    assert_eq!(fields(&t.shift(Range::Year, -2025).unwrap()), (-1, 2, 28, 8, 15, 0));
    assert_eq!(fields(&t.shift(Range::Year, -2024).unwrap()), (0, 2, 29, 8, 15, 0));
}

#[test]
fn shift_of_a_month_floor_by_months_stays_floored() {
    let floored = at(2024, 1, 31, 8, 15, 7).floor(Range::Month);
    for amount in [-40, -13, -12, -1, 0, 1, 2, 11, 12, 25, 1000, -1000] {
        let moved = floored.shift(Range::Month, amount).unwrap();
        assert_eq!(moved.floor(Range::Month), moved);
        assert_eq!(moved.day(), 1);
    }
}

#[test]
fn shift_ends_where_the_years_end() {
    let last = at(262142, 12, 31, 23, 59, 59);
    assert!(last.shift(Range::Minute, 1).is_none());
    assert!(last.shift(Range::Hour, 1).is_none());
    assert!(last.shift(Range::Day, 1).is_none());
    assert!(last.shift(Range::Month, 1).is_none());
    assert!(last.shift(Range::Year, 1).is_none());
    assert_eq!(fields(&last.shift(Range::Minute, -1).unwrap()), (262142, 12, 31, 23, 58, 59));
    let first = at(-262143, 1, 1, 0, 0, 0);
    assert!(first.shift(Range::Minute, -1).is_none());
    assert!(first.shift(Range::Day, -1).is_none());
    assert!(first.shift(Range::Month, -1).is_none());
    assert!(first.shift(Range::Year, -1).is_none());
    assert_eq!(fields(&first.shift(Range::Day, 1).unwrap()), (-262143, 1, 2, 0, 0, 0));
    let t = at(2024, 6, 15, 12, 0, 0);
    assert!(t.shift(Range::Year, i32::MAX).is_none());
    assert!(t.shift(Range::Year, i32::MIN).is_none());
    assert!(t.shift(Range::Month, i32::MAX).is_none());
    assert!(t.shift(Range::Month, i32::MIN).is_none());
    assert!(t.shift(Range::Day, i32::MAX).is_none());
    assert!(t.shift(Range::Day, i32::MIN).is_none());
    assert!(t.shift(Range::Year, 260118).is_some());
    assert!(t.shift(Range::Year, 260119).is_none());
}

#[test]
fn shift_by_the_most_minutes_stays_in_the_years() {
    let t = at(2024, 6, 15, 12, 0, 0);
    let moved = t.shift(Range::Minute, i32::MAX).unwrap();
    let expected = naive(&t) + TimeDelta::minutes(i64::from(i32::MAX));
    assert_eq!(naive(&moved), expected);
    let back = t.shift(Range::Hour, i32::MIN).unwrap();
    assert_eq!(naive(&back), naive(&t) + TimeDelta::hours(i64::from(i32::MIN)));
}

#[test]
fn shift_agrees_with_chrono_and_chronoutil() {
    let starts = [
        at(2024, 1, 31, 23, 59, 59),
        at(2023, 3, 1, 0, 0, 0),
        at(1970, 1, 1, 0, 0, 0),
        at(-5, 2, 28, 12, 30, 30),
        at(9999, 12, 31, 10, 0, 1),
    ];
    for start in starts {
        for amount in [-100000, -1461, -366, -31, -1, 0, 1, 29, 365, 1461, 100000] {
            let n = naive(&start);
            assert_eq!(
                naive(&start.shift(Range::Minute, amount).unwrap()),
                n + TimeDelta::minutes(i64::from(amount))
            );
            assert_eq!(
                naive(&start.shift(Range::Hour, amount).unwrap()),
                n + TimeDelta::hours(i64::from(amount))
            );
            assert_eq!(
                naive(&start.shift(Range::Day, amount).unwrap()),
                n + TimeDelta::days(i64::from(amount))
            );
            assert_eq!(
                naive(&start.shift(Range::Month, amount).unwrap()),
                chronoutil::shift_months(n, amount)
            );
        }
        for amount in [-3000, -400, -100, -4, -1, 0, 1, 4, 100, 400, 3000] {
            assert_eq!(
                naive(&start.shift(Range::Year, amount).unwrap()),
                chronoutil::shift_years(naive(&start), amount)
            );
        }
    }
}

#[test]
fn is_before_reads_the_fields_in_order() {
    let t = at(2024, 6, 15, 12, 30, 30);
    assert!(!t.is_before(&t));
    assert!(t.is_same(&t));
    let later = [
        at(2025, 1, 1, 0, 0, 0),
        at(2024, 7, 1, 0, 0, 0),
        at(2024, 6, 16, 0, 0, 0),
        at(2024, 6, 15, 13, 0, 0),
        at(2024, 6, 15, 12, 31, 0),
        at(2024, 6, 15, 12, 30, 31),
    ];
    for other in later {
        assert!(t.is_before(&other));
        assert!(!other.is_before(&t));
        assert!(!t.is_same(&other));
        assert!(t < other);
        assert!(naive(&t) < naive(&other));
    }
}

#[test]
fn parse_from_str_reads_the_fields() {
    let t = Timestamp::parse_from_str("2024-03-15_12-30-45", "%Y-%m-%d_%H-%M-%S").unwrap();
    assert_eq!(fields(&t), (2024, 3, 15, 12, 30, 45));
    let short = Timestamp::parse_from_str("94/9/4 7:15", "%y/%m/%d %H:%M").unwrap();
    assert_eq!(fields(&short), (1994, 9, 4, 7, 15, 0));
}

#[test]
fn parse_from_str_drops_the_fraction_of_a_second() {
    let t = Timestamp::parse_from_str("2024-03-15 12:30:45.987", "%Y-%m-%d %H:%M:%S%.f").unwrap();
    assert_eq!(fields(&t), (2024, 3, 15, 12, 30, 45));
}

#[test]
fn parse_from_str_refuses_what_does_not_fit() {
    let bad = [
        ("2024-03-15", "%Y-%m-%d_%H-%M-%S"),
        ("2024-02-30_12-30-45", "%Y-%m-%d_%H-%M-%S"),
        ("2024-03-15_24-00-00", "%Y-%m-%d_%H-%M-%S"),
        ("2024-03-15_12-30-45trailing", "%Y-%m-%d_%H-%M-%S"),
        ("", "%Y-%m-%d_%H-%M-%S"),
        ("2024-03-15_12-30-45", "%Q"),
    ];
    for (text, format) in bad {
        assert!(matches!(
            Timestamp::parse_from_str(text, format),
            Err(TimestampError::InvalidFormat(_))
        ));
    }
}

#[test]
fn resolve_local_goes_by_the_time_zone() {
    let t = at(2024, 3, 31, 2, 30, 0);
    assert_eq!(Timestamp::resolve_local(t, true).unwrap(), t);
    assert!(matches!(
        Timestamp::resolve_local(t, false),
        Err(TimestampError::NoSingleLocalTime)
    ));
}

#[test]
fn format_writes_under_the_format() {
    let t = at(2024, 3, 5, 7, 8, 9);
    assert_eq!(t.format("%Y-%m-%d_%H-%M-%S").unwrap(), "2024-03-05_07-08-09");
    assert_eq!(t.format("%d.%m.%y %H:%M").unwrap(), "05.03.24 07:08");
    assert_eq!(t.format("plain").unwrap(), "plain");
    assert_eq!(t.format("").unwrap(), "");
}

#[test]
fn format_refuses_what_is_no_format() {
    let t = at(2024, 3, 5, 7, 8, 9);
    assert!(t.format("%Q").is_none());
    assert!(t.format("%Y-%m-%d %").is_none());
}

#[test]
fn format_writes_the_offset_of_the_local_zone() {
    let t = at(2024, 1, 15, 12, 8, 9);
    let local = naive(&t).and_local_timezone(chrono::Local).single();
    for format in ["%Y-%m-%d_%H-%M-%S%z", "%H:%M %:z", "%+"] {
        let expected = local.map(|instant| instant.format(format).to_string());
        assert_eq!(t.format(format), expected);
    }
    if local.is_some() {
        let written = t.format("%Y-%m-%d_%H-%M-%S%z").unwrap();
        assert!(written.starts_with("2024-01-15_12-08-09"));
        assert_eq!(written.len(), "2024-01-15_12-08-09+0000".len());
    }
}

#[test]
fn format_with_an_offset_reads_back() {
    let t = at(2024, 1, 15, 12, 8, 9);
    let format = "%Y-%m-%d_%H-%M-%S%z";
    if let Some(written) = t.format(format) {
        assert_eq!(Timestamp::parse_from_str(&written, format).unwrap(), t);
    }
}

#[test]
fn format_and_parse_go_round() {
    let t = at(1987, 11, 30, 23, 1, 59);
    let format = "%Y-%m-%d_%H-%M-%S";
    let text = t.format(format).unwrap();
    assert_eq!(Timestamp::parse_from_str(&text, format).unwrap(), t);
}

#[test]
fn humanized_and_to_string_write_the_fields() {
    let t = at(2024, 3, 5, 7, 8, 9);
    assert_eq!(t.humanized(), "2024-03-05 07:08:09");
    assert_eq!(t.to_string(), "2024-03-05_07-08-09");
    let late = at(2024, 12, 31, 23, 59, 59);
    assert_eq!(late.humanized(), "2024-12-31 23:59:59");
    assert_eq!(late.to_string(), "2024-12-31_23-59-59");
}

#[test]
fn humanized_and_to_string_write_as_chrono_does() {
    let times = [
        at(2024, 3, 5, 7, 8, 9),
        at(0, 1, 1, 0, 0, 0),
        at(1, 1, 1, 0, 0, 0),
        at(999, 12, 31, 23, 59, 59),
        at(9999, 12, 31, 23, 59, 59),
        at(10000, 1, 1, 0, 0, 0),
        at(-1, 6, 15, 12, 0, 0),
        at(-12345, 6, 15, 12, 0, 0),
        at(262142, 12, 31, 23, 59, 59),
        at(-262143, 1, 1, 0, 0, 0),
    ];
    for t in times {
        assert_eq!(t.humanized(), naive(&t).format("%Y-%m-%d %H:%M:%S").to_string());
        assert_eq!(t.to_string(), naive(&t).format("%Y-%m-%d_%H-%M-%S").to_string());
    }
    assert_eq!(at(-1, 6, 15, 12, 0, 0).humanized(), "-0001-06-15 12:00:00");
    assert_eq!(at(10000, 1, 1, 0, 0, 0).to_string(), "+10000-01-01_00-00-00");
}

#[test]
fn now_is_the_local_clock() {
    let before = chrono::Local::now().naive_local();
    let now = Timestamp::now();
    let after = chrono::Local::now().naive_local();
    let read = naive(&now);
    assert!(before.with_nanosecond(0).unwrap() <= read);
    assert!(read <= after);
    assert_eq!(read.year(), now.year());
}

#[test]
fn shift_reaches_the_first_and_the_last_second() {
    let last = at(262142, 12, 31, 23, 59, 59);
    let first = at(-262143, 1, 1, 0, 0, 0);
    assert_eq!(at(262142, 12, 31, 23, 58, 59).shift(Range::Minute, 1), Some(last));
    assert_eq!(at(262142, 12, 30, 23, 59, 59).shift(Range::Day, 1), Some(last));
    assert_eq!(at(262142, 11, 30, 23, 59, 59).shift(Range::Month, 1).map(|t| fields(&t)),
        Some((262142, 12, 30, 23, 59, 59)));
    assert_eq!(at(262141, 12, 31, 23, 59, 59).shift(Range::Year, 1), Some(last));
    assert_eq!(at(262142, 12, 1, 0, 0, 0).shift(Range::Month, 1), None);
    assert_eq!(at(-262143, 1, 1, 0, 1, 0).shift(Range::Minute, -1), Some(first));
    assert_eq!(at(-262143, 1, 2, 0, 0, 0).shift(Range::Day, -1), Some(first));
    assert_eq!(at(-262143, 2, 1, 0, 0, 0).shift(Range::Month, -1), Some(first));
    assert_eq!(at(-262142, 1, 1, 0, 0, 0).shift(Range::Year, -1), Some(first));
    assert_eq!(at(-262143, 1, 31, 0, 0, 0).shift(Range::Month, -1), None);
    assert_eq!(first.shift(Range::Year, 524285), Some(at(262142, 1, 1, 0, 0, 0)));
    assert_eq!(first.shift(Range::Year, 524286), None);
}
