use rattlebeaver::config::{Config, Ranges, RollingRange};
use rattlebeaver::timestamp::Range;

#[test]
fn default_config() {
    Config::default();
}

#[test]
fn default_config_has_the_values_of_a_new_file() {
    let config = Config::default();
    assert_eq!(config.archive.prefix, ".rattlebeaver.");
    assert_eq!(config.archive.timestamp_format, "%Y-%m-%d_%H-%M-%S");
    assert_eq!(config.ranges.latest, 10);
    let rule = |total| RollingRange {
        total,
        allow_sparse: true,
        include_first: true,
        include_last: true,
    };
    assert_eq!(config.ranges.minutes, rule(3));
    assert_eq!(config.ranges.hours, rule(5));
    assert_eq!(config.ranges.days, rule(10));
    assert_eq!(config.ranges.months, rule(12));
    assert_eq!(config.ranges.years, rule(10));
}

#[test]
fn iter_ranges_goes_from_minutes_to_years() {
    let rule = |total| RollingRange {
        total,
        allow_sparse: total % 2 == 0,
        include_first: true,
        include_last: false,
    };
    let ranges = Ranges {
        latest: 7,
        minutes: rule(1),
        hours: rule(2),
        days: rule(3),
        months: rule(4),
        years: rule(5),
    };
    let rules = ranges.iter_ranges();
    assert_eq!(rules[0], (Range::Minute, &rule(1)));
    assert_eq!(rules[1], (Range::Hour, &rule(2)));
    assert_eq!(rules[2], (Range::Day, &rule(3)));
    assert_eq!(rules[3], (Range::Month, &rule(4)));
    assert_eq!(rules[4], (Range::Year, &rule(5)));
}

#[test]
fn keeping_is_sparse_and_keeps_both_ends() {
    assert_eq!(
        RollingRange::keeping(4),
        RollingRange { total: 4, allow_sparse: true, include_first: true, include_last: true }
    );
}
