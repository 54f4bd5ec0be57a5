use rattlebeaver::calendar::{leap_year, month_length};
use rattlebeaver::text::{
    chars_of, digit_count, ends_with, push_decimal, push_padded, span_from, starts_with,
};

fn chars(text: &str) -> Vec<char> {
    text.chars().collect()
}

#[test]
fn push_decimal_appends_the_digits() {
    let mut out = String::from("n=");
    push_decimal(&mut out, 0);
    assert_eq!(out, "n=0");
    push_decimal(&mut out, 7);
    push_decimal(&mut out, 10);
    push_decimal(&mut out, 905);
    assert_eq!(out, "n=0710905");
    let mut most = String::new();
    push_decimal(&mut most, u64::MAX);
    assert_eq!(most, "18446744073709551615");
}

#[test]
fn push_padded_fills_with_zeros_in_front() {
    let mut out = String::new();
    push_padded(&mut out, 7, 2);
    assert_eq!(out, "07");
    push_padded(&mut out, 12, 2);
    assert_eq!(out, "0712");
    push_padded(&mut out, 123, 2);
    assert_eq!(out, "0712123");
    push_padded(&mut out, 0, 4);
    assert_eq!(out, "07121230000");
    push_padded(&mut out, 5, 0);
    assert_eq!(out, "071212300005");
}

#[test]
fn digit_count_counts_the_digits() {
    assert_eq!(digit_count(0), 1);
    assert_eq!(digit_count(9), 1);
    assert_eq!(digit_count(10), 2);
    assert_eq!(digit_count(99999), 5);
    assert_eq!(digit_count(100000), 6);
    assert_eq!(digit_count(u64::MAX), 20);
}

#[test]
fn chars_of_gives_every_character() {
    assert_eq!(chars_of(""), Vec::<char>::new());
    assert_eq!(chars_of("a.b"), vec!['a', '.', 'b']);
    assert_eq!(chars_of("\u{e4}\u{21e4}z"), vec!['\u{e4}', '\u{21e4}', 'z']);
}

#[test]
fn starts_with_and_ends_with_compare_the_ends() {
    assert!(starts_with(&chars("backup.tar.gz"), &chars("back")));
    assert!(starts_with(&chars("backup.tar.gz"), &chars("")));
    assert!(starts_with(&chars("back"), &chars("back")));
    assert!(!starts_with(&chars("bac"), &chars("back")));
    assert!(!starts_with(&chars("backup"), &chars("bask")));
    assert!(ends_with(&chars("backup.tar.gz"), &chars(".tar.gz")));
    assert!(ends_with(&chars(".tar.gz"), &chars(".tar.gz")));
    assert!(ends_with(&chars("x"), &chars("")));
    assert!(!ends_with(&chars("tar.gz"), &chars(".tar.gz")));
    assert!(!ends_with(&chars("backup.tar.gz.old"), &chars(".tar.gz")));
    assert!(!ends_with(&chars("backup.tar.bz"), &chars(".tar.gz")));
}

#[test]
fn span_from_counts_up_to_the_first_mark() {
    let text = chars("ab.cd.e");
    assert_eq!(span_from(&text, 0, '.'), 2);
    assert_eq!(span_from(&text, 2, '.'), 0);
    assert_eq!(span_from(&text, 3, '.'), 2);
    assert_eq!(span_from(&text, 6, '.'), 1);
    assert_eq!(span_from(&text, 7, '.'), 0);
    assert_eq!(span_from(&text, 0, '!'), 7);
}

#[test]
fn leap_years_come_every_fourth_year_but_not_every_century() {
    for year in [2024, 2000, 1600, 0, -4, -400, 2400] {
        assert!(leap_year(year));
    }
    for year in [2023, 1900, 2100, 1, -1, -100, 2200] {
        assert!(!leap_year(year));
    }
}

#[test]
fn month_length_is_that_of_the_calendar() {
    let lengths = [31, 28, 31, 30, 31, 30, 31, 31, 30, 31, 30, 31];
    for month in 1..=12u32 {
        assert_eq!(month_length(2023, month), lengths[(month - 1) as usize]);
    }
    assert_eq!(month_length(2024, 2), 29);
    assert_eq!(month_length(1900, 2), 28);
    assert_eq!(month_length(2000, 2), 29);
    assert_eq!(month_length(2024, 0), 0);
    assert_eq!(month_length(2024, 13), 0);
}
