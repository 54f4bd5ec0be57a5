//! Local wall-clock time at whole seconds.

use vstd::prelude::*;
use chrono::{Datelike, NaiveDate, TimeDelta, Timelike};
use std::fmt::Write;
use vstd::string::StringExecFns;
use crate::calendar::{MAX_YEAR, MIN_YEAR, month_length};
use crate::civil::{Civil, max_seconds, min_seconds};
use crate::text::push_padded;

verus! {

/// The granularities at which backups are kept.
#[derive(Debug, Clone, Copy, Hash, PartialEq, Eq, Structural)]
pub enum Range {
    Minute,
    Hour,
    Day,
    Month,
    Year,
}

/// A point of local time, to the second.
#[derive(Debug, Clone, Copy, PartialEq, Eq, PartialOrd, Ord, Hash, Structural)]
pub struct Timestamp {
    year: i32,
    month: u32,
    day: u32,
    hour: u32,
    minute: u32,
    second: u32,
}

impl View for Timestamp {
    type V = Civil;

    closed spec fn view(&self) -> Civil {
        Civil {
            year: self.year as int,
            month: self.month as int,
            day: self.day as int,
            hour: self.hour as int,
            minute: self.minute as int,
            second: self.second as int,
        }
    }
}

/// What the timestamps of a sequence stand for, one by one.
pub open spec fn readings(stamps: Seq<Timestamp>) -> Seq<Civil> {
    Seq::new(stamps.len(), |i: int| stamps[i]@)
}

/// Why a text gives no timestamp.
#[derive(Debug)]
pub enum TimestampError {
    /// The text does not read as a date and time under the format.
    InvalidFormat(chrono::ParseError),
    /// The local time zone skips the time read, or passes it twice.
    NoSingleLocalTime,
}

impl Timestamp {
    #[verifier::type_invariant]
    spec fn valid(self) -> bool {
        self@.wf()
    }

    /// The timestamp of the given reading, if there is such a second.
    pub fn new(year: i32, month: u32, day: u32, hour: u32, minute: u32, second: u32) -> (made:
        Option<Timestamp>)
        ensures
            made matches Some(t) ==> t@ == (Civil {
                year: year as int,
                month: month as int,
                day: day as int,
                hour: hour as int,
                minute: minute as int,
                second: second as int,
            }),
            made is Some <==> (Civil {
                year: year as int,
                month: month as int,
                day: day as int,
                hour: hour as int,
                minute: minute as int,
                second: second as int,
            }).wf(),
    {
        if year < MIN_YEAR || year > MAX_YEAR || day < 1 || day > month_length(year, month)
            || hour >= 24 || minute >= 60 || second >= 60 {
            None
        } else {
            Some(Timestamp { year, month, day, hour, minute, second })
        }
    }

    /// The local time of the machine's clock, cut to the second. Which time
    /// it is, is the clock's affair; that it names a second that exists is
    /// what chrono reads every clock as.
    pub fn now() -> (now: Timestamp)
        ensures
            now@.wf(),
    {
        let (year, month, day, hour, minute, second) = local_clock();
        Timestamp { year, month, day, hour, minute, second }
    }

    /// Reads `s` as a date and time under `format`, and asks the local time
    /// zone whether exactly one instant reads so.
    pub fn parse_from_str(s: &str, format: &str) -> (parsed: Result<Timestamp, TimestampError>)
        ensures
            parsed matches Ok(t) ==> parsed_time(s@, format@) == Some(t@),
            parsed matches Err(TimestampError::InvalidFormat(_)) <==> parsed_time(s@, format@) is None,
    {
        match read_time(s, format) {
            Err(error) => Err(TimestampError::InvalidFormat(error)),
            Ok(time) => {
                let single = has_one_local_instant(&time);
                Timestamp::resolve_local(time, single)
            },
        }
    }

    /// What parsing gives for a time read from a text, once the local time
    /// zone has said whether it has exactly one instant that reads so.
    pub fn resolve_local(time: Timestamp, single: bool) -> (resolved: Result<Timestamp, TimestampError>)
        ensures
            single ==> resolved == Ok::<Timestamp, TimestampError>(time),
            !single ==> resolved == Err::<Timestamp, TimestampError>(TimestampError::NoSingleLocalTime),
    {
        if single {
            Ok(time)
        } else {
            Err(TimestampError::NoSingleLocalTime)
        }
    }

    /// Every timestamp names a second that exists: a call of this teaches
    /// the verifier so of `self`, and does nothing else.
    pub fn confirm_wf(&self)
        ensures
            self@.wf(),
    {
        proof {
            use_type_invariant(self);
        }
    }

    pub fn year(&self) -> (year: i32)
        ensures
            year == self@.year,
    {
        self.year
    }

    pub fn month(&self) -> (month: u32)
        ensures
            month == self@.month,
    {
        self.month
    }

    pub fn day(&self) -> (day: u32)
        ensures
            day == self@.day,
    {
        self.day
    }

    pub fn hour(&self) -> (hour: u32)
        ensures
            hour == self@.hour,
    {
        self.hour
    }

    pub fn minute(&self) -> (minute: u32)
        ensures
            minute == self@.minute,
    {
        self.minute
    }

    pub fn second(&self) -> (second: u32)
        ensures
            second == self@.second,
    {
        self.second
    }

    /// Whether this timestamp is strictly earlier than `other`.
    pub fn is_before(&self, other: &Timestamp) -> (earlier: bool)
        ensures
            earlier == self@.before(other@),
    {
        proof {
            use_type_invariant(self);
            use_type_invariant(other);
            self@.lemma_order_by_fields(other@);
        }
        if self.year != other.year {
            self.year < other.year
        } else if self.month != other.month {
            self.month < other.month
        } else if self.day != other.day {
            self.day < other.day
        } else if self.hour != other.hour {
            self.hour < other.hour
        } else if self.minute != other.minute {
            self.minute < other.minute
        } else {
            self.second < other.second
        }
    }

    /// Whether the two timestamps name the same second.
    pub fn is_same(&self, other: &Timestamp) -> (same: bool)
        ensures
            same == (self@ == other@),
            same == (self@.seconds() == other@.seconds()),
    {
        proof {
            use_type_invariant(self);
            use_type_invariant(other);
            self@.lemma_order_by_fields(other@);
        }
        self.year == other.year && self.month == other.month && self.day == other.day
            && self.hour == other.hour && self.minute == other.minute && self.second
            == other.second
    }

    /// The start of the unit of `range` that holds this timestamp, which is
    /// never later than the timestamp.
    pub fn floor(&self, range: Range) -> (floored: Timestamp)
        ensures
            floored@ == self@.floor(range),
            floored@.not_after(self@),
    {
        proof {
            use_type_invariant(self);
            self@.lemma_floor_ladder();
        }
        let minute = Timestamp { second: 0, ..*self };
        let hour = Timestamp { minute: 0, ..minute };
        let day = Timestamp { hour: 0, ..hour };
        let month = Timestamp { day: 1, ..day };
        let year = Timestamp { month: 1, ..month };
        match range {
            Range::Minute => minute,
            Range::Hour => hour,
            Range::Day => day,
            Range::Month => month,
            Range::Year => year,
        }
    }

    /// This timestamp moved by `amount` units of `range`; `None` where that
    /// leaves the years that a timestamp can name.
    pub fn shift(&self, range: Range, amount: i32) -> (moved: Option<Timestamp>)
        ensures
            moved is Some <==> self@.shift(range, amount as int) is Some,
            moved matches Some(t) ==> self@.shift(range, amount as int) == Some(t@),
            moved matches Some(t) ==> self@.is_shift(range, amount as int, t@),
    {
        proof {
            use_type_invariant(self);
            self@.lemma_plus_months_wf(amount as int);
            self@.lemma_plus_months_wf(12 * amount);
        }
        match range {
            Range::Minute => self.plus_seconds(60 * (amount as i64)),
            Range::Hour => self.plus_seconds(3600 * (amount as i64)),
            Range::Day => self.plus_seconds(86400 * (amount as i64)),
            Range::Month => self.plus_months(amount as i64),
            Range::Year => self.plus_months(12 * (amount as i64)),
        }
    }

    fn plus_seconds(&self, seconds: i64) -> (moved: Option<Timestamp>)
        ensures
            moved is Some <==> self@.plus_seconds(seconds as int) is Some,
            moved matches Some(t) ==> self@.plus_seconds(seconds as int) == Some(t@),
            moved matches Some(t) ==> t@.wf() && t@.seconds() == self@.seconds() + seconds,
    {
        proof {
            use_type_invariant(self);
        }
        let moved = clock_add(self, seconds);
        proof {
            if let Some(t) = moved {
                let total = self@.seconds() + seconds;
                let chosen = Civil::at_seconds(total);
                assert(t@.wf() && t@.seconds() == total);
                chosen.lemma_order_by_fields(t@);
            }
        }
        moved
    }

    fn plus_months(&self, months: i64) -> (moved: Option<Timestamp>)
        ensures
            moved is Some <==> self@.plus_months(months as int) is Some,
            moved matches Some(t) ==> self@.plus_months(months as int) == Some(t@),
    {
        proof {
            use_type_invariant(self);
        }
        if months < -2147483648 || months > 2147483635 {
            None
        } else {
            calendar_add(self, months as i32)
        }
    }

    /// This timestamp written under a format of chrono's `strftime` kind.
    /// A format that a local date and time can be written under gives that
    /// text. One that asks for more, the offset from UTC, is written with
    /// the offset that the machine's time zone gives this timestamp; it
    /// gives `None` where the zone has no single offset for it. So does
    /// what is no format.
    pub fn format(&self, format: &str) -> (text: Option<String>)
        ensures
            formatted_time(self@, format@) matches Some(plain) ==> text matches Some(written)
                && written@ == plain,
    {
        proof {
            use_type_invariant(self);
        }
        match write_time(self, format) {
            Some(plain) => Some(plain),
            None => write_local_time(self, format),
        }
    }

    /// The timestamp for a reader: `2024-03-15 12:30:00`.
    pub fn humanized(&self) -> (text: String)
        ensures
            text@ == self@.text(seq!['-'], seq![' '], seq![':']),
    {
        proof {
            reveal_strlit("-");
            reveal_strlit(" ");
            reveal_strlit(":");
        }
        let text = self.write("-", " ", ":");
        assert("-"@ =~= seq!['-'] && " "@ =~= seq![' '] && ":"@ =~= seq![':']);
        text
    }

    /// The timestamp for a file name, which sorts as the time does within
    /// the years 0 to 9999: `2024-03-15_12-30-00`.
    pub fn to_string(&self) -> (text: String)
        ensures
            text@ == self@.text(seq!['-'], seq!['_'], seq!['-']),
    {
        proof {
            reveal_strlit("-");
            reveal_strlit("_");
        }
        let text = self.write("-", "_", "-");
        assert("-"@ =~= seq!['-'] && "_"@ =~= seq!['_']);
        text
    }

    fn write(&self, dash: &str, gap: &str, colon: &str) -> (text: String)
        ensures
            text@ == self@.text(dash@, gap@, colon@),
    {
        proof {
            use_type_invariant(self);
            reveal_strlit("-");
            reveal_strlit("+");
        }
        let mut text = String::new();
        if self.year < 0 {
            text.append("-");
            push_padded(&mut text, (-(self.year as i64)) as u64, 4);
        } else if self.year > 9999 {
            text.append("+");
            push_padded(&mut text, self.year as u64, 4);
        } else {
            push_padded(&mut text, self.year as u64, 4);
        }
        assert(text@ =~= self@.year_text());
        text.append(dash);
        push_padded(&mut text, self.month as u64, 2);
        text.append(dash);
        push_padded(&mut text, self.day as u64, 2);
        text.append(gap);
        push_padded(&mut text, self.hour as u64, 2);
        text.append(colon);
        push_padded(&mut text, self.minute as u64, 2);
        text.append(colon);
        push_padded(&mut text, self.second as u64, 2);
        assert(text@ =~= self@.text(dash@, gap@, colon@));
        text
    }
}

/// The error of chrono's parsing, carried along unopened.
#[verifier::external_type_specification]
#[verifier::external_body]
pub struct ExParseError(chrono::ParseError);

/// What `chrono::NaiveDateTime::parse_from_str` reads out of `text` under
/// `format`, cut to whole seconds; `None` where it reports an error.
pub uninterp spec fn parsed_time(text: Seq<char>, format: Seq<char>) -> Option<Civil>;

/// What `chrono::NaiveDateTime::format` writes for `time` under `format`;
/// `None` where writing it reports an error, as it does for a format that
/// asks for an offset from UTC.
pub uninterp spec fn formatted_time(time: Civil, format: Seq<char>) -> Option<Seq<char>>;

/// `chrono::NaiveDateTime::parse_from_str`, the fraction of a second
/// dropped. What it reads is a date and a time of day that exist, in the
/// years chrono can name.
#[verifier::external_body]
fn read_time(text: &str, format: &str) -> (read: Result<Timestamp, chrono::ParseError>)
    ensures
        read matches Ok(t) ==> t@.wf() && parsed_time(text@, format@) == Some(t@),
        read is Err ==> parsed_time(text@, format@) is None,
{
    let time = chrono::NaiveDateTime::parse_from_str(text, format)?;
    let (year, month, day) = (time.year(), time.month(), time.day());
    Ok(Timestamp { year, month, day, hour: time.hour(), minute: time.minute(), second: time.second() })
}

/// `chrono::NaiveDateTime::format`, written into a string.
#[verifier::external_body]
fn write_time(t: &Timestamp, format: &str) -> (text: Option<String>)
    requires
        t@.wf(),
    ensures
        text matches Some(s) ==> formatted_time(t@, format@) == Some(s@),
        text is None ==> formatted_time(t@, format@) is None,
{
    let date = NaiveDate::from_ymd_opt(t.year, t.month, t.day)?;
    let time = date.and_hms_opt(t.hour, t.minute, t.second)?;
    let mut text = String::new();
    write!(text, "{}", time.format(format)).ok()?;
    Some(text)
}

/// `chrono::NaiveDateTime::and_local_timezone` with `chrono::Local`, then
/// `single`, then `chrono::DateTime::format`, written into a string: `t` as
/// the instant that the machine's time zone reads so, under `format`. What
/// is written goes by the time zone, so nothing is claimed of it.
#[verifier::external_body]
fn write_local_time(t: &Timestamp, format: &str) -> (text: Option<String>)
    requires
        t@.wf(),
{
    let date = NaiveDate::from_ymd_opt(t.year, t.month, t.day)?;
    let time = date.and_hms_opt(t.hour, t.minute, t.second)?;
    let local = time.and_local_timezone(chrono::Local).single()?;
    let mut text = String::new();
    write!(text, "{}", local.format(format)).ok()?;
    Some(text)
}

/// `chrono::NaiveDateTime::checked_add_signed` with a `TimeDelta` of whole
/// seconds: the time that many seconds away on the calendar, every day having
/// 86400 seconds, or `None` where that time lies outside the years chrono
/// can name, which are the years of a timestamp.
#[verifier::external_body]
fn clock_add(t: &Timestamp, seconds: i64) -> (sum: Option<Timestamp>)
    requires
        t@.wf(),
    ensures
        sum is Some <==> min_seconds() <= t@.seconds() + seconds <= max_seconds(),
        sum matches Some(u) ==> u@.wf() && u@.seconds() == t@.seconds() + seconds,
{
    let date = NaiveDate::from_ymd_opt(t.year, t.month, t.day)?;
    let start = date.and_hms_opt(t.hour, t.minute, t.second)?;
    let end = start.checked_add_signed(TimeDelta::try_seconds(seconds)?)?;
    let (year, month, day) = (end.year(), end.month(), end.day());
    Some(Timestamp { year, month, day, hour: end.hour(), minute: end.minute(), second: end.second() })
}

/// `chronoutil::delta::shift_months_opt` on a `chrono::NaiveDateTime`: the
/// same clock reading `months` calendar months away, on the same day of the
/// month or, where the month reached is shorter, on its last day; `None`
/// where the year reached is one chrono cannot name. The bound on `months`
/// keeps the sum of month and `months` that chronoutil forms within `i32`.
#[verifier::external_body]
fn calendar_add(t: &Timestamp, months: i32) -> (sum: Option<Timestamp>)
    requires
        t@.wf(),
        months <= i32::MAX - 12,
    ensures
        sum is Some <==> t@.plus_months(months as int) is Some,
        sum matches Some(u) ==> t@.plus_months(months as int) == Some(u@),
{
    let date = NaiveDate::from_ymd_opt(t.year, t.month, t.day)?;
    let start = date.and_hms_opt(t.hour, t.minute, t.second)?;
    let end = chronoutil::delta::shift_months_opt(start, months)?;
    let (year, month, day) = (end.year(), end.month(), end.day());
    Some(Timestamp { year, month, day, hour: end.hour(), minute: end.minute(), second: end.second() })
}

/// `chrono::NaiveDateTime::and_local_timezone` with `chrono::Local`, then
/// `single`: whether the machine's time zone has exactly one instant that
/// reads as `t`. The answer is the time zone's, so nothing is claimed of it.
#[verifier::external_body]
fn has_one_local_instant(t: &Timestamp) -> (one: bool)
    requires
        t@.wf(),
{
    let date = NaiveDate::from_ymd_opt(t.year, t.month, t.day);
    let time = date.and_then(|date| date.and_hms_opt(t.hour, t.minute, t.second));
    time.and_then(|time| time.and_local_timezone(chrono::Local).single()).is_some()
}

/// `chrono::Local::now`, then `naive_local`, read as year, month, day,
/// hour, minute and second of the local calendar and clock. What chrono
/// hands out is a date and a time of day that exist, in the years chrono
/// can name; which of them, is the clock's affair. Chrono gives up on a
/// clock that stands before the year 1970 or beyond its years.
#[verifier::external_body]
fn local_clock() -> (reading: (i32, u32, u32, u32, u32, u32))
    ensures
        (Civil {
            year: reading.0 as int,
            month: reading.1 as int,
            day: reading.2 as int,
            hour: reading.3 as int,
            minute: reading.4 as int,
            second: reading.5 as int,
        }).wf(),
{
    let now = chrono::Local::now().naive_local();
    (now.year(), now.month(), now.day(), now.hour(), now.minute(), now.second())
}

} // verus!
