//! The reading of calendar and clock that a timestamp stands for, and what
//! holds of the order, the floors and the shifts of such readings.

use vstd::prelude::*;
use crate::calendar::{
    MAX_YEAR, MIN_YEAR, day_number, days_before_month, days_in_month, is_date,
    lemma_day_number_order, lemma_december, lemma_year_length,
};
use crate::text::padded;
use crate::timestamp::Range;

verus! {

/// What a timestamp stands for: a reading of calendar and clock.
pub struct Civil {
    pub year: int,
    pub month: int,
    pub day: int,
    pub hour: int,
    pub minute: int,
    pub second: int,
}

/// The seconds of the first second that a timestamp can name.
pub open spec fn min_seconds() -> int {
    (Civil { year: MIN_YEAR as int, month: 1, day: 1, hour: 0, minute: 0, second: 0 }).seconds()
}

/// The seconds of the last second that a timestamp can name.
pub open spec fn max_seconds() -> int {
    (Civil { year: MAX_YEAR as int, month: 12, day: 31, hour: 23, minute: 59, second: 59 }).seconds()
}

impl Civil {
    /// The reading names a second that exists.
    pub open spec fn wf(self) -> bool {
        &&& is_date(self.year, self.month, self.day)
        &&& 0 <= self.hour < 24
        &&& 0 <= self.minute < 60
        &&& 0 <= self.second < 60
    }

    /// Seconds since 0001-01-01 00:00:00, every day having 86400 of them.
    pub open spec fn seconds(self) -> int {
        day_number(self.year, self.month, self.day) * 86400 + self.hour * 3600 + self.minute * 60
            + self.second
    }

    /// Strictly earlier.
    pub open spec fn before(self, other: Civil) -> bool {
        self.seconds() < other.seconds()
    }

    /// Not later.
    pub open spec fn not_after(self, other: Civil) -> bool {
        self.seconds() <= other.seconds()
    }

    /// Earlier as the fields read, from the year down to the second.
    pub open spec fn fields_before(self, other: Civil) -> bool {
        ||| self.year < other.year
        ||| self.year == other.year && self.month < other.month
        ||| self.year == other.year && self.month == other.month && self.day < other.day
        ||| self.year == other.year && self.month == other.month && self.day == other.day
            && self.hour < other.hour
        ||| self.year == other.year && self.month == other.month && self.day == other.day
            && self.hour == other.hour && self.minute < other.minute
        ||| self.year == other.year && self.month == other.month && self.day == other.day
            && self.hour == other.hour && self.minute == other.minute && self.second
            < other.second
    }

    /// The start of the unit of `range` that holds this time: each step up
    /// the ladder resets one more field than the step below it.
    pub open spec fn floor(self, range: Range) -> Civil {
        match range {
            Range::Minute => Civil { second: 0, ..self },
            Range::Hour => Civil { minute: 0, second: 0, ..self },
            Range::Day => Civil { hour: 0, minute: 0, second: 0, ..self },
            Range::Month => Civil { day: 1, hour: 0, minute: 0, second: 0, ..self },
            Range::Year => Civil { month: 1, day: 1, hour: 0, minute: 0, second: 0, ..self },
        }
    }

    /// The time with the given seconds.
    pub open spec fn at_seconds(seconds: int) -> Civil {
        choose|c: Civil| c.wf() && c.seconds() == seconds
    }

    /// This time moved by a number of seconds; `None` where that leaves the
    /// years that a timestamp can name.
    pub open spec fn plus_seconds(self, seconds: int) -> Option<Civil> {
        let total = self.seconds() + seconds;
        if min_seconds() <= total <= max_seconds() {
            Some(Civil::at_seconds(total))
        } else {
            None
        }
    }

    /// This time moved by a number of calendar months: the clock reading
    /// stays, and the day too unless the month reached is shorter, which
    /// then ends the move on its last day. `None` where that leaves the
    /// years that a timestamp can name.
    pub open spec fn plus_months(self, months: int) -> Option<Civil> {
        let index = self.year * 12 + (self.month - 1) + months;
        let year = index / 12;
        let month = index % 12 + 1;
        let length = days_in_month(year, month);
        if MIN_YEAR <= year <= MAX_YEAR {
            Some(Civil { year, month, day: if self.day <= length { self.day } else { length }, ..self })
        } else {
            None
        }
    }

    /// This time moved by `amount` units of `range`: a fixed number of
    /// seconds for minutes, hours and days, calendar months for months and
    /// years.
    pub open spec fn shift(self, range: Range, amount: int) -> Option<Civil> {
        match range {
            Range::Minute => self.plus_seconds(60 * amount),
            Range::Hour => self.plus_seconds(3600 * amount),
            Range::Day => self.plus_seconds(86400 * amount),
            Range::Month => self.plus_months(amount),
            Range::Year => self.plus_months(12 * amount),
        }
    }

    /// `to` is this time moved by `amount` units of `range`.
    pub open spec fn is_shift(self, range: Range, amount: int, to: Civil) -> bool {
        &&& to.wf()
        &&& match range {
            Range::Minute => to.seconds() == self.seconds() + 60 * amount,
            Range::Hour => to.seconds() == self.seconds() + 3600 * amount,
            Range::Day => to.seconds() == self.seconds() + 86400 * amount,
            Range::Month => self.plus_months(amount) == Some(to),
            Range::Year => self.plus_months(12 * amount) == Some(to),
        }
    }

    /// The second that follows this one.
    pub open spec fn next(self) -> Civil {
        if self.second < 59 {
            Civil { second: self.second + 1, ..self }
        } else if self.minute < 59 {
            Civil { minute: self.minute + 1, second: 0, ..self }
        } else if self.hour < 23 {
            Civil { hour: self.hour + 1, minute: 0, second: 0, ..self }
        } else if self.day < days_in_month(self.year, self.month) {
            Civil { day: self.day + 1, hour: 0, minute: 0, second: 0, ..self }
        } else if self.month < 12 {
            Civil { month: self.month + 1, day: 1, hour: 0, minute: 0, second: 0, ..self }
        } else {
            Civil { year: self.year + 1, month: 1, day: 1, hour: 0, minute: 0, second: 0 }
        }
    }

    /// The year in at least four digits, with a sign where it is not one
    /// of the years 0 to 9999.
    pub open spec fn year_text(self) -> Seq<char> {
        if 0 <= self.year <= 9999 {
            padded(self.year as nat, 4)
        } else if self.year < 0 {
            seq!['-'] + padded((-self.year) as nat, 4)
        } else {
            seq!['+'] + padded(self.year as nat, 4)
        }
    }

    /// Year, month, day, hour, minute and second, each but the year in two
    /// digits: `dash` inside the date, `gap` after it, `colon` inside the
    /// time.
    pub open spec fn text(self, dash: Seq<char>, gap: Seq<char>, colon: Seq<char>) -> Seq<char> {
        self.year_text() + dash + padded(self.month as nat, 2) + dash + padded(self.day as nat, 2)
            + gap + padded(self.hour as nat, 2) + colon + padded(self.minute as nat, 2) + colon
            + padded(self.second as nat, 2)
    }
}

impl Civil {
    /// The order of the seconds is the order in which the fields read.
    pub proof fn lemma_order_by_fields(self, other: Civil)
        requires
            self.wf(),
            other.wf(),
        ensures
            self.before(other) == self.fields_before(other),
            self.seconds() == other.seconds() <==> self == other,
    {
        lemma_day_number_order(
            self.year,
            self.month,
            self.day,
            other.year,
            other.month,
            other.day,
        );
        lemma_day_number_order(
            other.year,
            other.month,
            other.day,
            self.year,
            self.month,
            self.day,
        );
    }

    /// A floor names a second that exists, and is its own floor.
    pub proof fn lemma_floor_wf(self, range: Range)
        requires
            self.wf(),
        ensures
            self.floor(range).wf(),
            self.floor(range).floor(range) == self.floor(range),
    {
    }

    /// Flooring never moves a time later, and a coarser range floors no
    /// later than a finer one:
    /// year, month, day, hour, minute, then the time itself.
    pub proof fn lemma_floor_ladder(self)
        requires
            self.wf(),
        ensures
            self.floor(Range::Year).not_after(self.floor(Range::Month)),
            self.floor(Range::Month).not_after(self.floor(Range::Day)),
            self.floor(Range::Day).not_after(self.floor(Range::Hour)),
            self.floor(Range::Hour).not_after(self.floor(Range::Minute)),
            self.floor(Range::Minute).not_after(self),
    {
        self.floor(Range::Month).lemma_order_by_fields(self.floor(Range::Year));
        self.floor(Range::Day).lemma_order_by_fields(self.floor(Range::Month));
        self.floor(Range::Hour).lemma_order_by_fields(self.floor(Range::Day));
        self.floor(Range::Minute).lemma_order_by_fields(self.floor(Range::Hour));
        self.lemma_order_by_fields(self.floor(Range::Minute));
    }

    /// Of two times, the earlier has the earlier floor, or the same.
    pub proof fn lemma_floor_monotone(self, later: Civil, range: Range)
        requires
            self.wf(),
            later.wf(),
            self.not_after(later),
        ensures
            self.floor(range).not_after(later.floor(range)),
    {
        later.lemma_order_by_fields(self);
        later.floor(range).lemma_order_by_fields(self.floor(range));
    }

    /// A month-floored time moved by whole months is month-floored still.
    pub proof fn lemma_month_shift_floored(self, months: int)
        requires
            self.wf(),
        ensures
            self.floor(Range::Month).shift(Range::Month, months) matches Some(moved)
                ==> moved.floor(Range::Month) == moved,
    {
    }

    /// A time moved by whole months names a second that exists.
    pub proof fn lemma_plus_months_wf(self, months: int)
        requires
            self.wf(),
        ensures
            self.plus_months(months) matches Some(moved) ==> moved.wf(),
    {
    }

    /// Moved from one floored time, the lesser amount gives the earlier time.
    pub proof fn lemma_shift_order(self, range: Range, less: int, more: int, near: Civil, far: Civil)
        requires
            self.wf(),
            self.floor(range) == self,
            less < more,
            self.is_shift(range, less, near),
            self.is_shift(range, more, far),
        ensures
            near.before(far),
    {
        near.lemma_order_by_fields(far);
    }

    /// But for the last, every second has one that follows it.
    pub proof fn lemma_next(self)
        requires
            self.wf(),
            self.seconds() < max_seconds(),
        ensures
            self.next().wf(),
            self.next().seconds() == self.seconds() + 1,
    {
        if self.second < 59 || self.minute < 59 || self.hour < 23 || self.day < days_in_month(
            self.year,
            self.month,
        ) {
        } else if self.month < 12 {
            assert(days_before_month(self.year, self.month + 1) == days_before_month(
                self.year,
                self.month,
            ) + days_in_month(self.year, self.month));
        } else {
            lemma_december(self.year);
            lemma_december(MAX_YEAR as int);
            lemma_year_length(self.year);
            assert(days_before_month(self.year + 1, 1) == 0);
            assert(self.year < MAX_YEAR);
        }
    }

    /// Every count of seconds between the first and the last is the count
    /// of exactly one time.
    pub proof fn lemma_at_seconds(seconds: int)
        requires
            min_seconds() <= seconds <= max_seconds(),
        ensures
            Civil::at_seconds(seconds).wf(),
            Civil::at_seconds(seconds).seconds() == seconds,
        decreases seconds - min_seconds(),
    {
        if seconds == min_seconds() {
            let first = Civil { year: MIN_YEAR as int, month: 1, day: 1, hour: 0, minute: 0, second: 0 };
            assert(first.wf() && first.seconds() == seconds);
        } else {
            Civil::lemma_at_seconds(seconds - 1);
            let before = Civil::at_seconds(seconds - 1);
            before.lemma_next();
            assert(before.next().wf() && before.next().seconds() == seconds);
        }
    }

    /// What `shift` gives is a time that exists, as far from this one as
    /// was asked.
    pub proof fn lemma_shift(self, range: Range, amount: int)
        requires
            self.wf(),
        ensures
            self.shift(range, amount) matches Some(moved) ==> self.is_shift(range, amount, moved),
    {
        match range {
            Range::Minute => {
                if self.plus_seconds(60 * amount) is Some {
                    Civil::lemma_at_seconds(self.seconds() + 60 * amount);
                }
            },
            Range::Hour => {
                if self.plus_seconds(3600 * amount) is Some {
                    Civil::lemma_at_seconds(self.seconds() + 3600 * amount);
                }
            },
            Range::Day => {
                if self.plus_seconds(86400 * amount) is Some {
                    Civil::lemma_at_seconds(self.seconds() + 86400 * amount);
                }
            },
            Range::Month => {
                self.lemma_plus_months_wf(amount);
            },
            Range::Year => {
                self.lemma_plus_months_wf(12 * amount);
            },
        }
    }
}

/// Every time of the sequence names a second that exists.
pub open spec fn all_wf(times: Seq<Civil>) -> bool {
    forall|i: int| 0 <= i < times.len() ==> (#[trigger] times[i]).wf()
}

/// Each time is strictly earlier than those behind it.
pub open spec fn ascending(times: Seq<Civil>) -> bool {
    forall|i: int, j: int|
        #![trigger times[i], times[j]]
        0 <= i < j < times.len() ==> times[i].before(times[j])
}

/// Each time is strictly later than those behind it.
pub open spec fn descending(times: Seq<Civil>) -> bool {
    forall|i: int, j: int|
        #![trigger times[i], times[j]]
        0 <= i < j < times.len() ==> times[j].before(times[i])
}

/// No time is later than one behind it.
pub open spec fn nondescending(times: Seq<Civil>) -> bool {
    forall|i: int, j: int|
        #![trigger times[i], times[j]]
        0 <= i < j < times.len() ==> times[i].not_after(times[j])
}

} // verus!
