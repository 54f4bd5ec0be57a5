//! The retention policy and the naming of archives.

use vstd::prelude::*;
use vstd::string::StringExecFns;
use crate::timestamp::Range;

verus! {

/// How many buckets of one range are kept, and which of their backups.
#[derive(Debug, Clone, Copy, PartialEq, Eq, Structural)]
pub struct RollingRange {
    /// The number of buckets to keep.
    pub total: usize,
    /// Whether only periods that hold a backup count as buckets.
    pub allow_sparse: bool,
    /// Whether the earliest backup of a bucket is kept.
    pub include_first: bool,
    /// Whether the latest backup of a bucket is kept.
    pub include_last: bool,
}

/// The whole policy: a number of latest backups, and a rule for each range.
#[derive(Debug, Clone, Copy, PartialEq, Eq, Structural)]
pub struct Ranges {
    pub latest: usize,
    pub minutes: RollingRange,
    pub hours: RollingRange,
    pub days: RollingRange,
    pub months: RollingRange,
    pub years: RollingRange,
}

/// How the files of backups are named.
#[derive(Debug, Clone)]
pub struct Archive {
    /// What the name of every backup starts with.
    pub prefix: String,
    /// The format of the timestamp that follows the prefix.
    pub timestamp_format: String,
}

/// Everything that is configured: the naming of archives and the policy.
#[derive(Debug, Clone)]
pub struct Config {
    pub archive: Archive,
    pub ranges: Ranges,
}

/// The ranges from the finest to the coarsest.
pub open spec fn ladder() -> Seq<Range> {
    seq![Range::Minute, Range::Hour, Range::Day, Range::Month, Range::Year]
}

impl Ranges {
    /// The rule of one range.
    pub open spec fn rule(self, range: Range) -> RollingRange {
        match range {
            Range::Minute => self.minutes,
            Range::Hour => self.hours,
            Range::Day => self.days,
            Range::Month => self.months,
            Range::Year => self.years,
        }
    }

    /// The ranges from the finest to the coarsest, each with its rule.
    #[must_use]
    pub fn iter_ranges(&self) -> (rules: [(Range, &RollingRange); 5])
        ensures
            forall|i: int|
                0 <= i < 5 ==> (#[trigger] rules[i]).0 == ladder()[i] && *rules[i].1 == self.rule(
                    ladder()[i],
                ),
    {
        [
            (Range::Minute, &self.minutes),
            (Range::Hour, &self.hours),
            (Range::Day, &self.days),
            (Range::Month, &self.months),
            (Range::Year, &self.years),
        ]
    }
}

impl RollingRange {
    /// The rule of `total` sparse buckets whose first and last backups are
    /// kept.
    pub open spec fn sparse(total: usize) -> RollingRange {
        RollingRange { total, allow_sparse: true, include_first: true, include_last: true }
    }

    /// The rule of `total` sparse buckets whose first and last backups are
    /// kept.
    pub fn keeping(total: usize) -> (rule: RollingRange)
        ensures
            rule == RollingRange::sparse(total),
    {
        RollingRange { total, allow_sparse: true, include_first: true, include_last: true }
    }
}

impl Default for Config {
    /// The configuration that a new installation starts with.
    fn default() -> (config: Config)
        ensures
            config.archive.prefix@ == ".rattlebeaver."@,
            config.archive.timestamp_format@ == "%Y-%m-%d_%H-%M-%S"@,
            config.ranges == (Ranges {
                latest: 10,
                minutes: RollingRange::sparse(3),
                hours: RollingRange::sparse(5),
                days: RollingRange::sparse(10),
                months: RollingRange::sparse(12),
                years: RollingRange::sparse(10),
            }),
    {
        Config {
            archive: Archive {
                prefix: String::from_str(".rattlebeaver."),
                timestamp_format: String::from_str("%Y-%m-%d_%H-%M-%S"),
            },
            ranges: Ranges {
                latest: 10,
                minutes: RollingRange::keeping(3),
                hours: RollingRange::keeping(5),
                days: RollingRange::keeping(10),
                months: RollingRange::keeping(12),
                years: RollingRange::keeping(10),
            },
        }
    }
}

} // verus!
