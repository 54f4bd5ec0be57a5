//! Backups and the reasons to keep them.

use vstd::prelude::*;
use vstd::string::{StrSliceExecFns, StringExecFns};
use std::path::PathBuf;
use crate::config::Archive;
use crate::text::{chars_of, decimal, push_decimal, span_before, span_from, starts_with};
use crate::timestamp::{Range, Timestamp, TimestampError, parsed_time};

verus! {

/// A path of the file system, carried along unopened.
#[verifier::external_type_specification]
#[verifier::external_body]
pub struct ExPathBuf(PathBuf);

/// `PathBuf::clone` gives the same path.
pub assume_specification[ <PathBuf as Clone>::clone ](path: &PathBuf) -> (copy: PathBuf)
    ensures
        copy == *path,
;

/// A reason to keep a backup.
#[derive(Debug, Clone, Copy, PartialEq, Eq)]
pub struct Fulfillment {
    /// The range, or `None` where the backup is one of the latest.
    pub range: Option<Range>,
    /// The rank within the range, 1 for the most recent.
    pub index: usize,
    /// Whether the backup is the first of its bucket, or the last.
    pub first_or_last: bool,
}

/// A backup: where it lies, when it was made, and why it is kept.
#[derive(Debug)]
pub struct Entry {
    pub path: PathBuf,
    pub timestamp: Timestamp,
    pub fulfills: Vec<Fulfillment>,
}

impl Clone for Entry {
    /// A second entry of the same backup, with the same reasons.
    fn clone(&self) -> (copy: Entry)
        ensures
            copy.path == self.path,
            copy.timestamp == self.timestamp,
            copy.fulfills@ == self.fulfills@,
    {
        let fulfills = self.fulfills.clone();
        assert(fulfills@ =~= self.fulfills@);
        Entry { path: self.path.clone(), timestamp: self.timestamp, fulfills }
    }
}

/// The part of a backup's file name that holds its time: what follows the
/// prefix, up to the first dot.
pub open spec fn stamp_part(name: Seq<char>, prefix: Seq<char>) -> Seq<char> {
    let rest = name.skip(prefix.len() as int);
    rest.take(span_before(rest, '.') as int)
}

/// What reading the file at `path`, called `name`, as a backup of the archive
/// may give: nothing where the name lacks the prefix; else the backup, with
/// the time that its name holds, or the reason why the name gives no time.
pub open spec fn reads_as(
    path: PathBuf,
    name: Seq<char>,
    config: Archive,
    read: Result<Option<Entry>, TimestampError>,
) -> bool {
    let time = parsed_time(stamp_part(name, config.prefix@), config.timestamp_format@);
    if config.prefix@.is_prefix_of(name) {
        match read {
            Ok(Some(made)) => {
                &&& made.path == path
                &&& made.fulfills@ == Seq::<Fulfillment>::empty()
                &&& time == Some(made.timestamp@)
            },
            Ok(None) => false,
            Err(TimestampError::InvalidFormat(_)) => time is None,
            Err(TimestampError::NoSingleLocalTime) => time is Some,
        }
    } else {
        read matches Ok(None)
    }
}

/// The backups among what was read of a row of files, in their order: a
/// file that is no backup, or whose name gives no time, is left out.
pub open spec fn kept(read: Seq<Result<Option<Entry>, TimestampError>>) -> Seq<Entry>
    decreases read.len(),
{
    if read.len() == 0 {
        Seq::empty()
    } else {
        match read.last() {
            Ok(Some(made)) => kept(read.drop_last()).push(made),
            _ => kept(read.drop_last()),
        }
    }
}

/// The backups that a row of files holds, in the order of the files. A
/// file whose name lacks the prefix of the archive is no backup; one whose
/// name gives no time is left out.
pub fn read_entries(files: Vec<(PathBuf, String)>, config: &Archive) -> (entries: Vec<Entry>)
    ensures
        exists|read: Seq<Result<Option<Entry>, TimestampError>>|
            {
                &&& read.len() == files.len()
                &&& forall|i: int|
                    0 <= i < files.len() ==> reads_as(
                        files@[i].0,
                        files@[i].1@,
                        *config,
                        #[trigger] read[i],
                    )
                &&& entries@ == kept(read)
            },
{
    let mut entries: Vec<Entry> = Vec::new();
    let ghost mut read: Seq<Result<Option<Entry>, TimestampError>> = Seq::empty();
    for file in it: files
        invariant
            it.seq() == files@,
            read.len() == it.index(),
            forall|i: int|
                0 <= i < it.index() ==> reads_as(
                    files@[i].0,
                    files@[i].1@,
                    *config,
                    #[trigger] read[i],
                ),
            entries@ == kept(read),
    {
        let (path, name) = file;
        let outcome = Entry::from_path(path, name.as_str(), config);
        proof {
            let before = read;
            read = read.push(outcome);
            assert(read.drop_last() =~= before);
        }
        Entry::keep(&mut entries, outcome);
    }
    entries
}

impl Entry {
    /// The backup in the file at `path`, whose name is `file_name`; `None`
    /// where the name lacks the prefix of the archive, so that the file is
    /// no backup of it. The time is read from the name, under the format of
    /// the archive.
    pub fn from_path(path: PathBuf, file_name: &str, config: &Archive) -> (entry: Result<
        Option<Entry>,
        TimestampError,
    >)
        ensures
            reads_as(path, file_name@, *config, entry),
    {
        let name = chars_of(file_name);
        let prefix = chars_of(config.prefix.as_str());
        if !starts_with(&name, &prefix) {
            return Ok(None);
        }
        let span = span_from(&name, prefix.len(), '.');
        let raw_timestamp = file_name.substring_char(prefix.len(), prefix.len() + span);
        assert(raw_timestamp@ =~= stamp_part(file_name@, config.prefix@));
        match Timestamp::parse_from_str(raw_timestamp, config.timestamp_format.as_str()) {
            Ok(timestamp) => Ok(Some(Entry { path, timestamp, fulfills: Vec::new() })),
            Err(error) => Err(error),
        }
    }

    /// Puts what was read of a file behind the backups, where it is one.
    pub fn keep(entries: &mut Vec<Entry>, read: Result<Option<Entry>, TimestampError>)
        ensures
            final(entries)@ == match read {
                Ok(Some(made)) => old(entries)@.push(made),
                _ => old(entries)@,
            },
    {
        match read {
            Ok(Some(made)) => {
                entries.push(made);
            },
            _ => {},
        }
    }

    /// Whether nothing keeps the backup, so that it may be deleted.
    pub fn is_stale(&self) -> (stale: bool)
        ensures
            stale == (self.fulfills@.len() == 0),
    {
        self.fulfills.len() == 0
    }

    /// The time of the backup, as its file name holds it.
    pub fn to_string(&self) -> (text: String)
        ensures
            text@ == self.timestamp@.text(seq!['-'], seq!['_'], seq!['-']),
    {
        self.timestamp.to_string()
    }
}

impl Range {
    /// The name of the range in a listing.
    pub open spec fn name(self) -> Seq<char> {
        match self {
            Range::Minute => "minute"@,
            Range::Hour => "hour"@,
            Range::Day => "day"@,
            Range::Month => "month"@,
            Range::Year => "year"@,
        }
    }

    /// The letter of the range in a short listing.
    pub open spec fn letter(self) -> Seq<char> {
        match self {
            Range::Minute => "m"@,
            Range::Hour => "h"@,
            Range::Day => "d"@,
            Range::Month => "M"@,
            Range::Year => "Y"@,
        }
    }
}

impl Fulfillment {
    /// The reason in words: `latest #2`, `first of month #1`.
    pub open spec fn text(self) -> Seq<char> {
        match self.range {
            None => "latest #"@ + decimal(self.index as nat),
            Some(range) => (if self.first_or_last {
                "first"@
            } else {
                "last"@
            }) + " of "@ + range.name() + " #"@ + decimal(self.index as nat),
        }
    }

    /// The reason in a few characters: `L#2`, an arrow to the left bar for
    /// the first or to the right bar for the last, then the letter of the
    /// range and the rank.
    pub open spec fn short_text(self) -> Seq<char> {
        match self.range {
            None => "L#"@ + decimal(self.index as nat),
            Some(range) => (if self.first_or_last {
                "\u{21e4}"@
            } else {
                "\u{21e5}"@
            }) + range.letter() + decimal(self.index as nat),
        }
    }

    /// The reason in words.
    #[must_use]
    pub fn display(&self) -> (text: String)
        ensures
            text@ == self.text(),
    {
        match self.range {
            None => {
                let mut repr = String::from_str("latest #");
                push_decimal(&mut repr, self.index as u64);
                repr
            },
            Some(range) => {
                let mut repr = if self.first_or_last {
                    String::from_str("first")
                } else {
                    String::from_str("last")
                };
                repr.append(" of ");
                repr.append(
                    match range {
                        Range::Minute => "minute",
                        Range::Hour => "hour",
                        Range::Day => "day",
                        Range::Month => "month",
                        Range::Year => "year",
                    },
                );
                repr.append(" #");
                push_decimal(&mut repr, self.index as u64);
                repr
            },
        }
    }

    /// The reason in a few characters.
    #[must_use]
    pub fn display_short(&self) -> (text: String)
        ensures
            text@ == self.short_text(),
    {
        match self.range {
            None => {
                let mut repr = String::from_str("L#");
                push_decimal(&mut repr, self.index as u64);
                repr
            },
            Some(range) => {
                let mut repr = if self.first_or_last {
                    String::from_str("\u{21e4}")
                } else {
                    String::from_str("\u{21e5}")
                };
                repr.append(
                    match range {
                        Range::Minute => "m",
                        Range::Hour => "h",
                        Range::Day => "d",
                        Range::Month => "M",
                        Range::Year => "Y",
                    },
                );
                push_decimal(&mut repr, self.index as u64);
                repr
            },
        }
    }
}

} // verus!
