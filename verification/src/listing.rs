//! The lines of a listing of backups.

use vstd::prelude::*;
use vstd::string::StringExecFns;
use crate::entry::Fulfillment;

verus! {

/// What a listing can show of a backup.
#[derive(Debug, Clone, Copy, PartialEq, Eq, Structural)]
pub enum ListingDetails {
    Time,
    Name,
    Size,
    Fulfills,
}

impl ListingDetails {
    /// Every detail, in the order a listing shows them.
    pub fn all() -> (details: Vec<Self>)
        ensures
            details@ == seq![
                ListingDetails::Time,
                ListingDetails::Size,
                ListingDetails::Name,
                ListingDetails::Fulfills,
            ],
    {
        let mut details: Vec<Self> = Vec::new();
        details.push(Self::Time);
        details.push(Self::Size);
        details.push(Self::Name);
        details.push(Self::Fulfills);
        assert(details@ =~= seq![
            ListingDetails::Time,
            ListingDetails::Size,
            ListingDetails::Name,
            ListingDetails::Fulfills,
        ]);
        details
    }

    /// What a listing shows where nothing else is asked for.
    pub fn default_list() -> (details: Vec<Self>)
        ensures
            details@ == seq![ListingDetails::Time, ListingDetails::Name],
    {
        let mut details: Vec<Self> = Vec::new();
        details.push(Self::Time);
        details.push(Self::Name);
        assert(details@ =~= seq![ListingDetails::Time, ListingDetails::Name]);
        details
    }

    /// The details that a listing shows: all of them where all are asked
    /// for, else those chosen, else time and name.
    pub fn select(all: bool, chosen: Vec<Self>) -> (details: Vec<Self>)
        ensures
            details@ == if all {
                seq![
                    ListingDetails::Time,
                    ListingDetails::Size,
                    ListingDetails::Name,
                    ListingDetails::Fulfills,
                ]
            } else if chosen@.len() == 0 {
                seq![ListingDetails::Time, ListingDetails::Name]
            } else {
                chosen@
            },
    {
        if all {
            Self::all()
        } else if chosen.len() == 0 {
            Self::default_list()
        } else {
            chosen
        }
    }
}

/// The parts in a row, with `between` between each two of them.
pub open spec fn joined(parts: Seq<Seq<char>>, between: Seq<char>) -> Seq<char>
    decreases parts.len(),
{
    if parts.len() == 0 {
        Seq::empty()
    } else if parts.len() == 1 {
        parts[0]
    } else {
        joined(parts.drop_last(), between) + between + parts.last()
    }
}

/// What each of the strings holds.
pub open spec fn texts(parts: Seq<String>) -> Seq<Seq<char>> {
    Seq::new(parts.len(), |i: int| parts[i]@)
}

/// What each of the reasons reads as.
pub open spec fn reasons(fulfills: Seq<Fulfillment>) -> Seq<Seq<char>> {
    Seq::new(fulfills.len(), |i: int| fulfills[i].text())
}

/// The parts in a row, with `between` between each two of them.
pub fn join(parts: &Vec<String>, between: &str) -> (line: String)
    ensures
        line@ == joined(texts(parts@), between@),
{
    let mut line = String::new();
    let mut i: usize = 0;
    while i < parts.len()
        invariant
            i <= parts.len(),
            line@ == joined(texts(parts@).take(i as int), between@),
        decreases parts.len() - i,
    {
        let ghost before = texts(parts@).take(i as int);
        let ghost after = texts(parts@).take(i + 1);
        assert(after.drop_last() =~= before);
        assert(after.last() == parts@[i as int]@);
        if i > 0 {
            line.append(between);
        } else {
            assert(line@ + parts@[i as int]@ =~= parts@[i as int]@);
        }
        line.append(parts[i].as_str());
        i = i + 1;
    }
    assert(texts(parts@).take(parts.len() as int) =~= texts(parts@));
    line
}

/// The reasons to keep a backup in one line, ` :: ` between them.
pub fn fulfills_line(fulfills: &Vec<Fulfillment>) -> (line: String)
    ensures
        line@ == joined(reasons(fulfills@), " :: "@),
{
    let mut parts: Vec<String> = Vec::new();
    let mut i: usize = 0;
    while i < fulfills.len()
        invariant
            i <= fulfills.len(),
            texts(parts@) == reasons(fulfills@).take(i as int),
        decreases fulfills.len() - i,
    {
        let ghost before = texts(parts@);
        parts.push(fulfills[i].display());
        assert(texts(parts@) =~= before.push(fulfills@[i as int].text()));
        assert(texts(parts@) =~= reasons(fulfills@).take(i + 1));
        i = i + 1;
    }
    assert(reasons(fulfills@).take(fulfills.len() as int) =~= reasons(fulfills@));
    join(&parts, " :: ")
}

/// The details of one backup in one line, ` | ` between them.
pub fn listing_line(details: &Vec<String>) -> (line: String)
    ensures
        line@ == joined(texts(details@), " | "@),
{
    join(details, " | ")
}

} // verus!
