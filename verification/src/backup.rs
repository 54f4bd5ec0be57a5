//! What making a backup decides: whether its time is free, how the source
//! is packed, and what the backup is called.

use vstd::prelude::*;
use vstd::string::StringExecFns;
use crate::arrange::timestamps;
use crate::config::Archive;
use crate::entry::Entry;
use crate::text::{chars_of, ends_with};
use crate::timestamp::Timestamp;

verus! {

/// What becomes of a single file that is backed up.
#[derive(Debug, Clone, Copy, PartialEq, Eq, Structural)]
pub enum ArchiveMode {
    /// Tarball and compress if not already
    AutoDetect,
    /// Use file as-is
    AsIs,
    /// Tarball and compress always
    Force,
}

/// Which time a backup is made under.
#[derive(Debug, Clone, Copy, PartialEq, Eq, Structural)]
pub enum TimestampSelection {
    /// The time of the backup itself.
    Now,
    /// The time the source was created.
    FileCreated,
    /// The time the source was last changed.
    FileModified,
}

/// Why no backup was made.
#[derive(Debug)]
pub enum BackupError {
    /// A backup of the same time exists; the text says which.
    TimestampConflict(String),
    /// Anything else that went wrong, in words.
    Other(String),
}

impl BackupError {
    /// What went wrong, in words.
    pub open spec fn text(self) -> Seq<char> {
        match self {
            BackupError::TimestampConflict(text) => text@,
            BackupError::Other(text) => text@,
        }
    }

    /// What went wrong, in words.
    pub fn message(&self) -> (text: String)
        ensures
            text@ == self.text(),
    {
        match self {
            BackupError::TimestampConflict(text) => text.clone(),
            BackupError::Other(text) => text.clone(),
        }
    }
}

/// What the source of a backup is on disk.
#[derive(Debug, Clone, Copy, PartialEq, Eq, Structural)]
pub enum SourceKind {
    Directory,
    File,
    Other,
}

/// How a source becomes a backup.
#[derive(Debug, Clone, Copy, PartialEq, Eq, Structural)]
pub enum Packing {
    /// As a compressed tarball.
    Tarball,
    /// As a copy of the file.
    Copy,
}

/// How a source is packed: a directory always as a tarball; a file as the
/// mode says, where auto-detection packs what is no archive yet; anything
/// else not at all.
pub open spec fn packing_for(kind: SourceKind, is_archive: bool, mode: ArchiveMode) -> Option<
    Packing,
> {
    match kind {
        SourceKind::Directory => Some(Packing::Tarball),
        SourceKind::File => match mode {
            ArchiveMode::Force => Some(Packing::Tarball),
            ArchiveMode::AsIs => Some(Packing::Copy),
            ArchiveMode::AutoDetect => if is_archive {
                Some(Packing::Copy)
            } else {
                Some(Packing::Tarball)
            },
        },
        SourceKind::Other => None,
    }
}

/// How the source at `source` is packed. A source whose path ends in
/// `.tar.gz` is an archive already.
pub fn choose_packing(kind: SourceKind, source: &str, mode: ArchiveMode) -> (packing: Option<
    Packing,
>)
    ensures
        packing == packing_for(kind, ".tar.gz"@.is_suffix_of(source@), mode),
{
    let is_archive = ends_with(&chars_of(source), &chars_of(".tar.gz"));
    match kind {
        SourceKind::Directory => Some(Packing::Tarball),
        SourceKind::File => {
            let make_archive = match (mode, is_archive) {
                (ArchiveMode::Force, _) | (ArchiveMode::AutoDetect, false) => true,
                (ArchiveMode::AsIs, _) | (ArchiveMode::AutoDetect, true) => false,
            };
            if make_archive {
                Some(Packing::Tarball)
            } else {
                Some(Packing::Copy)
            }
        },
        SourceKind::Other => None,
    }
}

/// The first of the existing backups that was made at `timestamp`.
pub fn find_conflict(existing: &Vec<Entry>, timestamp: &Timestamp) -> (found: Option<usize>)
    ensures
        match found {
            Some(place) => place < existing.len() && timestamps(existing@)[place as int]
                == timestamp@ && forall|j: int|
                0 <= j < place ==> #[trigger] timestamps(existing@)[j] != timestamp@,
            None => forall|j: int|
                0 <= j < existing.len() ==> #[trigger] timestamps(existing@)[j] != timestamp@,
        },
{
    let mut i: usize = 0;
    while i < existing.len()
        invariant
            i <= existing.len(),
            forall|j: int| 0 <= j < i ==> #[trigger] timestamps(existing@)[j] != timestamp@,
        decreases existing.len() - i,
    {
        assert(timestamps(existing@)[i as int] == existing@[i as int].timestamp@);
        if existing[i].timestamp.is_same(timestamp) {
            return Some(i);
        }
        i = i + 1;
    }
    None
}

/// What is said of a backup whose time an existing backup has.
pub fn conflict_message(timestamp: &Timestamp, existing: &str) -> (text: String)
    ensures
        text@ == "timestamp "@ + timestamp@.text(seq!['-'], seq!['_'], seq!['-'])
            + " conflicts with existing backup: "@ + existing@,
{
    let mut text = String::from_str("timestamp ");
    text.append(timestamp.to_string().as_str());
    text.append(" conflicts with existing backup: ");
    text.append(existing);
    text
}

/// The file name of a backup: the prefix of the archive, the time as
/// `stamp` writes it, and a dot; then for a tarball the stem of the
/// source's name and `.tar.gz`, for a copy the source's whole name.
pub open spec fn name_of(
    prefix: Seq<char>,
    stamp: Seq<char>,
    stem: Seq<char>,
    name: Seq<char>,
    packing: Packing,
) -> Seq<char> {
    prefix + stamp + "."@ + match packing {
        Packing::Tarball => stem + ".tar.gz"@,
        Packing::Copy => name,
    }
}

/// The file name of a backup made at the time that `stamp` writes, of the
/// source whose file name is `source_name` and has the stem `source_stem`.
pub fn backup_name(
    config: &Archive,
    stamp: &str,
    source_stem: &str,
    source_name: &str,
    packing: Packing,
) -> (name: String)
    ensures
        name@ == name_of(config.prefix@, stamp@, source_stem@, source_name@, packing),
{
    let mut name = config.prefix.clone();
    name.append(stamp);
    name.append(".");
    match packing {
        Packing::Tarball => {
            name.append(source_stem);
            name.append(".tar.gz");
        },
        Packing::Copy => {
            name.append(source_name);
        },
    }
    assert(name@ =~= name_of(config.prefix@, stamp@, source_stem@, source_name@, packing));
    name
}

} // verus!
