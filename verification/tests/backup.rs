use rattlebeaver::backup::{
    backup_name, choose_packing, conflict_message, find_conflict, ArchiveMode, BackupError,
    Packing, SourceKind,
};
use rattlebeaver::config::Archive;
use rattlebeaver::entry::Entry;
use rattlebeaver::listing::{fulfills_line, join, listing_line, ListingDetails};
use rattlebeaver::entry::Fulfillment;
use rattlebeaver::timestamp::{Range, Timestamp};
use std::path::PathBuf;

fn archive() -> Archive {
    Archive {
        prefix: String::from(".rattlebeaver."),
        timestamp_format: String::from("%Y-%m-%d_%H-%M-%S"),
    }
}

fn entry(name: &str, day: u32) -> Entry {
    Entry {
        path: PathBuf::from(name),
        timestamp: Timestamp::new(2024, 3, day, 12, 0, 0).unwrap(),
        fulfills: Vec::new(),
    }
}

#[test]
fn choose_packing_packs_directories_always() {
    for mode in [ArchiveMode::AutoDetect, ArchiveMode::AsIs, ArchiveMode::Force] {
        assert_eq!(choose_packing(SourceKind::Directory, "/data/notes", mode), Some(Packing::Tarball));
        assert_eq!(
            choose_packing(SourceKind::Directory, "/data/notes.tar.gz", mode),
            Some(Packing::Tarball)
        );
    }
}

#[test]
fn choose_packing_packs_files_as_the_mode_says() {
    assert_eq!(
        choose_packing(SourceKind::File, "/data/notes.txt", ArchiveMode::AutoDetect),
        Some(Packing::Tarball)
    );
    assert_eq!(
        choose_packing(SourceKind::File, "/data/notes.tar.gz", ArchiveMode::AutoDetect),
        Some(Packing::Copy)
    );
    assert_eq!(
        choose_packing(SourceKind::File, "/data/notes.txt", ArchiveMode::AsIs),
        Some(Packing::Copy)
    );
    assert_eq!(
        choose_packing(SourceKind::File, "/data/notes.tar.gz", ArchiveMode::AsIs),
        Some(Packing::Copy)
    );
    assert_eq!(
        choose_packing(SourceKind::File, "/data/notes.txt", ArchiveMode::Force),
        Some(Packing::Tarball)
    );
    assert_eq!(
        choose_packing(SourceKind::File, "/data/notes.tar.gz", ArchiveMode::Force),
        Some(Packing::Tarball)
    );
    assert_eq!(
        choose_packing(SourceKind::File, "tar.gz", ArchiveMode::AutoDetect),
        Some(Packing::Tarball)
    );
}

#[test]
fn choose_packing_packs_nothing_else() {
    for mode in [ArchiveMode::AutoDetect, ArchiveMode::AsIs, ArchiveMode::Force] {
        assert_eq!(choose_packing(SourceKind::Other, "/dev/null", mode), None);
    }
}

#[test]
fn find_conflict_finds_the_first_backup_of_the_time() {
    let existing = vec![entry("a", 3), entry("b", 1), entry("c", 3), entry("d", 2)];
    let wanted = Timestamp::new(2024, 3, 3, 12, 0, 0).unwrap();
    assert_eq!(find_conflict(&existing, &wanted), Some(0));
    assert_eq!(find_conflict(&existing, &Timestamp::new(2024, 3, 2, 12, 0, 0).unwrap()), Some(3));
    assert_eq!(find_conflict(&existing, &Timestamp::new(2024, 3, 4, 12, 0, 0).unwrap()), None);
    assert_eq!(find_conflict(&existing, &Timestamp::new(2024, 3, 3, 12, 0, 1).unwrap()), None);
    assert_eq!(find_conflict(&Vec::new(), &wanted), None);
}

#[test]
fn conflict_message_names_the_time_and_the_backup() {
    let time = Timestamp::new(2024, 3, 3, 12, 0, 0).unwrap();
    assert_eq!(
        conflict_message(&time, "/backups/.rattlebeaver.2024-03-03_12-00-00.notes.tar.gz"),
        "timestamp 2024-03-03_12-00-00 conflicts with existing backup: \
         /backups/.rattlebeaver.2024-03-03_12-00-00.notes.tar.gz"
    );
}

#[test]
fn backup_name_joins_prefix_time_and_source() {
    assert_eq!(
        backup_name(&archive(), "2024-03-03_12-00-00", "notes", "notes.txt", Packing::Tarball),
        ".rattlebeaver.2024-03-03_12-00-00.notes.tar.gz"
    );
    assert_eq!(
        backup_name(&archive(), "2024-03-03_12-00-00", "notes", "notes.txt", Packing::Copy),
        ".rattlebeaver.2024-03-03_12-00-00.notes.txt"
    );
    assert_eq!(
        backup_name(&archive(), "", "", "", Packing::Copy),
        ".rattlebeaver.."
    );
}

#[test]
fn backup_error_says_what_it_holds() {
    assert_eq!(BackupError::TimestampConflict(String::from("taken")).message(), "taken");
    assert_eq!(BackupError::Other(String::from("no such file")).message(), "no such file");
}

#[test]
fn listing_details_come_in_their_order() {
    assert_eq!(
        ListingDetails::all(),
        vec![
            ListingDetails::Time,
            ListingDetails::Size,
            ListingDetails::Name,
            ListingDetails::Fulfills
        ]
    );
    assert_eq!(ListingDetails::default_list(), vec![ListingDetails::Time, ListingDetails::Name]);
}

#[test]
fn listing_details_are_all_or_the_chosen_or_time_and_name() {
    let chosen = vec![ListingDetails::Size, ListingDetails::Size];
    assert_eq!(ListingDetails::select(true, chosen.clone()), ListingDetails::all());
    assert_eq!(ListingDetails::select(true, Vec::new()), ListingDetails::all());
    assert_eq!(ListingDetails::select(false, chosen.clone()), chosen);
    assert_eq!(ListingDetails::select(false, Vec::new()), ListingDetails::default_list());
}

#[test]
fn join_puts_the_separator_between_the_parts() {
    let parts = vec![String::from("a"), String::from(""), String::from("c")];
    assert_eq!(join(&parts, ", "), "a, , c");
    assert_eq!(join(&parts[..1].to_vec(), ", "), "a");
    assert_eq!(join(&Vec::new(), ", "), "");
    assert_eq!(listing_line(&parts), "a |  | c");
}

#[test]
fn fulfills_line_joins_the_reasons() {
    let fulfills = vec![
        Fulfillment { range: None, index: 1, first_or_last: true },
        Fulfillment { range: Some(Range::Day), index: 2, first_or_last: true },
        Fulfillment { range: Some(Range::Day), index: 2, first_or_last: false },
    ];
    assert_eq!(fulfills_line(&fulfills), "latest #1 :: first of day #2 :: last of day #2");
    assert_eq!(fulfills_line(&fulfills[..1].to_vec()), "latest #1");
    assert_eq!(fulfills_line(&Vec::new()), "");
}
