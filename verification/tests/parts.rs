use rattlebeaver::arrange::{find_entry, position, sort_entries};
use rattlebeaver::buckets::{locate, sort_stamps, Buckets};
use rattlebeaver::config::RollingRange;
use rattlebeaver::entry::{Entry, Fulfillment};
use rattlebeaver::keys::{cadence_keys, sparse_keys};
use rattlebeaver::mark::{mark_latest, mark_range, MarkError};
use rattlebeaver::timestamp::{Range, Timestamp};
use std::path::PathBuf;

fn day(day: u32, hour: u32) -> Timestamp {
    Timestamp::new(2024, 3, day, hour, 0, 0).expect("a time that exists")
}

fn entry_at(name: &str, timestamp: Timestamp) -> Entry {
    Entry { path: PathBuf::from(name), timestamp, fulfills: Vec::new() }
}

fn sorted_days() -> Vec<Entry> {
    vec![
        entry_at("a", day(10, 8)),
        entry_at("b", day(10, 12)),
        entry_at("c", day(12, 9)),
        entry_at("d", day(14, 1)),
        entry_at("e", day(14, 2)),
    ]
}

#[test]
fn sort_entries_puts_the_earliest_first() {
    let given = vec![
        entry_at("c", day(12, 9)),
        entry_at("e", day(14, 2)),
        entry_at("a", day(10, 8)),
        entry_at("d", day(14, 1)),
        entry_at("b", day(10, 12)),
    ];
    let sorted = sort_entries(given).unwrap();
    let names: Vec<PathBuf> = sorted.iter().map(|e| e.path.clone()).collect();
    let expected: Vec<PathBuf> = ["a", "b", "c", "d", "e"].iter().map(PathBuf::from).collect();
    assert_eq!(names, expected);
    assert_eq!(sorted[2].timestamp, day(12, 9));
}

#[test]
fn sort_entries_names_the_first_two_of_one_time() {
    let given = vec![entry_at("x", day(12, 9)), entry_at("y", day(11, 9)), entry_at("z", day(12, 9))];
    let conflict = sort_entries(given).unwrap_err();
    assert_eq!(conflict.first.path, PathBuf::from("x"));
    assert_eq!(conflict.second.path, PathBuf::from("z"));
    assert_eq!(conflict.first.timestamp, conflict.second.timestamp);
}

#[test]
fn position_counts_the_earlier_entries() {
    let entries = sorted_days();
    assert_eq!(position(&entries, &day(1, 0)), 0);
    assert_eq!(position(&entries, &day(10, 8)), 0);
    assert_eq!(position(&entries, &day(10, 9)), 1);
    assert_eq!(position(&entries, &day(12, 9)), 2);
    assert_eq!(position(&entries, &day(14, 2)), 4);
    assert_eq!(position(&entries, &day(14, 3)), 5);
    assert_eq!(position(&Vec::new(), &day(14, 3)), 0);
}

#[test]
fn find_entry_finds_the_entry_of_a_time() {
    let entries = sorted_days();
    assert_eq!(find_entry(&entries, &day(10, 8)), Some(0));
    assert_eq!(find_entry(&entries, &day(12, 9)), Some(2));
    assert_eq!(find_entry(&entries, &day(14, 2)), Some(4));
    assert_eq!(find_entry(&entries, &day(14, 3)), None);
    assert_eq!(find_entry(&entries, &day(11, 0)), None);
    assert_eq!(find_entry(&Vec::new(), &day(11, 0)), None);
}

#[test]
fn locate_counts_the_later_keys() {
    let keys = vec![day(14, 0), day(12, 0), day(10, 0)];
    assert_eq!(locate(&keys, &day(15, 0)), 0);
    assert_eq!(locate(&keys, &day(14, 0)), 0);
    assert_eq!(locate(&keys, &day(13, 0)), 1);
    assert_eq!(locate(&keys, &day(12, 0)), 1);
    assert_eq!(locate(&keys, &day(10, 0)), 2);
    assert_eq!(locate(&keys, &day(9, 0)), 3);
}

#[test]
fn sort_stamps_puts_the_earliest_first_and_keeps_every_stamp() {
    let stamps = vec![day(12, 0), day(14, 0), day(10, 0), day(12, 0), day(11, 0)];
    assert_eq!(
        sort_stamps(&stamps),
        vec![day(10, 0), day(11, 0), day(12, 0), day(12, 0), day(14, 0)]
    );
    assert_eq!(sort_stamps(&Vec::new()), Vec::<Timestamp>::new());
}

#[test]
fn buckets_gather_under_their_keys() {
    let mut buckets = Buckets::new(vec![day(10, 0), day(14, 0), day(10, 0), day(12, 0)]);
    assert!(buckets.push(day(10, 0), day(10, 9)));
    assert!(buckets.push(day(14, 0), day(14, 3)));
    assert!(buckets.push(day(10, 0), day(10, 5)));
    assert!(!buckets.push(day(11, 0), day(11, 5)));
    assert!(buckets.push(day(10, 0), day(10, 7)));
    assert_eq!(
        buckets.sorted(),
        vec![
            (day(14, 0), vec![day(14, 3)]),
            (day(12, 0), vec![]),
            (day(10, 0), vec![day(10, 5), day(10, 7), day(10, 9)]),
        ]
    );
    assert_eq!(Buckets::new(Vec::new()).sorted(), vec![]);
}

#[test]
fn buckets_come_out_newest_first_however_the_keys_were_given() {
    let ascending = Buckets::new(vec![day(10, 0), day(12, 0), day(14, 0)]).sorted();
    let mixed = Buckets::new(vec![day(12, 0), day(14, 0), day(10, 0), day(14, 0)]).sorted();
    let expected = vec![(day(14, 0), vec![]), (day(12, 0), vec![]), (day(10, 0), vec![])];
    assert_eq!(ascending, expected);
    assert_eq!(mixed, expected);
}

#[test]
fn sparse_keys_are_the_newest_floors_once_each() {
    let entries = sorted_days();
    assert_eq!(sparse_keys(&entries, Range::Day, 5), vec![day(14, 0), day(12, 0), day(10, 0)]);
    assert_eq!(sparse_keys(&entries, Range::Day, 3), vec![day(14, 0), day(12, 0), day(10, 0)]);
    assert_eq!(sparse_keys(&entries, Range::Day, 2), vec![day(14, 0), day(12, 0)]);
    assert_eq!(sparse_keys(&entries, Range::Day, 0), Vec::<Timestamp>::new());
    assert_eq!(sparse_keys(&entries, Range::Hour, 9).len(), 5);
    assert_eq!(sparse_keys(&entries, Range::Month, 9), vec![day(1, 0)]);
    assert_eq!(sparse_keys(&Vec::new(), Range::Month, 9), Vec::<Timestamp>::new());
}

#[test]
fn cadence_keys_are_as_many_as_asked_for() {
    let now = Timestamp::new(2024, 3, 2, 12, 34, 56).unwrap();
    for total in [0usize, 1, 2, 40] {
        for range in [Range::Minute, Range::Hour, Range::Day, Range::Month, Range::Year] {
            assert_eq!(cadence_keys(&now, range, total).unwrap().len(), total);
        }
    }
    assert_eq!(
        cadence_keys(&now, Range::Day, 4).unwrap(),
        vec![
            Timestamp::new(2024, 3, 2, 0, 0, 0).unwrap(),
            Timestamp::new(2024, 3, 1, 0, 0, 0).unwrap(),
            Timestamp::new(2024, 2, 29, 0, 0, 0).unwrap(),
            Timestamp::new(2024, 2, 28, 0, 0, 0).unwrap(),
        ]
    );
    assert_eq!(
        cadence_keys(&now, Range::Month, 4).unwrap(),
        vec![
            Timestamp::new(2024, 3, 1, 0, 0, 0).unwrap(),
            Timestamp::new(2024, 2, 1, 0, 0, 0).unwrap(),
            Timestamp::new(2024, 1, 1, 0, 0, 0).unwrap(),
            Timestamp::new(2023, 12, 1, 0, 0, 0).unwrap(),
        ]
    );
    assert_eq!(
        cadence_keys(&now, Range::Minute, 2).unwrap(),
        vec![
            Timestamp::new(2024, 3, 2, 12, 34, 0).unwrap(),
            Timestamp::new(2024, 3, 2, 12, 33, 0).unwrap(),
        ]
    );
}

#[test]
fn cadence_keys_name_the_first_step_that_fails() {
    let now = Timestamp::new(-262143, 1, 1, 1, 0, 0).unwrap();
    assert_eq!(cadence_keys(&now, Range::Hour, 5), Err(2));
    assert_eq!(cadence_keys(&now, Range::Hour, 2).unwrap().len(), 2);
    assert_eq!(cadence_keys(&now, Range::Year, 2), Err(1));
    assert_eq!(cadence_keys(&now, Range::Minute, 100), Err(61));
}

#[test]
fn mark_latest_tags_from_the_end() {
    let mut entries = sorted_days();
    mark_latest(&mut entries, 2);
    assert!(entries[0].fulfills.is_empty());
    assert!(entries[2].fulfills.is_empty());
    assert_eq!(entries[3].fulfills, vec![Fulfillment { range: None, index: 2, first_or_last: true }]);
    assert_eq!(entries[4].fulfills, vec![Fulfillment { range: None, index: 1, first_or_last: true }]);
}

#[test]
fn mark_range_tags_the_ends_of_the_kept_buckets() {
    let mut entries = sorted_days();
    let now = day(20, 0);
    let kept = RollingRange { total: 2, allow_sparse: true, include_first: true, include_last: true };
    mark_range(&mut entries, now, Range::Day, &kept).unwrap();
    let first = |index| Fulfillment { range: Some(Range::Day), index, first_or_last: true };
    let last = |index| Fulfillment { range: Some(Range::Day), index, first_or_last: false };
    assert!(entries[0].fulfills.is_empty());
    assert!(entries[1].fulfills.is_empty());
    assert_eq!(entries[2].fulfills, vec![first(2), last(2)]);
    assert_eq!(entries[3].fulfills, vec![first(1)]);
    assert_eq!(entries[4].fulfills, vec![last(1)]);
}

#[test]
fn mark_range_leaves_the_backups_alone_where_it_fails() {
    let mut entries = sorted_days();
    let now = Timestamp::new(-262143, 1, 1, 1, 0, 0).unwrap();
    let fixed = RollingRange { total: 9, allow_sparse: false, include_first: true, include_last: true };
    assert!(matches!(
        mark_range(&mut entries, now, Range::Day, &fixed),
        Err(MarkError::OutOfRange { range: Range::Day, amount: 1 })
    ));
    assert!(entries.iter().all(|e| e.fulfills.is_empty()));
    assert_eq!(entries.len(), 5);
}
