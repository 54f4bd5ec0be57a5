//! Backups put in order of time, and the refusal of two that share a time.

use vstd::prelude::*;
use vstd::seq_lib::{to_multiset_build, to_multiset_contains, to_multiset_insert};
use crate::entry::Entry;
use crate::civil::{Civil, ascending};
use crate::timestamp::Timestamp;

verus! {

/// The times of the entries, one by one.
pub open spec fn timestamps(entries: Seq<Entry>) -> Seq<Civil> {
    Seq::new(entries.len(), |i: int| entries[i].timestamp@)
}

/// No time occurs twice.
pub open spec fn distinct(times: Seq<Civil>) -> bool {
    forall|i: int, j: int|
        #![trigger times[i], times[j]]
        0 <= i < j < times.len() ==> times[i] != times[j]
}

/// `second` is the first place whose time an earlier place has, and
/// `first` is that earlier place.
pub open spec fn is_conflict(times: Seq<Civil>, first: int, second: int) -> bool {
    &&& 0 <= first < second < times.len()
    &&& times[first] == times[second]
    &&& distinct(times.take(second))
}

/// `sorted` holds the given entries, each as often as it was given, in
/// strict order of time.
pub open spec fn is_arrangement(given: Seq<Entry>, sorted: Seq<Entry>) -> bool {
    &&& sorted.to_multiset() == given.to_multiset()
    &&& ascending(timestamps(sorted))
}

/// Two entries of one collection that were made at the same time.
#[derive(Debug)]
pub struct Conflict {
    /// The entry that came first in the collection.
    pub first: Entry,
    /// The entry that came later and shares its time.
    pub second: Entry,
}

/// The number of entries that are strictly earlier than `target`; where an
/// entry was made at `target`, that is its place.
pub fn position(entries: &Vec<Entry>, target: &Timestamp) -> (place: usize)
    requires
        ascending(timestamps(entries@)),
    ensures
        place <= entries.len(),
        forall|j: int| 0 <= j < place ==> (#[trigger] timestamps(entries@)[j]).before(target@),
        forall|j: int|
            place <= j < entries.len() ==> !(#[trigger] timestamps(entries@)[j]).before(target@),
{
    let mut low: usize = 0;
    let mut high: usize = entries.len();
    while low < high
        invariant
            low <= high <= entries.len(),
            ascending(timestamps(entries@)),
            forall|j: int| 0 <= j < low ==> (#[trigger] timestamps(entries@)[j]).before(target@),
            forall|j: int|
                high <= j < entries.len() ==> !(#[trigger] timestamps(entries@)[j]).before(
                    target@,
                ),
        decreases high - low,
    {
        let middle: usize = low + (high - low) / 2;
        assert(timestamps(entries@)[middle as int] == entries@[middle as int].timestamp@);
        if entries[middle].timestamp.is_before(target) {
            low = middle + 1;
        } else {
            high = middle;
        }
    }
    low
}

/// The place of the entry that was made at `target`.
pub fn find_entry(entries: &Vec<Entry>, target: &Timestamp) -> (found: Option<usize>)
    requires
        ascending(timestamps(entries@)),
    ensures
        found matches Some(place) ==> place < entries.len() && timestamps(entries@)[place as int]
            == target@,
        found is None ==> forall|j: int|
            0 <= j < entries.len() ==> #[trigger] timestamps(entries@)[j] != target@,
{
    let place = position(entries, target);
    assert(place < entries.len() ==> timestamps(entries@)[place as int]
        == entries@[place as int].timestamp@);
    if place < entries.len() && entries[place].timestamp.is_same(target) {
        Some(place)
    } else {
        proof {
            assert forall|j: int| 0 <= j < entries.len() implies #[trigger] timestamps(
                entries@,
            )[j] != target@ by {
                if j > place {
                    assert(timestamps(entries@)[place as int].before(timestamps(entries@)[j]));
                }
            }
        }
        None
    }
}

/// The entries in strict order of time, the earliest first; or, where two
/// of them share a time, the first such pair.
pub fn sort_entries(entries: Vec<Entry>) -> (sorted: Result<Vec<Entry>, Conflict>)
    ensures
        match sorted {
            Ok(list) => distinct(timestamps(entries@)) && is_arrangement(entries@, list@),
            Err(conflict) => exists|first: int, second: int|
                is_conflict(timestamps(entries@), first, second) && conflict.first
                    == entries@[first] && conflict.second == entries@[second],
        },
{
    let mut list: Vec<Entry> = Vec::new();
    let ghost times = timestamps(entries@);
    assert(entries@.take(0) =~= Seq::<Entry>::empty());
    for entry in it: entries
        invariant
            it.seq() == entries@,
            times == timestamps(entries@),
            list.len() == it.index(),
            ascending(timestamps(list@)),
            list@.to_multiset() == entries@.take(it.index() as int).to_multiset(),
            distinct(times.take(it.index() as int)),
    {
        let ghost index = it.index() as int;
        let ghost seen = entries@.take(index);
        let ghost before = list@;
        assert(entry == entries@[index]);
        assert(times[index] == entry.timestamp@);
        let place = position(&list, &entry.timestamp);
        assert(place < list.len() ==> timestamps(before)[place as int]
            == before[place as int].timestamp@);
        if place < list.len() && list[place].timestamp.is_same(&entry.timestamp) {
            let first = list.remove(place);
            proof {
                to_multiset_contains(before, first);
                to_multiset_contains(seen, first);
                assert(before.contains(first));
                let a = choose|a: int| 0 <= a < seen.len() && seen[a] == first;
                assert(entries@[a] == first);
                assert(times[a] == first.timestamp@);
                assert(is_conflict(times, a, index));
            }
            return Err(Conflict { first, second: entry });
        }
        assert(place < list.len() ==> timestamps(before)[place as int].seconds()
            != entry.timestamp@.seconds());
        list.insert(place, entry);
        proof {
            to_multiset_insert(before, place as int, entry);
            assert(entries@.take(index + 1) =~= seen.push(entry));
            to_multiset_build(seen, entry);
            let old_times = timestamps(before);
            let new_times = timestamps(list@);
            assert(new_times =~= old_times.insert(place as int, entry.timestamp@));
            assert forall|j: int| 0 <= j < old_times.len() implies #[trigger] old_times[j]
                != entry.timestamp@ by {
                if j > place {
                    assert(old_times[place as int].before(old_times[j]));
                }
            }
            assert forall|a: int, b: int| 0 <= a < b < new_times.len() implies new_times[a].before(
                new_times[b],
            ) by {
                if b < place {
                    assert(old_times[a].before(old_times[b]));
                } else if b == place {
                    assert(old_times[a].before(entry.timestamp@));
                } else if a == place {
                    assert(!old_times[place as int].before(entry.timestamp@));
                    if b - 1 > place {
                        assert(old_times[place as int].before(old_times[b - 1]));
                    }
                } else if a < place {
                    assert(old_times[a].before(old_times[b - 1]));
                } else {
                    assert(old_times[a - 1].before(old_times[b - 1]));
                }
            }
            let next = times.take(index + 1);
            assert forall|a: int, b: int|
                #![trigger next[a], next[b]]
                0 <= a < b < next.len() implies next[a] != next[b] by {
                if b < index {
                    assert(times.take(index)[a] != times.take(index)[b]);
                } else {
                    to_multiset_contains(before, entries@[a]);
                    to_multiset_contains(seen, entries@[a]);
                    assert(seen[a] == entries@[a]);
                    let j = choose|j: int| 0 <= j < before.len() && before[j] == entries@[a];
                    assert(old_times[j] == times[a]);
                }
            }
        }
    }
    proof {
        assert(entries@.take(entries.len() as int) =~= entries@);
        assert(times.take(entries.len() as int) =~= times);
    }
    Ok(list)
}

} // verus!
