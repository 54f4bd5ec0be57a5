//! The retention engine: which backups a policy keeps, and why.

use vstd::prelude::*;
use vstd::seq_lib::{seq_to_set_is_finite, to_multiset_contains, to_multiset_remove};
use crate::arrange::{
    Conflict, distinct, find_entry, is_arrangement, is_conflict, sort_entries, timestamps,
};
use crate::buckets::Buckets;
use crate::config::{Ranges, RollingRange, ladder};
use crate::entry::{Entry, Fulfillment};
use crate::keys::{
    bucket_rank, cadence_breaks, cadence_holds, cadence_keys, floors, is_ranking,
    lemma_cadence_ranking, lemma_ranking, sparse_keys,
};
use crate::civil::{Civil, ascending, nondescending};
use crate::timestamp::{Range, Timestamp, readings};

verus! {

/// Why the backups could not be marked.
#[derive(Debug)]
pub enum MarkError {
    /// Two of the backups were made at the same time.
    TimestampConflict(Conflict),
    /// A fixed cadence asks for the bucket `amount` units of `range`
    /// before now, which cannot be had.
    OutOfRange { range: Range, amount: usize },
}

/// The earliest of the backups whose times have the same floor.
pub open spec fn is_first(times: Seq<Civil>, range: Range, i: int) -> bool {
    forall|j: int|
        #![trigger times[j]]
        0 <= j < times.len() && times[j].floor(range) == times[i].floor(range)
            ==> !times[j].before(times[i])
}

/// The latest of the backups whose times have the same floor.
pub open spec fn is_last(times: Seq<Civil>, range: Range, i: int) -> bool {
    forall|j: int|
        #![trigger times[j]]
        0 <= j < times.len() && times[j].floor(range) == times[i].floor(range)
            ==> !times[i].before(times[j])
}

/// The tag, where it is wanted.
pub open spec fn tag_if(wanted: bool, tag: Fulfillment) -> Seq<Fulfillment> {
    if wanted {
        seq![tag]
    } else {
        Seq::empty()
    }
}

/// The tags that the rule of one range gives to the backup at `i`: where its
/// bucket is kept, the bucket's rank as first of it, as last of it, or
/// both, as far as the rule includes them.
pub open spec fn range_tags(
    times: Seq<Civil>,
    now: Civil,
    range: Range,
    rule: RollingRange,
    i: int,
) -> Seq<Fulfillment> {
    match bucket_rank(times, now, range, rule, times[i].floor(range)) {
        Some(rank) => tag_if(
            rule.include_first && is_first(times, range, i),
            Fulfillment { range: Some(range), index: rank as usize, first_or_last: true },
        ) + tag_if(
            rule.include_last && is_last(times, range, i),
            Fulfillment { range: Some(range), index: rank as usize, first_or_last: false },
        ),
        None => Seq::empty(),
    }
}

/// The tag of the latest backups for the backup at `i` of `count`, the
/// earliest at 0: the newest has rank 1, and the `latest` newest are tagged.
pub open spec fn latest_tags(count: int, latest: int, i: int) -> Seq<Fulfillment> {
    tag_if(
        count - i <= latest,
        Fulfillment { range: None, index: (count - i) as usize, first_or_last: true },
    )
}

/// All the tags that a policy gives to the backup at `i`: that of the
/// latest, then those of the minutes, hours, days, months and years.
pub open spec fn tags(times: Seq<Civil>, now: Civil, ranges: Ranges, i: int) -> Seq<Fulfillment> {
    latest_tags(times.len() as int, ranges.latest as int, i)
        + range_tags(times, now, Range::Minute, ranges.minutes, i)
        + range_tags(times, now, Range::Hour, ranges.hours, i)
        + range_tags(times, now, Range::Day, ranges.days, i)
        + range_tags(times, now, Range::Month, ranges.months, i)
        + range_tags(times, now, Range::Year, ranges.years, i)
}

/// `after` is `before` with the tags added behind those it had.
pub open spec fn tagged(before: Entry, after: Entry, added: Seq<Fulfillment>) -> bool {
    &&& after.path == before.path
    &&& after.timestamp == before.timestamp
    &&& after.fulfills@ == before.fulfills@ + added
}

/// The given entries in strict order of time.
pub open spec fn arranged(given: Seq<Entry>) -> Seq<Entry> {
    choose|sorted: Seq<Entry>| is_arrangement(given, sorted)
}

/// `marked` holds the given entries in strict order of time, each with the
/// tags of the policy behind those it had.
pub open spec fn is_marking(given: Seq<Entry>, marked: Seq<Entry>, now: Civil, ranges: Ranges) -> bool {
    let sorted = arranged(given);
    &&& marked.len() == sorted.len()
    &&& forall|i: int|
        0 <= i < sorted.len() ==> tagged(
            sorted[i],
            #[trigger] marked[i],
            tags(timestamps(sorted), now, ranges, i),
        )
}

/// The first range of the ladder whose fixed cadence cannot be had is
/// `range`, and `amount` is the least number of units back for which that
/// is so.
pub open spec fn first_break(now: Civil, ranges: Ranges, range: Range, amount: int) -> bool {
    exists|step: int|
        0 <= step < 5 && #[trigger] ladder()[step] == range && cadence_breaks(
            now,
            range,
            ranges.rule(range),
            amount,
        ) && forall|earlier: int|
            0 <= earlier < step ==> cadence_holds(
                now,
                #[trigger] ladder()[earlier],
                ranges.rule(ladder()[earlier]),
            )
}

/// The times that a bucket gathers: those with the key as their floor, in
/// the order they come.
spec fn members_of(times: Seq<Civil>, range: Range, key: Civil) -> Seq<Civil> {
    times.filter(|time: Civil| time.floor(range) == key)
}

proof fn lemma_members_none(range: Range, key: Civil)
    ensures
        members_of(Seq::<Civil>::empty(), range, key) == Seq::<Civil>::empty(),
{
    Seq::<Civil>::empty().lemma_filter_len(|time: Civil| time.floor(range) == key);
    assert(members_of(Seq::<Civil>::empty(), range, key) =~= Seq::<Civil>::empty());
}

proof fn lemma_members_push(times: Seq<Civil>, range: Range, key: Civil, time: Civil)
    ensures
        members_of(times.push(time), range, key) == if time.floor(range) == key {
            members_of(times, range, key).push(time)
        } else {
            members_of(times, range, key)
        },
{
    times.lemma_filter_push(time, |time: Civil| time.floor(range) == key);
}

proof fn lemma_members(times: Seq<Civil>, range: Range, key: Civil)
    ensures
        forall|time: Civil|
            #![trigger members_of(times, range, key).contains(time)]
            members_of(times, range, key).contains(time) <==> times.contains(time) && time.floor(
                range,
            ) == key,
{
    let pred = |time: Civil| time.floor(range) == key;
    let kept = members_of(times, range, key);
    assert forall|time: Civil| #![trigger kept.contains(time)] kept.contains(time) implies times.contains(
        time,
    ) && time.floor(range) == key by {
        times.lemma_filter_contains_rev(pred, time);
        let k = choose|k: int| 0 <= k < kept.len() && kept[k] == time;
        times.lemma_filter_pred(pred, k);
    }
    assert forall|time: Civil|
        #![trigger kept.contains(time)]
        times.contains(time) && time.floor(range) == key implies kept.contains(time) by {
        let j = choose|j: int| 0 <= j < times.len() && times[j] == time;
        times.lemma_filter_contains(pred, j);
    }
}

/// The ends of a bucket: the first of its members in order of time is the
/// first backup of its floor, the last is the last, and no other backup is
/// either.
proof fn lemma_bucket_ends(times: Seq<Civil>, range: Range, key: Civil, sorted: Seq<Civil>)
    requires
        ascending(times),
        nondescending(sorted),
        sorted.to_multiset() == members_of(times, range, key).to_multiset(),
    ensures
        sorted.len() == 0 ==> forall|j: int|
            0 <= j < times.len() ==> (#[trigger] times[j]).floor(range) != key,
        sorted.len() > 0 ==> times.contains(sorted.first()) && times.contains(sorted.last()),
        forall|j: int|
            0 <= j < times.len() && (#[trigger] times[j]).floor(range) == key ==> sorted.len() > 0
                && (is_first(times, range, j) <==> times[j] == sorted.first()) && (is_last(
                times,
                range,
                j,
            ) <==> times[j] == sorted.last()),
{
    let kept = members_of(times, range, key);
    lemma_members(times, range, key);
    assert forall|time: Civil| sorted.contains(time) <==> #[trigger] kept.contains(time) by {
        to_multiset_contains(sorted, time);
        to_multiset_contains(kept, time);
    }
    if sorted.len() > 0 {
        assert(sorted.contains(sorted[0]));
        assert(sorted.contains(sorted[sorted.len() - 1]));
        assert(kept.contains(sorted.first()));
        assert(kept.contains(sorted.last()));
    }
    assert forall|j: int| 0 <= j < times.len() && (#[trigger] times[j]).floor(range)
        == key implies sorted.len() > 0 && (is_first(times, range, j) <==> times[j]
        == sorted.first()) && (is_last(times, range, j) <==> times[j] == sorted.last()) by {
        assert(times.contains(times[j]));
        assert(kept.contains(times[j]));
        assert(sorted.contains(times[j]));
        let at = choose|at: int| 0 <= at < sorted.len() && sorted[at] == times[j];
        let low = choose|low: int| 0 <= low < times.len() && times[low] == sorted.first();
        let high = choose|high: int| 0 <= high < times.len() && times[high] == sorted.last();
        assert(kept.contains(times[low]) && kept.contains(times[high]));
        assert(sorted.first().not_after(times[j])) by {
            if at > 0 {
                assert(sorted[0].not_after(sorted[at]));
            }
        }
        assert(times[j].not_after(sorted.last())) by {
            if at < sorted.len() - 1 {
                assert(sorted[at].not_after(sorted[sorted.len() - 1]));
            }
        }
        if times[j] == sorted.first() {
            assert forall|other: int|
                #![trigger times[other]]
                0 <= other < times.len() && times[other].floor(range) == times[j].floor(
                    range,
                ) implies !times[other].before(times[j]) by {
                assert(times.contains(times[other]));
                assert(kept.contains(times[other]));
                assert(sorted.contains(times[other]));
                let place = choose|place: int|
                    0 <= place < sorted.len() && sorted[place] == times[other];
                if place > 0 {
                    assert(sorted[0].not_after(sorted[place]));
                }
            }
        } else {
            if low < j {
                assert(times[low].before(times[j]));
            } else {
                assert(times[j].before(times[low]));
            }
            assert(!is_first(times, range, j));
        }
        if times[j] == sorted.last() {
            assert forall|other: int|
                #![trigger times[other]]
                0 <= other < times.len() && times[other].floor(range) == times[j].floor(
                    range,
                ) implies !times[j].before(times[other]) by {
                assert(times.contains(times[other]));
                assert(kept.contains(times[other]));
                assert(sorted.contains(times[other]));
                let place = choose|place: int|
                    0 <= place < sorted.len() && sorted[place] == times[other];
                if place < sorted.len() - 1 {
                    assert(sorted[place].not_after(sorted[sorted.len() - 1]));
                }
            }
        } else {
            if high < j {
                assert(times[high].before(times[j]));
            } else {
                assert(times[j].before(times[high]));
            }
            assert(!is_last(times, range, j));
        }
    }
    if sorted.len() == 0 {
        assert forall|j: int| 0 <= j < times.len() implies (#[trigger] times[j]).floor(range)
            != key by {
            if times[j].floor(range) == key {
                assert(times.contains(times[j]));
                assert(kept.contains(times[j]));
                assert(sorted.contains(times[j]));
            }
        }
    }
}

/// The tags of one range that the backup at `i` has once the `done` newest
/// buckets are dealt with.
spec fn tags_upto(
    times: Seq<Civil>,
    now: Civil,
    range: Range,
    rule: RollingRange,
    keys: Seq<Civil>,
    done: int,
    i: int,
) -> Seq<Fulfillment> {
    if keys.take(done).contains(times[i].floor(range)) {
        range_tags(times, now, range, rule, i)
    } else {
        Seq::empty()
    }
}

/// The tags that the backup at `i` has once the latest and the first
/// `steps` ranges of the ladder are marked.
spec fn tags_through(
    times: Seq<Civil>,
    now: Civil,
    ranges: Ranges,
    steps: int,
    i: int,
) -> Seq<Fulfillment>
    decreases steps,
{
    if steps <= 0 {
        latest_tags(times.len() as int, ranges.latest as int, i)
    } else {
        tags_through(times, now, ranges, steps - 1, i) + range_tags(
            times,
            now,
            ladder()[steps - 1],
            ranges.rule(ladder()[steps - 1]),
            i,
        )
    }
}

proof fn lemma_tags_through(times: Seq<Civil>, now: Civil, ranges: Ranges, i: int)
    ensures
        tags_through(times, now, ranges, 5, i) == tags(times, now, ranges, i),
{
    reveal_with_fuel(tags_through, 6);
}

proof fn lemma_ascending_unique(one: Seq<Entry>, other: Seq<Entry>)
    requires
        one.to_multiset() == other.to_multiset(),
        ascending(timestamps(one)),
        ascending(timestamps(other)),
    ensures
        one == other,
    decreases one.len(),
{
    one.to_multiset_ensures();
    other.to_multiset_ensures();
    if one.len() == 0 {
        assert(one =~= other);
    } else {
        let here = timestamps(one);
        let there = timestamps(other);
        to_multiset_contains(one, one[0]);
        to_multiset_contains(other, one[0]);
        to_multiset_contains(one, other[0]);
        to_multiset_contains(other, other[0]);
        assert(one.contains(one[0]));
        assert(other.contains(other[0]));
        let i = choose|i: int| 0 <= i < one.len() && one[i] == other[0];
        let j = choose|j: int| 0 <= j < other.len() && other[j] == one[0];
        assert(here[i] == there[0] && there[j] == here[0]);
        if i > 0 {
            assert(here[0].before(here[i]));
        }
        if j > 0 {
            assert(there[0].before(there[j]));
        }
        assert(one[0] == other[0]);
        to_multiset_remove(one, 0);
        to_multiset_remove(other, 0);
        let rest = one.remove(0);
        let others = other.remove(0);
        assert forall|a: int, b: int| 0 <= a < b < rest.len() implies timestamps(rest)[a].before(
            timestamps(rest)[b],
        ) by {
            assert(here[a + 1].before(here[b + 1]));
        }
        assert forall|a: int, b: int| 0 <= a < b < others.len() implies timestamps(
            others,
        )[a].before(timestamps(others)[b]) by {
            assert(there[a + 1].before(there[b + 1]));
        }
        lemma_ascending_unique(rest, others);
        assert(one =~= seq![one[0]] + rest);
        assert(other =~= seq![other[0]] + others);
    }
}

/// Entries have one arrangement in strict order of time, if any.
pub proof fn lemma_arrangement_unique(given: Seq<Entry>, one: Seq<Entry>, other: Seq<Entry>)
    requires
        is_arrangement(given, one),
        is_arrangement(given, other),
    ensures
        one == other,
        arranged(given) == one,
{
    lemma_ascending_unique(one, other);
    lemma_ascending_unique(one, arranged(given));
}

/// Adds `tag` behind the tags of the entry at `at`.
fn tag_entry(entries: &mut Vec<Entry>, at: usize, tag: Fulfillment)
    requires
        at < old(entries).len(),
    ensures
        final(entries).len() == old(entries).len(),
        forall|j: int|
            0 <= j < old(entries).len() && j != at ==> #[trigger] final(entries)@[j] == old(
                entries,
            )@[j],
        tagged(old(entries)@[at as int], final(entries)@[at as int], seq![tag]),
{
    entries[at].fulfills.push(tag);
    assert(entries@[at as int].fulfills@ =~= old(entries)@[at as int].fulfills@ + seq![tag]);
}

/// Marks the `latest` newest backups, the newest with rank 1. The backups
/// are given in order of time.
pub fn mark_latest(all_backups: &mut Vec<Entry>, latest: usize)
    ensures
        final(all_backups).len() == old(all_backups).len(),
        forall|i: int|
            0 <= i < old(all_backups).len() ==> tagged(
                old(all_backups)@[i],
                #[trigger] final(all_backups)@[i],
                latest_tags(old(all_backups).len() as int, latest as int, i),
            ),
{
    let count = all_backups.len();
    let ghost before = all_backups@;
    let mut done: usize = 0;
    assert forall|i: int| 0 <= i < count implies tagged(
        before[i],
        #[trigger] all_backups@[i],
        latest_tags(count as int, 0, i),
    ) by {
        assert(before[i].fulfills@ + Seq::<Fulfillment>::empty() =~= before[i].fulfills@);
    }
    while done < latest && done < count
        invariant
            done <= count,
            done <= latest,
            all_backups.len() == count,
            before.len() == count,
            forall|i: int|
                0 <= i < count ==> tagged(
                    before[i],
                    #[trigger] all_backups@[i],
                    latest_tags(count as int, done as int, i),
                ),
        decreases count - done,
    {
        let ghost start = all_backups@;
        tag_entry(
            all_backups,
            count - 1 - done,
            Fulfillment { range: None, index: done + 1, first_or_last: true },
        );
        proof {
            assert forall|i: int| 0 <= i < count implies tagged(
                before[i],
                #[trigger] all_backups@[i],
                latest_tags(count as int, done + 1, i),
            ) by {
                assert(tagged(before[i], start[i], latest_tags(count as int, done as int, i)));
                if i == count - 1 - done {
                    assert(all_backups@[i].fulfills@ =~= before[i].fulfills@ + latest_tags(
                        count as int,
                        done + 1,
                        i,
                    ));
                }
            }
        }
        done = done + 1;
    }
}

/// Marks the backups that the rule of one range keeps: the first and the
/// last of each bucket that it keeps, as far as it includes them. The
/// backups are given in strict order of time. Where the fixed cadence of
/// the rule cannot be had, nothing is marked.
pub fn mark_range(
    all_backups: &mut Vec<Entry>,
    now: Timestamp,
    range: Range,
    config: &RollingRange,
) -> (marked: Result<(), MarkError>)
    requires
        ascending(timestamps(old(all_backups)@)),
    ensures
        match marked {
            Ok(_) => {
                &&& cadence_holds(now@, range, *config)
                &&& final(all_backups).len() == old(all_backups).len()
                &&& forall|i: int|
                    0 <= i < old(all_backups).len() ==> tagged(
                        old(all_backups)@[i],
                        #[trigger] final(all_backups)@[i],
                        range_tags(timestamps(old(all_backups)@), now@, range, *config, i),
                    )
            },
            Err(MarkError::OutOfRange { range: failed, amount }) => {
                &&& failed == range
                &&& cadence_breaks(now@, range, *config, amount as int)
                &&& final(all_backups)@ == old(all_backups)@
            },
            Err(MarkError::TimestampConflict(_)) => false,
        },
{
    let ghost before = all_backups@;
    let ghost times = timestamps(before);
    // Create all buckets
    let bucket_timestamps: Vec<Timestamp> = if config.allow_sparse {
        let found = sparse_keys(all_backups, range, config.total);
        proof {
            seq_to_set_is_finite(floors(times, range));
            lemma_ranking(
                readings(found@),
                floors(times, range).to_set(),
                times,
                now@,
                range,
                *config,
            );
        }
        found
    } else {
        match cadence_keys(&now, range, config.total) {
            Ok(made) => {
                proof {
                    lemma_cadence_ranking(readings(made@), times, now@, range, *config);
                }
                made
            },
            Err(back) => {
                return Err(MarkError::OutOfRange { range, amount: back });
            },
        }
    };
    let ghost keys = readings(bucket_timestamps@);
    let mut buckets = Buckets::new(bucket_timestamps);
    proof {
        assert forall|k: int| 0 <= k < keys.len() implies #[trigger] buckets.members(k)
            == members_of(times.take(0), range, keys[k]) by {
            assert(times.take(0) =~= Seq::<Civil>::empty());
            lemma_members_none(range, keys[k]);
        }
    }
    // Place backups in buckets
    let mut i: usize = 0;
    while i < all_backups.len()
        invariant
            i <= all_backups.len(),
            all_backups@ == before,
            times == timestamps(before),
            buckets.wf(),
            buckets.keys() == keys,
            forall|k: int|
                0 <= k < keys.len() ==> #[trigger] buckets.members(k) == members_of(
                    times.take(i as int),
                    range,
                    keys[k],
                ),
        decreases all_backups.len() - i,
    {
        let backup_floored = all_backups[i].timestamp.floor(range);
        let stamp = all_backups[i].timestamp;
        let ghost filled = buckets;
        let _found_bucket = buckets.push(backup_floored, stamp);
        proof {
            assert(times.take(i + 1) =~= times.take(i as int).push(times[i as int]));
            assert forall|k: int| 0 <= k < keys.len() implies #[trigger] buckets.members(k)
                == members_of(times.take(i + 1), range, keys[k]) by {
                lemma_members_push(times.take(i as int), range, keys[k], times[i as int]);
                assert(filled.members(k) == members_of(times.take(i as int), range, keys[k]));
            }
        }
        i = i + 1;
    }
    assert(times.take(all_backups.len() as int) =~= times);
    // Sort buckets and take first/last
    let sorted = buckets.sorted();
    let mut k: usize = 0;
    while k < sorted.len()
        invariant
            k <= sorted.len(),
            sorted.len() == keys.len(),
            all_backups.len() == before.len(),
            times == timestamps(before),
            ascending(times),
            is_ranking(keys, times, now@, range, *config),
            forall|b: int|
                0 <= b < sorted.len() ==> nondescending(readings((#[trigger] sorted@[b]).1@)),
            forall|b: int|
                0 <= b < sorted.len() ==> readings((#[trigger] sorted@[b]).1@).to_multiset()
                    == members_of(times, range, keys[b]).to_multiset(),
            forall|i: int|
                0 <= i < before.len() ==> tagged(
                    before[i],
                    #[trigger] all_backups@[i],
                    tags_upto(times, now@, range, *config, keys, k as int, i),
                ),
        decreases sorted.len() - k,
    {
        let ghost start = all_backups@;
        let backup_timestamps = &sorted[k].1;
        let ghost members = readings(backup_timestamps@);
        let ghost key = keys[k as int];
        let ghost first_at: int = 0;
        let ghost last_at: int = 0;
        proof {
            lemma_bucket_ends(times, range, key, members);
            assert(timestamps(all_backups@) =~= times);
            if members.len() > 0 {
                first_at = choose|at: int| 0 <= at < times.len() && times[at] == members.first();
                last_at = choose|at: int| 0 <= at < times.len() && times[at] == members.last();
                assert(members.first() == backup_timestamps@[0]@);
                assert(members.last() == backup_timestamps@[backup_timestamps.len() - 1]@);
            }
        }
        if config.include_first && backup_timestamps.len() > 0 {
            let first_backup_timestamp = backup_timestamps[0];
            let found = find_entry(all_backups, &first_backup_timestamp);
            assert(found is Some) by {
                assert(timestamps(all_backups@)[first_at] == first_backup_timestamp@);
            }
            if let Some(at) = found {
                assert(at == first_at) by {
                    if at < first_at {
                        assert(times[at as int].before(times[first_at]));
                    } else if first_at < at {
                        assert(times[first_at].before(times[at as int]));
                    }
                }
                tag_entry(
                    all_backups,
                    at,
                    Fulfillment { range: Some(range), index: k + 1, first_or_last: true },
                );
            }
        }
        let ghost middle = all_backups@;
        assert(timestamps(all_backups@) =~= times);
        if config.include_last && backup_timestamps.len() > 0 {
            let last_backup_timestamp = backup_timestamps[backup_timestamps.len() - 1];
            let found = find_entry(all_backups, &last_backup_timestamp);
            assert(found is Some) by {
                assert(timestamps(all_backups@)[last_at] == last_backup_timestamp@);
            }
            if let Some(at) = found {
                assert(at == last_at) by {
                    if at < last_at {
                        assert(times[at as int].before(times[last_at]));
                    } else if last_at < at {
                        assert(times[last_at].before(times[at as int]));
                    }
                }
                tag_entry(
                    all_backups,
                    at,
                    Fulfillment { range: Some(range), index: k + 1, first_or_last: false },
                );
            }
        }
        proof {
            let first_tag = Fulfillment { range: Some(range), index: (k + 1) as usize, first_or_last: true };
            let last_tag = Fulfillment { range: Some(range), index: (k + 1) as usize, first_or_last: false };
            assert(bucket_rank(times, now@, range, *config, key) == Some((k + 1) as nat));
            assert forall|i: int| 0 <= i < before.len() implies tagged(
                before[i],
                #[trigger] all_backups@[i],
                tags_upto(times, now@, range, *config, keys, k + 1, i),
            ) by {
                let floor = times[i].floor(range);
                let had = tags_upto(times, now@, range, *config, keys, k as int, i);
                let has = tags_upto(times, now@, range, *config, keys, k + 1, i);
                assert(tagged(before[i], start[i], had));
                let dealt = keys.take(k as int);
                let next = keys.take(k + 1);
                assert(next =~= dealt.push(key));
                if floor == key {
                    assert(!dealt.contains(floor)) by {
                        if dealt.contains(floor) {
                            let j = choose|j: int| 0 <= j < dealt.len() && dealt[j] == floor;
                            assert(keys[k as int].before(keys[j]));
                        }
                    }
                    assert(next[k as int] == floor);
                    assert(had =~= Seq::<Fulfillment>::empty());
                    assert(times[i].floor(range) == key);
                    assert(members.len() > 0);
                    assert(is_first(times, range, i) <==> i == first_at) by {
                        if i < first_at {
                            assert(times[i].before(times[first_at]));
                        } else if first_at < i {
                            assert(times[first_at].before(times[i]));
                        }
                    }
                    assert(is_last(times, range, i) <==> i == last_at) by {
                        if i < last_at {
                            assert(times[i].before(times[last_at]));
                        } else if last_at < i {
                            assert(times[last_at].before(times[i]));
                        }
                    }
                    assert(has == tag_if(config.include_first && i == first_at, first_tag)
                        + tag_if(config.include_last && i == last_at, last_tag));
                    assert(all_backups@[i].fulfills@ =~= before[i].fulfills@ + has);
                } else {
                    assert(next.contains(floor) <==> dealt.contains(floor)) by {
                        if next.contains(floor) {
                            let j = choose|j: int| 0 <= j < next.len() && next[j] == floor;
                            assert(dealt[j] == floor);
                        }
                        if dealt.contains(floor) {
                            let j = choose|j: int| 0 <= j < dealt.len() && dealt[j] == floor;
                            assert(next[j] == floor);
                        }
                    }
                    assert(has == had);
                    if members.len() > 0 {
                        assert(i != first_at && i != last_at) by {
                            lemma_members(times, range, key);
                            to_multiset_contains(members, members.first());
                            to_multiset_contains(members, members.last());
                            to_multiset_contains(members_of(times, range, key), members.first());
                            to_multiset_contains(members_of(times, range, key), members.last());
                            assert(members.contains(members[0]));
                            assert(members.contains(members[members.len() - 1]));
                        }
                    }
                    assert(all_backups@[i] == start[i]);
                }
            }
        }
        k = k + 1;
    }
    proof {
        assert(keys.take(keys.len() as int) =~= keys);
        assert forall|i: int| 0 <= i < before.len() implies tagged(
            before[i],
            #[trigger] all_backups@[i],
            range_tags(times, now@, range, *config, i),
        ) by {
            assert(tagged(
                before[i],
                all_backups@[i],
                tags_upto(times, now@, range, *config, keys, keys.len() as int, i),
            ));
            if !keys.contains(times[i].floor(range)) {
                assert(bucket_rank(times, now@, range, *config, times[i].floor(range)) is None);
            }
        }
    }
    Ok(())
}

/// Marks every backup with the reasons for which the policy keeps it, and
/// returns the backups in order of time, the earliest first. A backup that
/// comes back without a reason is stale.
///
/// Fails where two backups share a time, and else where the fixed cadence
/// of a rule asks for a bucket that cannot be had.
pub fn read_backups(entries: Vec<Entry>, ranges: &Ranges, now: Timestamp) -> (marked: Result<
    Vec<Entry>,
    MarkError,
>)
    ensures
        match marked {
            Ok(list) => {
                &&& distinct(timestamps(entries@))
                &&& forall|step: int|
                    0 <= step < 5 ==> cadence_holds(
                        now@,
                        #[trigger] ladder()[step],
                        ranges.rule(ladder()[step]),
                    )
                &&& is_arrangement(entries@, arranged(entries@))
                &&& is_marking(entries@, list@, now@, *ranges)
            },
            Err(MarkError::TimestampConflict(conflict)) => exists|first: int, second: int|
                is_conflict(timestamps(entries@), first, second) && conflict.first
                    == entries@[first] && conflict.second == entries@[second],
            Err(MarkError::OutOfRange { range, amount }) => distinct(timestamps(entries@))
                && first_break(now@, *ranges, range, amount as int),
        },
{
    let mut all_backups = match sort_entries(entries) {
        Ok(list) => list,
        Err(conflict) => {
            return Err(MarkError::TimestampConflict(conflict));
        },
    };
    let ghost sorted = all_backups@;
    let ghost times = timestamps(sorted);
    proof {
        lemma_arrangement_unique(entries@, sorted, sorted);
    }
    // Mark latest
    mark_latest(&mut all_backups, ranges.latest);
    let rules = ranges.iter_ranges();
    let mut step: usize = 0;
    while step < 5
        invariant
            step <= 5,
            all_backups.len() == sorted.len(),
            distinct(timestamps(entries@)),
            times == timestamps(sorted),
            ascending(times),
            forall|i: int|
                0 <= i < 5 ==> (#[trigger] rules[i]).0 == ladder()[i] && *rules[i].1
                    == ranges.rule(ladder()[i]),
            forall|earlier: int|
                0 <= earlier < step ==> cadence_holds(
                    now@,
                    #[trigger] ladder()[earlier],
                    ranges.rule(ladder()[earlier]),
                ),
            forall|i: int|
                0 <= i < sorted.len() ==> tagged(
                    sorted[i],
                    #[trigger] all_backups@[i],
                    tags_through(times, now@, *ranges, step as int, i),
                ),
        decreases 5 - step,
    {
        let (range, range_config) = rules[step];
        let ghost start = all_backups@;
        assert(range == ladder()[step as int] && *range_config == ranges.rule(range));
        assert(timestamps(start) =~= times);
        match mark_range(&mut all_backups, now, range, range_config) {
            Ok(_) => {},
            Err(error) => {
                proof {
                    assert(first_break(
                        now@,
                        *ranges,
                        range,
                        error->OutOfRange_amount as int,
                    )) by {
                        assert(ladder()[step as int] == range);
                    }
                }
                return Err(error);
            },
        }
        proof {
            assert forall|i: int| 0 <= i < sorted.len() implies tagged(
                sorted[i],
                #[trigger] all_backups@[i],
                tags_through(times, now@, *ranges, step + 1, i),
            ) by {
                assert(tagged(start[i], all_backups@[i], range_tags(times, now@, range, *range_config, i)));
                assert(tagged(sorted[i], start[i], tags_through(times, now@, *ranges, step as int, i)));
                assert(all_backups@[i].fulfills@ =~= sorted[i].fulfills@ + tags_through(
                    times,
                    now@,
                    *ranges,
                    step + 1,
                    i,
                ));
            }
        }
        step = step + 1;
    }
    proof {
        assert forall|i: int| 0 <= i < sorted.len() implies tagged(
            sorted[i],
            #[trigger] all_backups@[i],
            tags(times, now@, *ranges, i),
        ) by {
            lemma_tags_through(times, now@, *ranges, i);
        }
    }
    Ok(all_backups)
}

} // verus!
