//! The keys of the buckets that a rule keeps, and their ranks.

use vstd::prelude::*;
use vstd::seq_lib::seq_to_set_is_finite;
use vstd::set_lib::lemma_len_subset;
use crate::arrange::timestamps;
use crate::config::RollingRange;
use crate::entry::Entry;
use crate::civil::{Civil, all_wf, ascending, descending};
use crate::timestamp::{Range, Timestamp, readings};

verus! {

/// The floor of each time, one by one.
pub open spec fn floors(times: Seq<Civil>, range: Range) -> Seq<Civil> {
    Seq::new(times.len(), |i: int| times[i].floor(range))
}

/// The key of the bucket that a fixed cadence places `back` units before
/// the unit of `now`; `None` where the amount is more than a shift takes,
/// or the key lies outside the years that a timestamp can name.
pub open spec fn cadence_key(now: Civil, range: Range, back: int) -> Option<Civil> {
    if back <= i32::MAX {
        now.floor(range).shift(range, -back)
    } else {
        None
    }
}

/// The fixed cadence of the rule can be had in full; a sparse rule has none.
pub open spec fn cadence_holds(now: Civil, range: Range, rule: RollingRange) -> bool {
    rule.allow_sparse || forall|back: int|
        0 <= back < rule.total ==> (#[trigger] cadence_key(now, range, back)) is Some
}

/// `amount` is the least number of units back for which the fixed cadence
/// of the rule cannot be had.
pub open spec fn cadence_breaks(now: Civil, range: Range, rule: RollingRange, amount: int) -> bool {
    &&& !rule.allow_sparse
    &&& 0 <= amount < rule.total
    &&& cadence_key(now, range, amount) is None
    &&& forall|back: int| 0 <= back < amount ==> (#[trigger] cadence_key(now, range, back)) is Some
}

/// The keys that a rule has to choose from: the floors of the backups
/// where it is sparse, else those of its fixed cadence.
pub open spec fn candidates(times: Seq<Civil>, now: Civil, range: Range, rule: RollingRange) -> Set<
    Civil,
> {
    if rule.allow_sparse {
        floors(times, range).to_set()
    } else {
        Set::new(
            |key: Civil|
                exists|back: int|
                    0 <= back < rule.total && #[trigger] cadence_key(now, range, back) == Some(key),
        )
    }
}

/// The keys that are strictly later than `key`.
pub open spec fn newer(keys: Set<Civil>, key: Civil) -> Set<Civil> {
    keys.filter(|other: Civil| key.before(other))
}

/// The rank of `key` among `keys`: 1 for the newest.
pub open spec fn rank(keys: Set<Civil>, key: Civil) -> nat {
    newer(keys, key).len() + 1
}

/// The rank of the bucket with this key, where the rule keeps it: the
/// buckets kept are the `total` newest of the candidates.
pub open spec fn bucket_rank(
    times: Seq<Civil>,
    now: Civil,
    range: Range,
    rule: RollingRange,
    key: Civil,
) -> Option<nat> {
    let all = candidates(times, now, range, rule);
    if all.contains(key) && rank(all, key) <= rule.total {
        Some(rank(all, key))
    } else {
        None
    }
}

/// The keys of the buckets that a rule keeps.
pub open spec fn bucket_keys(times: Seq<Civil>, now: Civil, range: Range, rule: RollingRange) -> Set<
    Civil,
> {
    candidates(times, now, range, rule).filter(
        |key: Civil| bucket_rank(times, now, range, rule, key) is Some,
    )
}

/// `keys` are the `total` newest of `all`, or all of them where they are
/// fewer, the newest first.
pub open spec fn is_selection(keys: Seq<Civil>, all: Set<Civil>, total: nat) -> bool {
    &&& descending(keys)
    &&& keys.len() <= total
    &&& forall|k: int| 0 <= k < keys.len() ==> all.contains(#[trigger] keys[k])
    &&& forall|key: Civil|
        #![trigger keys.contains(key)]
        all.contains(key) && !keys.contains(key) ==> keys.len() == total && forall|k: int|
            0 <= k < keys.len() ==> key.before(#[trigger] keys[k])
}

/// `keys` are the keys of the buckets that the rule keeps, each at its
/// rank.
pub open spec fn is_ranking(
    keys: Seq<Civil>,
    times: Seq<Civil>,
    now: Civil,
    range: Range,
    rule: RollingRange,
) -> bool {
    &&& descending(keys)
    &&& forall|k: int|
        0 <= k < keys.len() ==> bucket_rank(times, now, range, rule, #[trigger] keys[k]) == Some(
            (k + 1) as nat,
        )
    &&& forall|key: Civil|
        #![trigger keys.contains(key)]
        !keys.contains(key) ==> bucket_rank(times, now, range, rule, key) is None
}

/// Times that descend strictly are all different.
pub proof fn lemma_descending_distinct(times: Seq<Civil>)
    requires
        descending(times),
    ensures
        times.no_duplicates(),
{
    assert forall|a: int, b: int| 0 <= a < times.len() && 0 <= b < times.len() && a
        != b implies times[a] != times[b] by {
        if a < b {
            assert(times[b].before(times[a]));
        } else {
            assert(times[a].before(times[b]));
        }
    }
}

/// The keys that a fixed cadence has to choose from are those of its steps.
proof fn lemma_cadence_candidates(
    keys: Seq<Civil>,
    times: Seq<Civil>,
    now: Civil,
    range: Range,
    rule: RollingRange,
)
    requires
        !rule.allow_sparse,
        keys.len() == rule.total,
        forall|back: int|
            0 <= back < rule.total ==> #[trigger] cadence_key(now, range, back) == Some(keys[back]),
    ensures
        candidates(times, now, range, rule) == keys.to_set(),
{
    let all = candidates(times, now, range, rule);
    assert(all =~= keys.to_set()) by {
        assert forall|key: Civil| all.contains(key) implies keys.to_set().contains(key) by {
            let back = choose|back: int|
                0 <= back < rule.total && #[trigger] cadence_key(now, range, back) == Some(key);
            assert(keys[back] == key);
        }
        assert forall|key: Civil| keys.to_set().contains(key) implies all.contains(key) by {
            let back = choose|back: int| 0 <= back < keys.len() && keys[back] == key;
            assert(cadence_key(now, range, back) == Some(key));
        }
    }
}

/// In a selection each key stands at its rank, and what it leaves out ranks
/// behind it.
pub proof fn lemma_selection_ranks(keys: Seq<Civil>, all: Set<Civil>, total: nat)
    requires
        is_selection(keys, all, total),
        all.finite(),
    ensures
        forall|k: int| 0 <= k < keys.len() ==> rank(all, #[trigger] keys[k]) == k + 1,
        forall|key: Civil|
            #![trigger keys.contains(key)]
            all.contains(key) && !keys.contains(key) ==> rank(all, key) > total,
        keys.len() == if total <= all.len() {
            total
        } else {
            all.len()
        },
{
    assert forall|k: int| 0 <= k < keys.len() implies rank(all, #[trigger] keys[k]) == k + 1 by {
        let front = keys.take(k);
        assert(newer(all, keys[k]) =~= front.to_set()) by {
            assert forall|other: Civil| newer(all, keys[k]).contains(other) implies front.to_set().contains(
                other,
            ) by {
                if !keys.contains(other) {
                    assert(other.before(keys[k]));
                }
                let j = choose|j: int| 0 <= j < keys.len() && keys[j] == other;
                if j > k {
                    assert(keys[j].before(keys[k]));
                }
                assert(front[j] == other);
            }
            assert forall|other: Civil| front.to_set().contains(other) implies newer(
                all,
                keys[k],
            ).contains(other) by {
                let j = choose|j: int| 0 <= j < front.len() && front[j] == other;
                assert(keys[j] == other);
                assert(keys[k].before(keys[j]));
            }
        }
        assert(descending(front)) by {
            assert forall|a: int, b: int| 0 <= a < b < front.len() implies front[b].before(
                front[a],
            ) by {
                assert(keys[b].before(keys[a]));
            }
        }
        lemma_descending_distinct(front);
        front.unique_seq_to_set();
    }
    lemma_descending_distinct(keys);
    keys.unique_seq_to_set();
    assert(keys.to_set().subset_of(all)) by {
        assert forall|key: Civil| keys.to_set().contains(key) implies all.contains(key) by {
            let j = choose|j: int| 0 <= j < keys.len() && keys[j] == key;
        }
    }
    lemma_len_subset(keys.to_set(), all);
    assert forall|key: Civil|
        #![trigger keys.contains(key)]
        all.contains(key) && !keys.contains(key) implies rank(all, key) > total by {
        all.lemma_len_filter(|other: Civil| key.before(other));
        assert(keys.to_set().subset_of(newer(all, key))) by {
            assert forall|other: Civil| keys.to_set().contains(other) implies newer(
                all,
                key,
            ).contains(other) by {
                let j = choose|j: int| 0 <= j < keys.len() && keys[j] == other;
                assert(key.before(keys[j]));
            }
        }
        lemma_len_subset(keys.to_set(), newer(all, key));
    }
    if keys.len() < total {
        assert(keys.to_set() =~= all) by {
            assert forall|key: Civil| all.contains(key) implies keys.to_set().contains(key) by {
                assert(keys.contains(key));
            }
        }
    }
}

pub proof fn lemma_ranking(
    keys: Seq<Civil>,
    all: Set<Civil>,
    times: Seq<Civil>,
    now: Civil,
    range: Range,
    rule: RollingRange,
)
    requires
        is_selection(keys, all, rule.total as nat),
        all.finite(),
        all == candidates(times, now, range, rule),
    ensures
        is_ranking(keys, times, now, range, rule),
{
    lemma_selection_ranks(keys, all, rule.total as nat);
    assert forall|key: Civil| #![trigger keys.contains(key)] !keys.contains(key) implies bucket_rank(
        times,
        now,
        range,
        rule,
        key,
    ) is None by {
        if all.contains(key) {
            assert(rank(all, key) > rule.total);
        }
    }
}

pub proof fn lemma_cadence_ranking(
    keys: Seq<Civil>,
    times: Seq<Civil>,
    now: Civil,
    range: Range,
    rule: RollingRange,
)
    requires
        !rule.allow_sparse,
        keys.len() == rule.total,
        descending(keys),
        forall|back: int|
            0 <= back < rule.total ==> #[trigger] cadence_key(now, range, back) == Some(keys[back]),
    ensures
        is_ranking(keys, times, now, range, rule),
        cadence_holds(now, range, rule),
{
    let all = candidates(times, now, range, rule);
    lemma_cadence_candidates(keys, times, now, range, rule);
    seq_to_set_is_finite(keys);
    assert forall|k: int| 0 <= k < keys.len() implies all.contains(#[trigger] keys[k]) by {
        assert(keys.contains(keys[k]));
    }
    lemma_ranking(keys, all, times, now, range, rule);
}

/// Learns of every entry that its time names a second that exists.
fn confirm_entries(entries: &Vec<Entry>)
    ensures
        all_wf(timestamps(entries@)),
{
    let mut i: usize = 0;
    while i < entries.len()
        invariant
            i <= entries.len(),
            forall|j: int| 0 <= j < i ==> (#[trigger] timestamps(entries@)[j]).wf(),
        decreases entries.len() - i,
    {
        entries[i].timestamp.confirm_wf();
        i = i + 1;
    }
}

/// The keys of a sparse rule: the floors of the backups' times, each once,
/// the newest first, and no more than `total` of them. So there are
/// `total` keys, or as many as there are floors where those are fewer.
pub fn sparse_keys(entries: &Vec<Entry>, range: Range, total: usize) -> (keys: Vec<Timestamp>)
    requires
        ascending(timestamps(entries@)),
    ensures
        is_selection(
            readings(keys@),
            floors(timestamps(entries@), range).to_set(),
            total as nat,
        ),
        keys.len() == if total <= floors(timestamps(entries@), range).to_set().len() {
            total as nat
        } else {
            floors(timestamps(entries@), range).to_set().len()
        },
{
    confirm_entries(entries);
    let ghost times = timestamps(entries@);
    let ghost all = floors(times, range);
    let mut keys: Vec<Timestamp> = Vec::new();
    let mut i: usize = entries.len();
    while i > 0 && keys.len() < total
        invariant
            i <= entries.len(),
            times == timestamps(entries@),
            all == floors(times, range),
            ascending(times),
            all_wf(times),
            descending(readings(keys@)),
            keys.len() <= total,
            forall|k: int| 0 <= k < keys.len() ==> all.contains(#[trigger] readings(keys@)[k]),
            forall|j: int| i <= j < all.len() ==> readings(keys@).contains(#[trigger] all[j]),
            i < entries.len() ==> keys.len() > 0 && readings(keys@).last() == all[i as int],
            i == entries.len() ==> keys.len() == 0,
        decreases i,
    {
        let ghost old_keys = readings(keys@);
        i = i - 1;
        let floor = entries[i].timestamp.floor(range);
        assert(floor@ == all[i as int]);
        assert(keys.len() > 0 ==> old_keys.last() == keys@[keys.len() - 1]@);
        if keys.len() == 0 || !keys[keys.len() - 1].is_same(&floor) {
            proof {
                if keys.len() > 0 {
                    assert(times[i as int].before(times[i + 1]));
                    times[i as int].lemma_floor_monotone(times[i + 1], range);
                    assert(floor@.before(old_keys.last()));
                }
            }
            keys.push(floor);
            proof {
                let new_keys = readings(keys@);
                assert(new_keys =~= old_keys.push(floor@));
                assert forall|a: int, b: int| 0 <= a < b < new_keys.len() implies new_keys[b].before(
                    new_keys[a],
                ) by {
                    if b < old_keys.len() {
                        assert(old_keys[b].before(old_keys[a]));
                    } else if a < old_keys.len() - 1 {
                        assert(old_keys.last().before(old_keys[a]));
                    }
                }
                assert forall|j: int| i <= j < all.len() implies new_keys.contains(
                    #[trigger] all[j],
                ) by {
                    if j > i {
                        let k = choose|k: int| 0 <= k < old_keys.len() && old_keys[k] == all[j];
                        assert(new_keys[k] == all[j]);
                    } else {
                        assert(new_keys[old_keys.len() as int] == all[j]);
                    }
                }
            }
        } else {
            assert(readings(keys@).contains(all[i as int])) by {
                assert(readings(keys@)[keys.len() - 1] == all[i as int]);
            }
        }
    }
    proof {
        let found = readings(keys@);
        seq_to_set_is_finite(all);
        assert forall|key: Civil|
            #![trigger found.contains(key)]
            all.to_set().contains(key) && !found.contains(key) implies found.len() == total
            && forall|k: int| 0 <= k < found.len() ==> key.before(#[trigger] found[k]) by {
            let j = choose|j: int| 0 <= j < all.len() && all[j] == key;
            assert(j < i);
            if i < entries.len() {
                assert(times[j].before(times[i as int]));
                times[j].lemma_floor_monotone(times[i as int], range);
                times[j].lemma_floor_wf(range);
                times[i as int].lemma_floor_wf(range);
                all[j].lemma_order_by_fields(all[i as int]);
                assert(key.before(found.last()));
                assert forall|k: int| 0 <= k < found.len() implies key.before(
                    #[trigger] found[k],
                ) by {
                    if k < found.len() - 1 {
                        assert(found.last().before(found[k]));
                    }
                }
            }
        }
        assert forall|k: int| 0 <= k < found.len() implies all.to_set().contains(
            #[trigger] found[k],
        ) by {
            assert(all.contains(found[k]));
        }
        lemma_selection_ranks(found, all.to_set(), total as nat);
    }
    keys
}

/// The keys of a fixed cadence: the unit of `now` and the `total - 1`
/// units before it, the newest first, whether or not a backup lies in them.
/// Where one of them cannot be had, the least number of units back for
/// which that is so.
pub fn cadence_keys(now: &Timestamp, range: Range, total: usize) -> (keys: Result<
    Vec<Timestamp>,
    usize,
>)
    ensures
        match keys {
            Ok(list) => {
                &&& list.len() == total
                &&& descending(readings(list@))
                &&& forall|back: int|
                    0 <= back < total ==> #[trigger] cadence_key(now@, range, back) == Some(
                        readings(list@)[back],
                    )
            },
            Err(back) => {
                &&& back < total
                &&& cadence_key(now@, range, back as int) is None
                &&& forall|less: int|
                    0 <= less < back ==> (#[trigger] cadence_key(now@, range, less)) is Some
            },
        },
{
    now.confirm_wf();
    let base = now.floor(range);
    proof {
        now@.lemma_floor_wf(range);
    }
    let mut list: Vec<Timestamp> = Vec::new();
    let mut back: usize = 0;
    while back < total
        invariant
            back <= total,
            list.len() == back,
            base@ == now@.floor(range),
            base@.wf(),
            base@.floor(range) == base@,
            descending(readings(list@)),
            forall|less: int|
                0 <= less < back ==> #[trigger] cadence_key(now@, range, less) == Some(
                    readings(list@)[less],
                ),
            forall|less: int|
                0 <= less < back ==> base@.is_shift(range, -less, #[trigger] readings(list@)[less]),
        decreases total - back,
    {
        if back > 2147483647 {
            return Err(back);
        }
        let amount: i32 = -(back as i32);
        let ghost old_list = readings(list@);
        match base.shift(range, amount) {
            Some(key) => {
                list.push(key);
                proof {
                    let new_list = readings(list@);
                    assert(new_list =~= old_list.push(key@));
                    assert forall|a: int, b: int| 0 <= a < b < new_list.len() implies new_list[b].before(
                        new_list[a],
                    ) by {
                        if b < old_list.len() {
                            assert(old_list[b].before(old_list[a]));
                        } else {
                            assert(base@.is_shift(range, -a, old_list[a]));
                            base@.lemma_shift_order(range, -b, -a, new_list[b], new_list[a]);
                        }
                    }
                    assert forall|less: int| 0 <= less < back + 1 implies #[trigger] cadence_key(
                        now@,
                        range,
                        less,
                    ) == Some(new_list[less]) by {
                        if less < back {
                            assert(cadence_key(now@, range, less) == Some(old_list[less]));
                        }
                    }
                    assert forall|less: int| 0 <= less < back + 1 implies base@.is_shift(
                        range,
                        -less,
                        #[trigger] new_list[less],
                    ) by {
                        if less < back {
                            assert(base@.is_shift(range, -less, old_list[less]));
                        }
                    }
                }
            },
            None => {
                return Err(back);
            },
        }
        back = back + 1;
    }
    Ok(list)
}

/// A fixed cadence has exactly `total` keys to choose from, whatever the
/// backups are and however many there are.
pub proof fn lemma_cadence_count(times: Seq<Civil>, now: Civil, range: Range, rule: RollingRange)
    requires
        now.wf(),
        !rule.allow_sparse,
        cadence_holds(now, range, rule),
    ensures
        candidates(times, now, range, rule).finite(),
        candidates(times, now, range, rule).len() == rule.total,
{
    let base = now.floor(range);
    let keys = Seq::new(rule.total as nat, |back: int| cadence_key(now, range, back).unwrap());
    now.lemma_floor_wf(range);
    assert forall|a: int, b: int| 0 <= a < b < keys.len() implies keys[b].before(keys[a]) by {
        assert(cadence_key(now, range, a) is Some);
        assert(cadence_key(now, range, b) is Some);
        base.lemma_shift(range, -a);
        base.lemma_shift(range, -b);
        base.lemma_shift_order(range, -b, -a, keys[b], keys[a]);
    }
    assert forall|back: int| 0 <= back < rule.total implies #[trigger] cadence_key(
        now,
        range,
        back,
    ) == Some(keys[back]) by {
        assert(cadence_key(now, range, back) is Some);
    }
    lemma_cadence_ranking(keys, times, now, range, rule);
    let all = candidates(times, now, range, rule);
    lemma_cadence_candidates(keys, times, now, range, rule);
    seq_to_set_is_finite(keys);
    lemma_descending_distinct(keys);
    keys.unique_seq_to_set();
}

/// Among finitely many times there is one that none of them is later than.
proof fn lemma_newest(all: Set<Civil>) -> (newest: Civil)
    requires
        all.finite(),
        all.len() > 0,
    ensures
        all.contains(newest),
        forall|other: Civil| all.contains(other) ==> other.not_after(newest),
    decreases all.len(),
{
    let one = all.choose();
    let rest = all.remove(one);
    if rest.len() == 0 {
        assert forall|other: Civil| all.contains(other) implies other.not_after(one) by {
            if other != one {
                assert(rest.contains(other));
            }
        }
        one
    } else {
        let best = lemma_newest(rest);
        let newest = if best.before(one) {
            one
        } else {
            best
        };
        assert forall|other: Civil| all.contains(other) implies other.not_after(newest) by {
            if other != one {
                assert(rest.contains(other));
            }
        }
        newest
    }
}

/// Of finitely many times that exist, the `total` newest can be listed, the
/// newest first.
proof fn lemma_selection(all: Set<Civil>, total: nat) -> (keys: Seq<Civil>)
    requires
        all.finite(),
        forall|key: Civil| all.contains(key) ==> key.wf(),
    ensures
        is_selection(keys, all, total),
    decreases total,
{
    if total == 0 || all.len() == 0 {
        let keys = Seq::<Civil>::empty();
        assert forall|key: Civil| #![trigger keys.contains(key)] all.contains(key) implies total
            == 0 by {
            if all.len() == 0 {
                assert(all =~= Set::<Civil>::empty());
            }
        }
        keys
    } else {
        let newest = lemma_newest(all);
        let rest = all.remove(newest);
        let others = lemma_selection(rest, (total - 1) as nat);
        let keys = seq![newest] + others;
        assert forall|a: int, b: int| 0 <= a < b < keys.len() implies keys[b].before(keys[a]) by {
            assert(rest.contains(others[b - 1]));
            if a == 0 {
                assert(keys[b].not_after(newest));
                keys[b].lemma_order_by_fields(newest);
            } else {
                assert(others[b - 1].before(others[a - 1]));
            }
        }
        assert forall|k: int| 0 <= k < keys.len() implies all.contains(#[trigger] keys[k]) by {
            if k > 0 {
                assert(rest.contains(others[k - 1]));
            }
        }
        assert forall|key: Civil|
            #![trigger keys.contains(key)]
            all.contains(key) && !keys.contains(key) implies keys.len() == total && forall|k: int|
            0 <= k < keys.len() ==> key.before(#[trigger] keys[k]) by {
            assert(keys[0] == newest);
            assert(rest.contains(key));
            if others.contains(key) {
                let j = choose|j: int| 0 <= j < others.len() && others[j] == key;
                assert(keys[j + 1] == key);
            }
            assert(!others.contains(key));
            key.lemma_order_by_fields(newest);
            assert forall|k: int| 0 <= k < keys.len() implies key.before(#[trigger] keys[k]) by {
                if k > 0 {
                    assert(key.before(others[k - 1]));
                }
            }
        }
        keys
    }
}

/// A sparse rule keeps `total` buckets, or as many as the backups have
/// floors where those are fewer.
pub proof fn lemma_sparse_count(times: Seq<Civil>, now: Civil, range: Range, rule: RollingRange)
    requires
        rule.allow_sparse,
        all_wf(times),
    ensures
        bucket_keys(times, now, range, rule).finite(),
        bucket_keys(times, now, range, rule).len() == if rule.total <= floors(
            times,
            range,
        ).to_set().len() {
            rule.total as nat
        } else {
            floors(times, range).to_set().len()
        },
{
    let all = floors(times, range).to_set();
    seq_to_set_is_finite(floors(times, range));
    assert forall|key: Civil| all.contains(key) implies key.wf() by {
        let j = choose|j: int| 0 <= j < times.len() && floors(times, range)[j] == key;
        times[j].lemma_floor_wf(range);
    }
    let keys = lemma_selection(all, rule.total as nat);
    lemma_selection_ranks(keys, all, rule.total as nat);
    let kept = bucket_keys(times, now, range, rule);
    assert(kept =~= keys.to_set()) by {
        assert forall|key: Civil| kept.contains(key) implies keys.to_set().contains(key) by {
            if !keys.contains(key) {
                assert(rank(all, key) > rule.total);
            }
        }
        assert forall|key: Civil| keys.to_set().contains(key) implies kept.contains(key) by {
            let k = choose|k: int| 0 <= k < keys.len() && keys[k] == key;
            assert(rank(all, keys[k]) == k + 1);
        }
    }
    seq_to_set_is_finite(keys);
    lemma_descending_distinct(keys);
    keys.unique_seq_to_set();
}

} // verus!
