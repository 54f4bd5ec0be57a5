//! Buckets of timestamps under their keys, the newest key first.

use vstd::prelude::*;
use vstd::seq_lib::to_multiset_insert;
use crate::civil::{Civil, descending, nondescending};
use crate::timestamp::{Timestamp, readings};

verus! {

/// The number of `keys` that are strictly later than `target`; where
/// `target` is among them, that is its place.
pub fn locate(keys: &Vec<Timestamp>, target: &Timestamp) -> (place: usize)
    requires
        descending(readings(keys@)),
    ensures
        place <= keys.len(),
        forall|j: int| 0 <= j < place ==> target@.before(#[trigger] readings(keys@)[j]),
        forall|j: int| place <= j < keys.len() ==> !target@.before(#[trigger] readings(keys@)[j]),
{
    let mut low: usize = 0;
    let mut high: usize = keys.len();
    while low < high
        invariant
            low <= high <= keys.len(),
            descending(readings(keys@)),
            forall|j: int| 0 <= j < low ==> target@.before(#[trigger] readings(keys@)[j]),
            forall|j: int| high <= j < keys.len() ==> !target@.before(#[trigger] readings(keys@)[j]),
        decreases high - low,
    {
        let middle: usize = low + (high - low) / 2;
        assert(readings(keys@)[middle as int] == keys@[middle as int]@);
        if target.is_before(&keys[middle]) {
            low = middle + 1;
        } else {
            high = middle;
        }
    }
    low
}

/// The timestamps of `stamps` in order of time, the earliest first.
pub fn sort_stamps(stamps: &Vec<Timestamp>) -> (sorted: Vec<Timestamp>)
    ensures
        nondescending(readings(sorted@)),
        readings(sorted@).to_multiset() == readings(stamps@).to_multiset(),
        sorted.len() == stamps.len(),
{
    let mut sorted: Vec<Timestamp> = Vec::new();
    let mut i: usize = 0;
    assert(readings(sorted@) =~= readings(stamps@).take(0));
    while i < stamps.len()
        invariant
            i <= stamps.len(),
            sorted.len() == i,
            nondescending(readings(sorted@)),
            readings(sorted@).to_multiset() == readings(stamps@).take(i as int).to_multiset(),
        decreases stamps.len() - i,
    {
        let stamp = stamps[i];
        let mut place: usize = sorted.len();
        while place > 0 && stamp.is_before(&sorted[place - 1])
            invariant
                place <= sorted.len(),
                forall|j: int|
                    place <= j < sorted.len() ==> stamp@.before(#[trigger] readings(sorted@)[j]),
            decreases place,
        {
            assert(readings(sorted@)[place - 1] == sorted@[place - 1]@);
            place = place - 1;
        }
        proof {
            let before = readings(sorted@);
            let after = before.insert(place as int, stamp@);
            assert(readings(sorted@.insert(place as int, stamp)) =~= after);
            to_multiset_insert(before, place as int, stamp@);
            assert(readings(stamps@).take(i + 1) =~= readings(stamps@).take(i as int).push(
                stamp@,
            ));
            vstd::seq_lib::to_multiset_build(readings(stamps@).take(i as int), stamp@);
            assert(place > 0 ==> readings(sorted@)[place - 1] == sorted@[place - 1]@);
            assert forall|a: int, b: int| 0 <= a < b < after.len() implies after[a].not_after(
                after[b],
            ) by {
                if a < place && b > place {
                    assert(before[a].not_after(before[b - 1]));
                } else if a < place && b == place {
                    assert(before[a].not_after(before[place - 1]));
                } else if a == place {
                    assert(stamp@.before(before[b - 1]));
                } else if b < place {
                    assert(before[a].not_after(before[b]));
                } else {
                    assert(before[a - 1].not_after(before[b - 1]));
                }
            }
        }
        sorted.insert(place, stamp);
        i = i + 1;
    }
    assert(readings(stamps@).take(stamps.len() as int) =~= readings(stamps@));
    sorted
}

/// The keys of a list of buckets, one by one.
pub open spec fn listed_keys(list: Seq<(Timestamp, Vec<Timestamp>)>) -> Seq<Civil> {
    Seq::new(list.len(), |k: int| list[k].0@)
}

/// Timestamps gathered under keys. The keys are kept apart and in order,
/// the newest first; the members of a key stand in the order they came.
pub struct Buckets {
    keys: Vec<Timestamp>,
    members: Vec<Vec<Timestamp>>,
}

impl Buckets {
    /// The keys, the newest first.
    pub closed spec fn keys(self) -> Seq<Civil> {
        readings(self.keys@)
    }

    /// The members of the key at `place`, in the order they were pushed.
    pub closed spec fn members(self, place: int) -> Seq<Civil> {
        readings(self.members@[place]@)
    }

    /// Every key has its list of members, and no key occurs twice.
    pub closed spec fn wf(self) -> bool {
        &&& self.keys.len() == self.members.len()
        &&& descending(readings(self.keys@))
    }

    /// Empty buckets under the given keys; a key given twice counts once.
    pub fn new(buckets: Vec<Timestamp>) -> (made: Buckets)
        ensures
            made.wf(),
            descending(made.keys()),
            forall|f: Civil| made.keys().contains(f) <==> readings(buckets@).contains(f),
            descending(readings(buckets@)) ==> made.keys() == readings(buckets@),
            forall|k: int|
                0 <= k < made.keys().len() ==> #[trigger] made.members(k) == Seq::<Civil>::empty(),
    {
        let mut made = Buckets { keys: Vec::new(), members: Vec::new() };
        let ghost wanted = readings(buckets@);
        let mut i: usize = 0;
        assert(made.keys() =~= wanted.take(0));
        while i < buckets.len()
            invariant
                i <= buckets.len(),
                wanted == readings(buckets@),
                made.wf(),
                forall|k: int|
                    0 <= k < made.keys().len() ==> #[trigger] made.members(k) == Seq::<
                        Civil,
                    >::empty(),
                forall|f: Civil| made.keys().contains(f) <==> wanted.take(i as int).contains(f),
                descending(wanted) ==> made.keys() == wanted.take(i as int),
            decreases buckets.len() - i,
        {
            let ghost before = made.keys();
            made.add_key(buckets[i]);
            proof {
                let seen = wanted.take(i as int);
                let next = wanted.take(i + 1);
                assert(next =~= seen.push(wanted[i as int]));
                assert forall|f: Civil| made.keys().contains(f) <==> next.contains(f) by {
                    if seen.contains(f) {
                        let a = choose|a: int| 0 <= a < seen.len() && seen[a] == f;
                        assert(next[a] == f);
                    }
                    if next.contains(f) {
                        let a = choose|a: int| 0 <= a < next.len() && next[a] == f;
                        if a < i {
                            assert(seen[a] == f);
                        }
                    }
                    assert(next[i as int] == wanted[i as int]);
                }
                if descending(wanted) {
                    assert forall|k: int| 0 <= k < before.len() implies wanted[i as int].before(
                        #[trigger] before[k],
                    ) by {
                        assert(before[k] == wanted[k]);
                    }
                }
            }
            i = i + 1;
        }
        assert(wanted.take(buckets.len() as int) =~= wanted);
        made
    }

    /// Opens an empty bucket under `key`, unless there is one.
    fn add_key(&mut self, key: Timestamp)
        requires
            old(self).wf(),
            forall|k: int|
                0 <= k < old(self).keys().len() ==> #[trigger] old(self).members(k) == Seq::<
                    Civil,
                >::empty(),
        ensures
            final(self).wf(),
            forall|k: int|
                0 <= k < final(self).keys().len() ==> #[trigger] final(self).members(k) == Seq::<
                    Civil,
                >::empty(),
            forall|f: Civil|
                final(self).keys().contains(f) <==> old(self).keys().contains(f) || f == key@,
            (forall|k: int| 0 <= k < old(self).keys().len() ==> key@.before(
                #[trigger] old(self).keys()[k],
            )) ==> final(self).keys() == old(self).keys().push(key@),
    {
        let place = locate(&self.keys, &key);
        let ghost old_keys = readings(self.keys@);
        let ghost old_members = self.members@;
        assert(place < old_keys.len() ==> old_keys[place as int] == self.keys@[place as int]@);
        if place < self.keys.len() && self.keys[place].is_same(&key) {
            assert(old_keys.contains(key@));
        } else {
            self.keys.insert(place, key);
            self.members.insert(place, Vec::new());
            proof {
                let new_keys = readings(self.keys@);
                assert(new_keys =~= old_keys.insert(place as int, key@));
                assert forall|a: int, b: int| 0 <= a < b < new_keys.len() implies new_keys[b].before(
                    new_keys[a],
                ) by {
                    if b < place {
                        assert(old_keys[b].before(old_keys[a]));
                    } else if b == place {
                        assert(key@.before(old_keys[a]));
                    } else if a == place {
                        assert(!key@.before(old_keys[place as int]));
                        if b - 1 > place {
                            assert(old_keys[b - 1].before(old_keys[place as int]));
                        }
                    } else if a < place {
                        assert(old_keys[b - 1].before(old_keys[a]));
                    } else {
                        assert(old_keys[b - 1].before(old_keys[a - 1]));
                    }
                }
                assert forall|f: Civil| new_keys.contains(f) <==> old_keys.contains(f) || f
                    == key@ by {
                    if old_keys.contains(f) {
                        let k = choose|k: int| 0 <= k < old_keys.len() && old_keys[k] == f;
                        if k < place {
                            assert(new_keys[k] == f);
                        } else {
                            assert(new_keys[k + 1] == f);
                        }
                    }
                    if new_keys.contains(f) {
                        let k = choose|k: int| 0 <= k < new_keys.len() && new_keys[k] == f;
                        if k < place {
                            assert(old_keys[k] == f);
                        } else if k > place {
                            assert(old_keys[k - 1] == f);
                        }
                    }
                    assert(new_keys[place as int] == key@);
                }
                assert forall|k: int| 0 <= k < new_keys.len() implies #[trigger] self.members(k)
                    == Seq::<Civil>::empty() by {
                    if k < place {
                        assert(self.members@[k] == old_members[k]);
                        assert(old(self).members(k) == Seq::<Civil>::empty());
                    } else if k > place {
                        assert(self.members@[k] == old_members[k - 1]);
                        assert(old(self).members(k - 1) == Seq::<Civil>::empty());
                    } else {
                        assert(self.members(k) =~= Seq::<Civil>::empty());
                    }
                }
                if forall|k: int| 0 <= k < old_keys.len() ==> key@.before(#[trigger] old_keys[k]) {
                    if place < old_keys.len() {
                        assert(key@.before(old_keys[place as int]));
                    }
                    assert(new_keys =~= old_keys.push(key@));
                }
            }
        }
    }

    /// Puts `value` into the bucket of the key `bucket`, if there is one.
    pub fn push(&mut self, bucket: Timestamp, value: Timestamp) -> (found: bool)
        requires
            old(self).wf(),
        ensures
            final(self).wf(),
            final(self).keys() == old(self).keys(),
            descending(final(self).keys()),
            found == old(self).keys().contains(bucket@),
            forall|k: int|
                0 <= k < old(self).keys().len() ==> #[trigger] final(self).members(k) == if old(
                    self,
                ).keys()[k] == bucket@ {
                    old(self).members(k).push(value@)
                } else {
                    old(self).members(k)
                },
    {
        let place = locate(&self.keys, &bucket);
        let ghost keys = readings(self.keys@);
        assert(place < keys.len() ==> keys[place as int] == self.keys@[place as int]@);
        if place < self.keys.len() && self.keys[place].is_same(&bucket) {
            let ghost before = self.members@;
            self.members[place].push(value);
            proof {
                assert(keys.contains(bucket@));
                assert forall|k: int| 0 <= k < keys.len() implies #[trigger] self.members(k)
                    == if keys[k] == bucket@ {
                    old(self).members(k).push(value@)
                } else {
                    old(self).members(k)
                } by {
                    if k == place {
                        assert(readings(self.members@[k]@) =~= readings(before[k]@).push(value@));
                    } else {
                        assert(self.members@[k] == before[k]);
                        if k < place {
                            assert(keys[place as int].before(keys[k]));
                        } else {
                            assert(keys[k].before(keys[place as int]));
                        }
                    }
                }
            }
            true
        } else {
            proof {
                assert forall|k: int| 0 <= k < keys.len() implies keys[k] != bucket@ by {
                    if k > place {
                        assert(keys[k].before(keys[place as int]));
                    }
                }
            }
            false
        }
    }

    /// The buckets, one pair for each key, the newest key first, each with
    /// its members in order of time, the earliest first.
    pub fn sorted(&self) -> (list: Vec<(Timestamp, Vec<Timestamp>)>)
        requires
            self.wf(),
        ensures
            list.len() == self.keys().len(),
            listed_keys(list@) == self.keys(),
            descending(listed_keys(list@)),
            forall|k: int| 0 <= k < list.len() ==> (#[trigger] list@[k]).0@ == self.keys()[k],
            forall|k: int| 0 <= k < list.len() ==> nondescending(readings((#[trigger] list@[k]).1@)),
            forall|k: int|
                0 <= k < list.len() ==> readings((#[trigger] list@[k]).1@).to_multiset()
                    == self.members(k).to_multiset(),
    {
        let mut list: Vec<(Timestamp, Vec<Timestamp>)> = Vec::new();
        let mut k: usize = 0;
        while k < self.keys.len()
            invariant
                k <= self.keys.len(),
                self.keys.len() == self.members.len(),
                list.len() == k,
                forall|j: int| 0 <= j < k ==> (#[trigger] list@[j]).0@ == self.keys()[j],
                forall|j: int| 0 <= j < k ==> nondescending(readings((#[trigger] list@[j]).1@)),
                forall|j: int|
                    0 <= j < k ==> readings((#[trigger] list@[j]).1@).to_multiset()
                        == self.members(j).to_multiset(),
            decreases self.keys.len() - k,
        {
            let entries = sort_stamps(&self.members[k]);
            list.push((self.keys[k], entries));
            k = k + 1;
        }
        assert(listed_keys(list@) =~= self.keys());
        list
    }
}

} // verus!
