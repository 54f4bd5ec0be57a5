//! What holds of every marking: laws of the tags that a policy gives.

use vstd::prelude::*;
use crate::config::{Ranges, RollingRange};
use crate::entry::{Entry, Fulfillment};
use crate::arrange::timestamps;
use crate::mark::{
    arranged, is_first, is_last, is_marking, latest_tags, range_tags, tag_if,
    tagged, tags,
};
use crate::keys::bucket_rank;
use crate::civil::Civil;
use crate::timestamp::Range;

verus! {

/// The tags among `tags` that the rule of `range` gave, or the rule of the
/// latest where `range` is `None`.
pub open spec fn tags_of(tags: Seq<Fulfillment>, range: Option<Range>) -> Seq<Fulfillment> {
    tags.filter(|tag: Fulfillment| tag.range == range)
}

proof fn lemma_tags_of_sum(one: Seq<Fulfillment>, other: Seq<Fulfillment>, range: Option<Range>)
    ensures
        tags_of(one + other, range) == tags_of(one, range) + tags_of(other, range),
{
    Seq::filter_distributes_over_add(one, other, |tag: Fulfillment| tag.range == range);
}

proof fn lemma_tags_of_tag(wanted: bool, tag: Fulfillment, range: Option<Range>)
    ensures
        tags_of(tag_if(wanted, tag), range) == tag_if(wanted && tag.range == range, tag),
{
    let pred = |tag: Fulfillment| tag.range == range;
    let none = Seq::<Fulfillment>::empty();
    none.lemma_filter_len(pred);
    assert(none.filter(pred) =~= none);
    none.lemma_filter_push(tag, pred);
    assert(none.push(tag) =~= seq![tag]);
    assert(tags_of(tag_if(wanted, tag), range) =~= tag_if(wanted && tag.range == range, tag));
}

/// The rule of a range gives tags of that range alone.
proof fn lemma_tags_of_range(
    times: Seq<Civil>,
    now: Civil,
    range: Range,
    rule: RollingRange,
    i: int,
    wanted: Option<Range>,
)
    ensures
        tags_of(range_tags(times, now, range, rule, i), wanted) == if wanted == Some(range) {
            range_tags(times, now, range, rule, i)
        } else {
            Seq::<Fulfillment>::empty()
        },
{
    let none = Seq::<Fulfillment>::empty();
    match bucket_rank(times, now, range, rule, times[i].floor(range)) {
        Some(rank) => {
            let first = Fulfillment { range: Some(range), index: rank as usize, first_or_last: true };
            let last = Fulfillment { range: Some(range), index: rank as usize, first_or_last: false };
            let with_first = rule.include_first && is_first(times, range, i);
            let with_last = rule.include_last && is_last(times, range, i);
            lemma_tags_of_sum(tag_if(with_first, first), tag_if(with_last, last), wanted);
            lemma_tags_of_tag(with_first, first, wanted);
            lemma_tags_of_tag(with_last, last, wanted);
            if wanted != Some(range) {
                assert(none + none =~= none);
            }
        },
        None => {
            none.lemma_filter_len(|tag: Fulfillment| tag.range == wanted);
            assert(tags_of(none, wanted) =~= none);
        },
    }
}

/// What a policy gives a backup, rule by rule: the tags with no range are
/// those of the latest, and the tags of a range are those of its rule.
pub proof fn lemma_tags_by_rule(
    times: Seq<Civil>,
    now: Civil,
    ranges: Ranges,
    i: int,
    wanted: Option<Range>,
)
    ensures
        tags_of(tags(times, now, ranges, i), wanted) == match wanted {
            None => latest_tags(times.len() as int, ranges.latest as int, i),
            Some(range) => range_tags(times, now, range, ranges.rule(range), i),
        },
{
    let none = Seq::<Fulfillment>::empty();
    let latest = latest_tags(times.len() as int, ranges.latest as int, i);
    let minutes = range_tags(times, now, Range::Minute, ranges.minutes, i);
    let hours = range_tags(times, now, Range::Hour, ranges.hours, i);
    let days = range_tags(times, now, Range::Day, ranges.days, i);
    let months = range_tags(times, now, Range::Month, ranges.months, i);
    let years = range_tags(times, now, Range::Year, ranges.years, i);
    lemma_tags_of_tag(
        times.len() - i <= ranges.latest,
        Fulfillment { range: None, index: (times.len() - i) as usize, first_or_last: true },
        wanted,
    );
    lemma_tags_of_range(times, now, Range::Minute, ranges.minutes, i, wanted);
    lemma_tags_of_range(times, now, Range::Hour, ranges.hours, i, wanted);
    lemma_tags_of_range(times, now, Range::Day, ranges.days, i, wanted);
    lemma_tags_of_range(times, now, Range::Month, ranges.months, i, wanted);
    lemma_tags_of_range(times, now, Range::Year, ranges.years, i, wanted);
    lemma_tags_of_sum(latest, minutes, wanted);
    lemma_tags_of_sum(latest + minutes, hours, wanted);
    lemma_tags_of_sum(latest + minutes + hours, days, wanted);
    lemma_tags_of_sum(latest + minutes + hours + days, months, wanted);
    lemma_tags_of_sum(latest + minutes + hours + days + months, years, wanted);
    let found = tags_of(latest, wanted) + tags_of(minutes, wanted) + tags_of(hours, wanted)
        + tags_of(days, wanted) + tags_of(months, wanted) + tags_of(years, wanted);
    assert(tags_of(tags(times, now, ranges, i), wanted) == found);
    match wanted {
        None => {
            assert(found =~= latest);
        },
        Some(range) => {
            assert(found =~= range_tags(times, now, range, ranges.rule(range), i));
        },
    }
}

/// Marking has one result: for given backups, policy and time, every
/// marking holds the same backups in the same order with the same tags.
pub proof fn lemma_marking_unique(
    given: Seq<Entry>,
    now: Civil,
    ranges: Ranges,
    one: Seq<Entry>,
    other: Seq<Entry>,
)
    requires
        is_marking(given, one, now, ranges),
        is_marking(given, other, now, ranges),
    ensures
        one.len() == other.len(),
        forall|i: int|
            0 <= i < one.len() ==> (#[trigger] one[i]).path == other[i].path && one[i].timestamp
                == other[i].timestamp && one[i].fulfills@ == other[i].fulfills@,
{
    let sorted = arranged(given);
    assert forall|i: int| 0 <= i < one.len() implies (#[trigger] one[i]).path == other[i].path
        && one[i].timestamp == other[i].timestamp && one[i].fulfills@ == other[i].fulfills@ by {
        assert(tagged(sorted[i], one[i], tags(timestamps(sorted), now, ranges, i)));
        assert(tagged(sorted[i], other[i], tags(timestamps(sorted), now, ranges, i)));
    }
}

/// The tags of a range depend on no rule but its own: two policies with the
/// same rule for a range give every backup the same tags of that range,
/// whatever their other rules and their numbers of latest are.
pub proof fn lemma_ranges_independent(
    times: Seq<Civil>,
    now: Civil,
    one: Ranges,
    other: Ranges,
    range: Range,
    i: int,
)
    requires
        one.rule(range) == other.rule(range),
    ensures
        tags_of(tags(times, now, one, i), Some(range)) == tags_of(
            tags(times, now, other, i),
            Some(range),
        ),
{
    lemma_tags_by_rule(times, now, one, i, Some(range));
    lemma_tags_by_rule(times, now, other, i, Some(range));
}

/// With no latest backups to keep, no backup gets a tag without a range.
pub proof fn lemma_latest_none(times: Seq<Civil>, now: Civil, ranges: Ranges, i: int)
    requires
        ranges.latest == 0,
        0 <= i < times.len(),
    ensures
        tags_of(tags(times, now, ranges, i), None) == Seq::<Fulfillment>::empty(),
{
    lemma_tags_by_rule(times, now, ranges, i, None);
}

/// With at least as many latest backups to keep as there are backups, every
/// backup gets exactly one tag without a range, and its rank counts the
/// backups from the newest: 1 for the last of them, their number for the
/// first.
pub proof fn lemma_latest_all(times: Seq<Civil>, now: Civil, ranges: Ranges, i: int)
    requires
        ranges.latest >= times.len(),
        0 <= i < times.len(),
    ensures
        tags_of(tags(times, now, ranges, i), None) == seq![
            Fulfillment { range: None, index: (times.len() - i) as usize, first_or_last: true },
        ],
{
    lemma_tags_by_rule(times, now, ranges, i, None);
}

} // verus!
