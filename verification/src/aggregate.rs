//! The aggregate of a collection of records, as mathematics: one entry of
//! statistics per key, over unbounded integers.

use crate::record::Record;
use crate::values::Stats;
use vstd::prelude::*;
use vstd::seq_lib::*;

verus! {

/// The aggregate after one more record: a new key starts with the
/// statistics of its reading, a known key takes the reading in.
pub open spec fn observe(aggregate: Map<Seq<u8>, Stats>, record: Record) -> Map<Seq<u8>, Stats> {
    if aggregate.contains_key(record.key) {
        aggregate.insert(record.key, aggregate[record.key].observe(record.reading))
    } else {
        aggregate.insert(record.key, Stats::single(record.reading))
    }
}

/// The aggregate `start` after the records of `records`, taken in order.
pub open spec fn aggregate_from(start: Map<Seq<u8>, Stats>, records: Seq<Record>) -> Map<
    Seq<u8>,
    Stats,
> {
    records.fold_left(start, |aggregate: Map<Seq<u8>, Stats>, record: Record| observe(aggregate, record))
}

/// The aggregate of `records`.
pub open spec fn aggregate(records: Seq<Record>) -> Map<Seq<u8>, Stats> {
    aggregate_from(Map::empty(), records)
}

/// Two aggregates taken together: a key of both has its statistics
/// merged, a key of one keeps them.
pub open spec fn merge(a: Map<Seq<u8>, Stats>, b: Map<Seq<u8>, Stats>) -> Map<Seq<u8>, Stats> {
    Map::new(
        |key: Seq<u8>| a.contains_key(key) || b.contains_key(key),
        |key: Seq<u8>|
            if a.contains_key(key) && b.contains_key(key) {
                a[key].merge(b[key])
            } else if a.contains_key(key) {
                a[key]
            } else {
                b[key]
            },
    )
}

/// Merging with the empty aggregate changes nothing.
pub proof fn lemma_merge_empty(a: Map<Seq<u8>, Stats>)
    ensures
        merge(a, Map::empty()) == a,
        merge(Map::empty(), a) == a,
{
    assert(merge(a, Map::empty()) =~= a);
    assert(merge(Map::empty(), a) =~= a);
}

/// Merging does not depend on which aggregate comes first.
pub proof fn lemma_merge_commutative(a: Map<Seq<u8>, Stats>, b: Map<Seq<u8>, Stats>)
    ensures
        merge(a, b) == merge(b, a),
{
    assert(merge(a, b) =~= merge(b, a));
}

/// Merging three aggregates does not depend on which two are merged first.
pub proof fn lemma_merge_associative(
    a: Map<Seq<u8>, Stats>,
    b: Map<Seq<u8>, Stats>,
    c: Map<Seq<u8>, Stats>,
)
    ensures
        merge(merge(a, b), c) == merge(a, merge(b, c)),
{
    assert(merge(merge(a, b), c) =~= merge(a, merge(b, c)));
}

/// One more record behind `records` is one more observation.
pub proof fn lemma_aggregate_push(start: Map<Seq<u8>, Stats>, records: Seq<Record>, record: Record)
    ensures
        aggregate_from(start, records.push(record)) == observe(
            aggregate_from(start, records),
            record,
        ),
{
    assert(records.push(record).drop_last() =~= records);
}

/// Observing a record in the second of two merged aggregates is observing
/// it in their merge.
pub proof fn lemma_observe_merge(a: Map<Seq<u8>, Stats>, b: Map<Seq<u8>, Stats>, record: Record)
    ensures
        observe(merge(a, b), record) == merge(a, observe(b, record)),
{
    assert(observe(merge(a, b), record) =~= merge(a, observe(b, record)));
}

/// The aggregate of two runs of records, one behind the other, is the
/// merge of their aggregates.
pub proof fn lemma_aggregate_concat(first: Seq<Record>, second: Seq<Record>)
    ensures
        aggregate(first + second) == merge(aggregate(first), aggregate(second)),
    decreases second.len(),
{
    if second.len() == 0 {
        assert(first + second =~= first);
        lemma_merge_empty(aggregate(first));
    } else {
        let front = second.drop_last();
        let record = second.last();
        assert(first + second =~= (first + front).push(record));
        assert(second =~= front.push(record));
        lemma_aggregate_push(Map::empty(), first + front, record);
        lemma_aggregate_push(Map::empty(), front, record);
        lemma_aggregate_concat(first, front);
        lemma_observe_merge(aggregate(first), aggregate(front), record);
    }
}

/// The order in which two records are observed does not matter.
pub proof fn lemma_observe_commutes(aggregate: Map<Seq<u8>, Stats>, x: Record, y: Record)
    ensures
        observe(observe(aggregate, x), y) == observe(observe(aggregate, y), x),
{
    assert(observe(observe(aggregate, x), y) =~= observe(observe(aggregate, y), x));
}

/// The aggregate depends on which records there are and how often each
/// occurs, not on their order.
pub proof fn lemma_aggregate_any_order(a: Seq<Record>, b: Seq<Record>)
    requires
        a.to_multiset() == b.to_multiset(),
    ensures
        aggregate(a) == aggregate(b),
{
    let step = |aggregate: Map<Seq<u8>, Stats>, record: Record| observe(aggregate, record);
    assert forall|x: Record, y: Record, v: Map<Seq<u8>, Stats>| #[trigger]
        step(step(v, x), y) == step(step(v, y), x) by {
        lemma_observe_commutes(v, x, y);
    }
    lemma_fold_left_permutation(a, b, step, Map::empty());
}

/// However a collection of records is parted into two groups, merging the
/// aggregates of the groups gives the aggregate of the whole.
pub proof fn lemma_aggregate_of_partition(whole: Seq<Record>, left: Seq<Record>, right: Seq<Record>)
    requires
        whole.to_multiset() == left.to_multiset().add(right.to_multiset()),
    ensures
        merge(aggregate(left), aggregate(right)) == aggregate(whole),
        merge(aggregate(right), aggregate(left)) == aggregate(whole),
{
    lemma_multiset_commutative(left, right);
    lemma_aggregate_any_order(whole, left + right);
    lemma_aggregate_concat(left, right);
    lemma_merge_commutative(aggregate(left), aggregate(right));
}

/// The readings that `records` hold for `key`, in order.
pub open spec fn readings_of(records: Seq<Record>, key: Seq<u8>) -> Seq<int>
    decreases records.len(),
{
    if records.len() == 0 {
        Seq::empty()
    } else if records.last().key == key {
        readings_of(records.drop_last(), key).push(records.last().reading)
    } else {
        readings_of(records.drop_last(), key)
    }
}

/// The sum of `readings`.
pub open spec fn total(readings: Seq<int>) -> int
    decreases readings.len(),
{
    if readings.len() == 0 {
        0
    } else {
        total(readings.drop_last()) + readings.last()
    }
}

/// Whether `stats` are the statistics of `readings`: their number, their
/// exact sum, and the least and the greatest among them.
pub open spec fn describes(stats: Stats, readings: Seq<int>) -> bool {
    &&& stats.count == readings.len()
    &&& stats.sum == total(readings)
    &&& forall|i: int| 0 <= i < readings.len() ==> stats.min <= #[trigger] readings[i] <= stats.max
    &&& exists|i: int| 0 <= i < readings.len() && #[trigger] readings[i] == stats.min
    &&& exists|i: int| 0 <= i < readings.len() && #[trigger] readings[i] == stats.max
}

/// The aggregate has an entry for just the keys that occur, and the entry
/// of a key is exact: the number of its readings, their sum, the least and
/// the greatest of them.
pub proof fn lemma_aggregate_is_exact(records: Seq<Record>, key: Seq<u8>)
    ensures
        aggregate(records).contains_key(key) <==> readings_of(records, key).len() > 0,
        aggregate(records).contains_key(key) ==> describes(
            aggregate(records)[key],
            readings_of(records, key),
        ),
    decreases records.len(),
{
    if records.len() > 0 {
        let front = records.drop_last();
        let record = records.last();
        assert(front.push(record) =~= records);
        lemma_aggregate_push(Map::empty(), front, record);
        lemma_aggregate_is_exact(front, key);
        let before = readings_of(front, key);
        let after = readings_of(records, key);
        if record.key == key {
            let stats = aggregate(records)[key];
            assert(after == before.push(record.reading));
            assert(after.drop_last() =~= before);
            assert(after.last() == record.reading);
            assert(total(after) == total(before) + record.reading);
            if aggregate(front).contains_key(key) {
                let old = aggregate(front)[key];
                assert(describes(old, before));
                assert(stats == old.observe(record.reading));
                let low = choose|i: int| 0 <= i < before.len() && #[trigger] before[i] == old.min;
                let high = choose|i: int| 0 <= i < before.len() && #[trigger] before[i] == old.max;
                assert(after[low] == old.min);
                assert(after[high] == old.max);
                assert(after[before.len() as int] == record.reading);
                let least = if record.reading < old.min { before.len() as int } else { low };
                let most = if record.reading > old.max { before.len() as int } else { high };
                assert(after[least] == stats.min);
                assert(after[most] == stats.max);
                assert forall|i: int| 0 <= i < after.len() implies stats.min <= #[trigger] after[i]
                    <= stats.max by {
                    if i < before.len() {
                        assert(after[i] == before[i]);
                    }
                }
                assert(describes(stats, after));
            } else {
                assert(before.len() == 0);
                assert(stats == Stats::single(record.reading));
                assert(total(before) == 0);
                assert(after[0] == record.reading);
                assert(describes(stats, after));
            }
        } else {
            assert(after == before);
            assert(aggregate(records).contains_key(key) == aggregate(front).contains_key(key));
            if aggregate(records).contains_key(key) {
                assert(aggregate(records)[key] == aggregate(front)[key]);
            }
        }
    }
}

/// Every reading lies between the minimum and the maximum kept for its
/// key, and the count kept for a key is never zero.
pub proof fn lemma_aggregate_bounds(records: Seq<Record>, i: int)
    requires
        0 <= i < records.len(),
    ensures
        aggregate(records).contains_key(records[i].key),
        aggregate(records)[records[i].key].count >= 1,
        aggregate(records)[records[i].key].min <= records[i].reading <= aggregate(
            records,
        )[records[i].key].max,
    decreases records.len(),
{
    let front = records.drop_last();
    let record = records.last();
    assert(front.push(record) =~= records);
    lemma_aggregate_push(Map::empty(), front, record);
    if i < records.len() - 1 {
        assert(front[i] == records[i]);
        lemma_aggregate_bounds(front, i);
    }
}

} // verus!
