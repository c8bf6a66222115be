//! The aggregate map: one accumulator per key, filled line by line or
//! chunk by chunk and merged with the maps of other chunks.

use crate::aggregate::merge;
use crate::chunk::{
    chunk_aggregate, lemma_lines_concat, lemma_take_lines_ok, lemma_take_lines_stops, lines_of,
    scan, take_line, take_lines, take_record,
};
use crate::error::Error;
use crate::order::{holds, insert_ascending, is_ascending, lemma_holds_insert};
use crate::record::{parse_line, Record};
use crate::splitter::NEWLINE;
use crate::table::{insert, into_entries, keys, lookup, lookup_mut, new_table, table_entries};
use crate::values::{Stats, Values};
use rustc_hash::FxHashMap;
use vstd::prelude::*;
use vstd::slice::slice_to_vec;

verus! {

/// Whether an aggregate can be kept in machine integers: every entry
/// stands for at least one reading and fits.
pub open spec fn is_valid(aggregate: Map<Seq<u8>, Stats>) -> bool {
    forall|key: Seq<u8>| #[trigger]
        aggregate.contains_key(key) ==> aggregate[key].wf() && aggregate[key].fits()
}

/// Whether `b` can be merged into `a` with every entry still within its
/// machine integers.
pub open spec fn can_merge(a: Map<Seq<u8>, Stats>, b: Map<Seq<u8>, Stats>) -> bool {
    forall|key: Seq<u8>|
        a.contains_key(key) && #[trigger] b.contains_key(key) ==> a[key].merge(b[key]).fits()
}

/// The keys of the entries from position `from` on.
spec fn keys_from(entries: Seq<(Vec<u8>, Values)>, from: int) -> Set<Seq<u8>> {
    Set::new(|key: Seq<u8>| exists|j: int| from <= j < entries.len() && #[trigger] entries[j].0@ == key)
}

/// Minimum, maximum, count and sum of the readings seen for each key.
pub struct StationData {
    data: FxHashMap<Vec<u8>, Values>,
}

impl View for StationData {
    type V = Map<Seq<u8>, Stats>;

    closed spec fn view(&self) -> Map<Seq<u8>, Stats> {
        table_entries(self.data)
    }
}

impl StationData {
    /// Every entry stands for at least one reading.
    pub open spec fn wf(&self) -> bool {
        is_valid(self@)
    }

    /// A map without keys.
    pub fn new() -> (data: Self)
        ensures
            data.wf(),
            data@ == Map::<Seq<u8>, Stats>::empty(),
    {
        Self { data: new_table() }
    }

    /// Takes in one line, `key;reading`. A line that fails leaves the map
    /// as it was.
    pub fn consume_line(&mut self, line: &[u8]) -> (r: Result<(), Error>)
        requires
            old(self).wf(),
        ensures
            final(self).wf(),
            final(self)@ == take_line(old(self)@, line@).0,
            r == take_line(old(self)@, line@).1,
    {
        match parse_line(line) {
            Ok((name, reading)) => self.add_reading(name, reading),
            Err(e) => Err(e),
        }
    }

    /// Takes in one reading for `name`: a key not seen before gets an
    /// accumulator of its own, a known key has its accumulator updated.
    /// Where that accumulator cannot take the reading, the map stays as it
    /// was.
    pub fn add_reading(&mut self, name: &[u8], reading: i64) -> (r: Result<(), Error>)
        requires
            old(self).wf(),
        ensures
            final(self).wf(),
            final(self)@ == take_record(old(self)@, (Record { key: name@, reading: reading as int })).0,
            r == take_record(old(self)@, (Record { key: name@, reading: reading as int })).1,
    {
        match lookup_mut(&mut self.data, name) {
            Some(values) => {
                if values.can_add(reading) {
                    values.add(reading);
                    Ok(())
                } else {
                    assert(self@ =~= old(self)@);
                    Err(Error::Overflow)
                }
            },
            None => {
                insert(&mut self.data, slice_to_vec(name), Values::new(reading));
                Ok(())
            },
        }
    }

    /// Takes in the lines of `chunk` in order, up to the first that fails.
    pub fn consume_chunk(&mut self, chunk: Vec<u8>) -> (r: Result<(), Error>)
        requires
            old(self).wf(),
        ensures
            final(self).wf(),
            final(self)@ == take_lines(old(self)@, lines_of(chunk@)).0,
            r == take_lines(old(self)@, lines_of(chunk@)).1,
    {
        let bytes = chunk.as_slice();
        let len: usize = bytes.len();
        let ghost mut done: Seq<Seq<u8>> = Seq::empty();
        let mut start: usize = 0;
        let mut i: usize = 0;
        assert(bytes@.take(0) =~= Seq::empty());
        assert(bytes@.subrange(0, 0) =~= Seq::empty());
        while i < len
            invariant
                start <= i <= len == bytes@.len(),
                bytes@ == chunk@,
                scan(bytes@.take(i as int)) == (done, bytes@.subrange(start as int, i as int)),
                self.wf(),
                take_lines(old(self)@, done) == (self@, Ok::<(), Error>(())),
            decreases len - i,
        {
            let ghost before = bytes@.take(i as int);
            let ghost after = bytes@.take(i + 1);
            assert(after.drop_last() =~= before);
            if bytes[i] == NEWLINE {
                let line = &bytes[start..i];
                let ghost reached = self@;
                let outcome = self.consume_line(line);
                proof {
                    assert(done.push(line@).drop_last() =~= done);
                    assert(scan(after) == (done.push(line@), Seq::<u8>::empty()));
                }
                if let Err(e) = outcome {
                    proof {
                        let rest = bytes@.skip(i + 1);
                        assert(bytes@ =~= after + rest);
                        lemma_lines_concat(after, rest);
                        lemma_take_lines_stops(old(self)@, done.push(line@), lines_of(rest));
                    }
                    return Err(e);
                }
                proof {
                    done = done.push(line@);
                }
                start = i + 1;
                assert(bytes@.subrange(start as int, i + 1) =~= Seq::empty());
            } else {
                assert(bytes@.subrange(start as int, i + 1) =~= bytes@.subrange(
                    start as int,
                    i as int,
                ).push(bytes@[i as int]));
            }
            i += 1;
        }
        assert(bytes@.take(len as int) =~= bytes@);
        if start < len {
            let line = &bytes[start..len];
            assert(done.push(line@).drop_last() =~= done);
            self.consume_line(line)
        } else {
            Ok(())
        }
    }

    /// Merges the map of another chunk into this one: a key of both has
    /// its accumulators merged, a key of `other` alone is taken over. The
    /// keys are taken in no particular order; the first whose merged
    /// accumulator would not fit ends the merge, with the keys before it
    /// merged.
    pub fn extend(&mut self, other: StationData) -> (r: Result<(), Error>)
        requires
            old(self).wf(),
            other.wf(),
        ensures
            final(self).wf(),
            r is Ok <==> can_merge(old(self)@, other@),
            r is Ok ==> final(self)@ == merge(old(self)@, other@),
            r is Err ==> r == Err::<(), Error>(Error::Overflow) && exists|part: Set<Seq<u8>>|
                final(self)@ == merge(old(self)@, #[trigger] other@.restrict(part)),
    {
        let ghost theirs = other@;
        let mut entries = into_entries(other.data);
        let ghost all = entries@;
        assert(entries@.take(entries@.len() as int) =~= entries@);
        assert(self@ =~= merge(old(self)@, theirs.restrict(keys_from(all, all.len() as int))));
        loop
            invariant
                entries@.len() <= all.len(),
                entries@ == all.take(entries@.len() as int),
                theirs == other@,
                is_valid(theirs),
                forall|i: int|
                    0 <= i < all.len() ==> theirs.contains_key(#[trigger] all[i].0@) && theirs[all[i].0@]
                        == all[i].1@,
                forall|key: Seq<u8>| #[trigger]
                    theirs.contains_key(key) ==> exists|i: int|
                        0 <= i < all.len() && #[trigger] all[i].0@ == key,
                forall|i: int, j: int|
                    0 <= i < j < all.len() ==> #[trigger] all[i].0@ != #[trigger] all[j].0@,
                old(self).wf(),
                self.wf(),
                self@ == merge(old(self)@, theirs.restrict(keys_from(all, entries@.len() as int))),
                forall|key: Seq<u8>|
                    old(self)@.contains_key(key) && #[trigger] keys_from(
                        all,
                        entries@.len() as int,
                    ).contains(key) ==> old(self)@[key].merge(theirs[key]).fits(),
            decreases entries@.len(),
        {
            let ghost n = entries@.len() as int;
            let ghost before = self@;
            let ghost merged = keys_from(all, n);
            match entries.pop() {
                None => {
                    proof {
                        assert(theirs.restrict(merged) =~= theirs) by {
                            assert forall|key: Seq<u8>| theirs.contains_key(key) implies merged.contains(
                                key,
                            ) by {
                                let i = choose|i: int| 0 <= i < all.len() && #[trigger] all[i].0@ == key;
                                assert(all[i].0@ == key);
                            }
                        }
                    }
                    return Ok(());
                },
                Some((name, values)) => {
                    let ghost key = name@;
                    proof {
                        assert(all[n - 1] == (name, values));
                        assert(all[n - 1].0@ == key);
                        assert(theirs.contains_key(key) && theirs[key] == values@);
                        assert(!merged.contains(key)) by {
                            if merged.contains(key) {
                                let j = choose|j: int| n <= j < all.len() && #[trigger] all[j].0@ == key;
                                assert(all[n - 1].0@ != all[j].0@);
                            }
                        }
                        assert(before.contains_key(key) == old(self)@.contains_key(key));
                        assert(keys_from(all, n - 1) =~= merged.insert(key)) by {
                            assert forall|k: Seq<u8>| keys_from(all, n - 1).contains(k) implies merged.insert(
                                key,
                            ).contains(k) by {
                                let j = choose|j: int| n - 1 <= j < all.len() && #[trigger] all[j].0@ == k;
                                if j >= n {
                                    assert(all[j].0@ == k);
                                }
                            }
                            assert forall|k: Seq<u8>| merged.insert(key).contains(k) implies keys_from(
                                all,
                                n - 1,
                            ).contains(k) by {
                                if k == key {
                                    assert(all[n - 1].0@ == k);
                                } else {
                                    let j = choose|j: int| n <= j < all.len() && #[trigger] all[j].0@ == k;
                                    assert(all[j].0@ == k);
                                }
                            }
                        }
                        values.lemma_fits();
                    }
                    match lookup_mut(&mut self.data, name.as_slice()) {
                        Some(kept) => {
                            if kept.can_extend(&values) {
                                kept.extend(values);
                            } else {
                                proof {
                                    assert(self@ =~= before);
                                    assert(old(self)@.contains_key(key) && theirs.contains_key(key));
                                    assert(!old(self)@[key].merge(theirs[key]).fits());
                                }
                                return Err(Error::Overflow);
                            }
                        },
                        None => {
                            insert(&mut self.data, name, values);
                        },
                    }
                    proof {
                        assert(self@ =~= merge(
                            old(self)@,
                            theirs.restrict(keys_from(all, n - 1)),
                        ));
                        assert(entries@ =~= all.take(n - 1));
                    }
                },
            }
        }
    }

    /// The keys of the map, each once, in ascending lexicographic order of
    /// their bytes.
    pub fn sorted_keys(&self) -> (sorted: Vec<Vec<u8>>)
        ensures
            is_ascending(sorted@),
            forall|key: Seq<u8>| self@.contains_key(key) <==> holds(sorted@, key),
    {
        let mut unsorted = keys(&self.data);
        let ghost all = unsorted@;
        let mut sorted: Vec<Vec<u8>> = Vec::new();
        assert(unsorted@.take(unsorted@.len() as int) =~= unsorted@);
        loop
            invariant
                unsorted@.len() <= all.len(),
                unsorted@ == all.take(unsorted@.len() as int),
                forall|i: int| 0 <= i < all.len() ==> self@.contains_key(#[trigger] all[i]@),
                forall|key: Seq<u8>| #[trigger]
                    self@.contains_key(key) ==> exists|i: int|
                        0 <= i < all.len() && #[trigger] all[i]@ == key,
                forall|i: int, j: int|
                    0 <= i < j < all.len() ==> #[trigger] all[i]@ != #[trigger] all[j]@,
                is_ascending(sorted@),
                forall|key: Seq<u8>|
                    holds(sorted@, key) <==> holds(all.skip(unsorted@.len() as int), key),
            decreases unsorted@.len(),
        {
            let ghost n = unsorted@.len() as int;
            let ghost before = sorted@;
            match unsorted.pop() {
                None => {
                    assert(all.skip(0) =~= all);
                    assert forall|key: Seq<u8>| self@.contains_key(key) <==> holds(
                        sorted@,
                        key,
                    ) by {
                        if self@.contains_key(key) {
                            let i = choose|i: int| 0 <= i < all.len() && #[trigger] all[i]@ == key;
                            assert(all[i]@ == key);
                        }
                        if holds(all, key) {
                            let i = choose|i: int| 0 <= i < all.len() && #[trigger] all[i]@ == key;
                            assert(self@.contains_key(all[i]@));
                        }
                    }
                    return sorted;
                },
                Some(key) => {
                    proof {
                        assert(all[n - 1] == key);
                        if holds(all.skip(n), key@) {
                            let i = choose|i: int|
                                0 <= i < all.skip(n).len() && #[trigger] all.skip(n)[i]@ == key@;
                            assert(all[n - 1]@ != all[n + i]@);
                        }
                    }
                    insert_ascending(&mut sorted, key);
                    proof {
                        let at = choose|at: int|
                            0 <= at <= before.len() && sorted@ == #[trigger] before.insert(at, key);
                        assert(unsorted@ =~= all.take(n - 1));
                        assert(all.skip(n - 1) =~= all.skip(n).insert(0, key));
                        assert forall|other: Seq<u8>| holds(sorted@, other) <==> holds(
                            all.skip(n - 1),
                            other,
                        ) by {
                            lemma_holds_insert(before, at, key, other);
                            lemma_holds_insert(all.skip(n), 0, key, other);
                        }
                    }
                },
            }
        }
    }

    /// The smallest reading seen for `name`, in tenths; 0 for a key never
    /// seen.
    pub fn min_for(&self, name: &[u8]) -> (min: i64)
        ensures
            min == if self@.contains_key(name@) { self@[name@].min } else { 0 },
    {
        match lookup(&self.data, name) {
            None => 0,
            Some(values) => values.min(),
        }
    }

    /// The largest reading seen for `name`, in tenths; 0 for a key never
    /// seen.
    pub fn max_for(&self, name: &[u8]) -> (max: i64)
        ensures
            max == if self@.contains_key(name@) { self@[name@].max } else { 0 },
    {
        match lookup(&self.data, name) {
            None => 0,
            Some(values) => values.max(),
        }
    }

    /// The mean of the readings seen for `name` as a fraction: their sum
    /// in tenths over their count. A key never seen has the mean 0 over 1.
    /// The count is never zero.
    pub fn mean_for(&self, name: &[u8]) -> (mean: (i64, u64))
        ensures
            mean.1 >= 1,
            mean.0 == if self@.contains_key(name@) { self@[name@].sum } else { 0 },
            mean.1 == if self@.contains_key(name@) { self@[name@].count } else { 1 },
    {
        match lookup(&self.data, name) {
            None => (0, 1),
            Some(values) => (values.sum(), values.count()),
        }
    }
}

/// What one worker does with one chunk: aggregates its lines into a map of
/// their own. Where every line was taken in, the map is the aggregate of
/// the chunk's records.
pub fn handle_chunk(chunk: Vec<u8>) -> (r: Result<StationData, Error>)
    ensures
        match r {
            Ok(data) => {
                &&& data.wf()
                &&& take_lines(Map::empty(), lines_of(chunk@)) == (data@, Ok::<(), Error>(()))
                &&& data@ == chunk_aggregate(chunk@)
            },
            Err(e) => take_lines(Map::empty(), lines_of(chunk@)).1 == Err::<(), Error>(e),
        },
{
    let mut data = StationData::new();
    match data.consume_chunk(chunk) {
        Ok(()) => {
            proof {
                lemma_take_lines_ok(Map::empty(), lines_of(chunk@));
            }
            Ok(data)
        },
        Err(e) => Err(e),
    }
}

} // verus!
