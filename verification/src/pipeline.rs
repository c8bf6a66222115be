//! The whole run: blocks are cut into chunks, each chunk is aggregated on
//! its own, and the partial aggregates are merged as they arrive. The
//! result does not depend on where the chunks were cut nor on the order of
//! arrival.

use crate::aggregate::{
    lemma_aggregate_concat, lemma_merge_associative, lemma_merge_commutative, merge,
};
use crate::chunk::{chunk_aggregate, lemma_lines_concat, lines_of, records_of};
use crate::error::Error;
use crate::splitter::{
    cut, is_aligned, lemma_split_from_aligned, lemma_split_reconstructs, split, Splitter,
};
use crate::station_data::{can_merge, StationData};
use crate::values::Stats;
use vstd::prelude::*;
use vstd::seq_lib::*;

verus! {

/// The aggregate of each chunk.
pub open spec fn chunk_aggregates(chunks: Seq<Seq<u8>>) -> Seq<Map<Seq<u8>, Stats>> {
    chunks.map_values(|chunk: Seq<u8>| chunk_aggregate(chunk))
}

/// The lines of each chunk.
pub open spec fn chunk_lines(chunks: Seq<Seq<u8>>) -> Seq<Seq<Seq<u8>>> {
    chunks.map_values(|chunk: Seq<u8>| lines_of(chunk))
}

/// The partial aggregates merged one after the other into an empty one.
pub open spec fn merge_all(parts: Seq<Map<Seq<u8>, Stats>>) -> Map<Seq<u8>, Stats> {
    parts.fold_left(
        Map::empty(),
        |merged: Map<Seq<u8>, Stats>, part: Map<Seq<u8>, Stats>| merge(merged, part),
    )
}

/// Whether every chunk but the last ends where a record ends.
pub open spec fn cut_at_records(chunks: Seq<Seq<u8>>) -> bool {
    forall|i: int| 0 <= i < chunks.len() - 1 ==> is_aligned(#[trigger] chunks[i])
}

/// Chunks that each end where a record ends do so taken together.
pub proof fn lemma_flatten_aligned(chunks: Seq<Seq<u8>>)
    requires
        forall|i: int| 0 <= i < chunks.len() ==> is_aligned(#[trigger] chunks[i]),
    ensures
        is_aligned(chunks.flatten()),
    decreases chunks.len(),
{
    if chunks.len() > 0 {
        let front = chunks.drop_last();
        assert forall|i: int| 0 <= i < front.len() implies is_aligned(#[trigger] front[i]) by {
            assert(front[i] == chunks[i]);
        }
        lemma_flatten_aligned(front);
        front.lemma_flatten_push(chunks.last());
        assert(front.push(chunks.last()) =~= chunks);
        if chunks.last().len() == 0 {
            assert(front.flatten() + chunks.last() =~= front.flatten());
        }
    }
}

/// No record is lost, torn or doubled where the chunks are cut: the lines
/// of the chunks, chunk after chunk, are the lines of the bytes that the
/// chunks make up.
pub proof fn lemma_lines_of_chunks(chunks: Seq<Seq<u8>>)
    requires
        cut_at_records(chunks),
    ensures
        chunk_lines(chunks).flatten() == lines_of(chunks.flatten()),
    decreases chunks.len(),
{
    if chunks.len() > 0 {
        let front = chunks.drop_last();
        let last = chunks.last();
        assert(front.push(last) =~= chunks);
        assert forall|i: int| 0 <= i < front.len() implies is_aligned(#[trigger] front[i]) by {
            assert(front[i] == chunks[i]);
        }
        lemma_flatten_aligned(front);
        lemma_lines_of_chunks(front);
        front.lemma_flatten_push(last);
        lemma_lines_concat(front.flatten(), last);
        assert(chunk_lines(chunks) =~= chunk_lines(front).push(lines_of(last)));
        chunk_lines(front).lemma_flatten_push(lines_of(last));
    }
}

/// One more part behind `parts` is one more merge.
pub proof fn lemma_merge_all_push(parts: Seq<Map<Seq<u8>, Stats>>, part: Map<Seq<u8>, Stats>)
    ensures
        merge_all(parts.push(part)) == merge(merge_all(parts), part),
{
    assert(parts.push(part).drop_last() =~= parts);
}

/// Merging the aggregates of the chunks gives the aggregate of the bytes
/// that the chunks make up.
pub proof fn lemma_aggregate_of_chunks(chunks: Seq<Seq<u8>>)
    requires
        cut_at_records(chunks),
    ensures
        merge_all(chunk_aggregates(chunks)) == chunk_aggregate(chunks.flatten()),
    decreases chunks.len(),
{
    if chunks.len() > 0 {
        let front = chunks.drop_last();
        let last = chunks.last();
        assert(front.push(last) =~= chunks);
        assert forall|i: int| 0 <= i < front.len() implies is_aligned(#[trigger] front[i]) by {
            assert(front[i] == chunks[i]);
        }
        lemma_flatten_aligned(front);
        lemma_aggregate_of_chunks(front);
        front.lemma_flatten_push(last);
        lemma_lines_concat(front.flatten(), last);
        assert(records_of(lines_of(front.flatten()) + lines_of(last)) =~= records_of(
            lines_of(front.flatten()),
        ) + records_of(lines_of(last)));
        lemma_aggregate_concat(records_of(lines_of(front.flatten())), records_of(lines_of(last)));
        assert(chunk_aggregates(chunks) =~= chunk_aggregates(front).push(chunk_aggregate(last)));
        lemma_merge_all_push(chunk_aggregates(front), chunk_aggregate(last));
    }
}

/// The merge of partial aggregates does not depend on the order in which
/// they arrive.
pub proof fn lemma_merge_all_any_order(
    a: Seq<Map<Seq<u8>, Stats>>,
    b: Seq<Map<Seq<u8>, Stats>>,
)
    requires
        a.to_multiset() == b.to_multiset(),
    ensures
        merge_all(a) == merge_all(b),
{
    let step = |merged: Map<Seq<u8>, Stats>, part: Map<Seq<u8>, Stats>| merge(merged, part);
    assert forall|x: Map<Seq<u8>, Stats>, y: Map<Seq<u8>, Stats>, v: Map<Seq<u8>, Stats>| #[trigger]
        step(step(v, x), y) == step(step(v, y), x) by {
        lemma_merge_associative(v, x, y);
        lemma_merge_associative(v, y, x);
        lemma_merge_commutative(x, y);
    }
    lemma_fold_left_permutation(a, b, step, Map::empty());
}

/// A stream is cut into chunks without a record being lost, torn or
/// doubled: the lines of the chunks, chunk after chunk, are the lines of
/// the stream.
pub proof fn lemma_split_keeps_records(input: Seq<u8>, block_size: nat)
    requires
        split(input, block_size) is Some,
    ensures
        cut_at_records(split(input, block_size)->Some_0),
        chunk_lines(split(input, block_size)->Some_0).flatten() == lines_of(input),
{
    lemma_split_from_aligned(Seq::empty(), input, block_size);
    lemma_split_reconstructs(input, block_size);
    lemma_lines_of_chunks(split(input, block_size)->Some_0);
}

/// Whatever the block size, and in whatever order the aggregates of the
/// chunks arrive, merging them gives the aggregate of the whole stream.
pub proof fn lemma_run_yields_aggregate(
    input: Seq<u8>,
    block_size: nat,
    arrived: Seq<Map<Seq<u8>, Stats>>,
)
    requires
        split(input, block_size) is Some,
        arrived.to_multiset() == chunk_aggregates(split(input, block_size)->Some_0).to_multiset(),
    ensures
        merge_all(arrived) == chunk_aggregate(input),
{
    let chunks = split(input, block_size)->Some_0;
    lemma_split_keeps_records(input, block_size);
    lemma_split_reconstructs(input, block_size);
    lemma_aggregate_of_chunks(chunks);
    lemma_merge_all_any_order(arrived, chunk_aggregates(chunks));
}

/// Two runs over one stream give one result, whatever their block sizes
/// and whatever the order in which their partial aggregates arrive.
pub proof fn lemma_chunking_does_not_matter(
    input: Seq<u8>,
    block_size_a: nat,
    arrived_a: Seq<Map<Seq<u8>, Stats>>,
    block_size_b: nat,
    arrived_b: Seq<Map<Seq<u8>, Stats>>,
)
    requires
        split(input, block_size_a) is Some,
        split(input, block_size_b) is Some,
        arrived_a.to_multiset() == chunk_aggregates(split(input, block_size_a)->Some_0).to_multiset(),
        arrived_b.to_multiset() == chunk_aggregates(split(input, block_size_b)->Some_0).to_multiset(),
    ensures
        merge_all(arrived_a) == merge_all(arrived_b),
{
    lemma_run_yields_aggregate(input, block_size_a, arrived_a);
    lemma_run_yields_aggregate(input, block_size_b, arrived_b);
}

/// Where a run stands.
#[derive(Clone, Copy, Debug, PartialEq, Eq, Structural)]
pub enum Phase {
    /// Nothing was read yet.
    Idle,
    /// Blocks are read, and the chunks cut from them are handed out.
    Splitting,
    /// The last chunk was handed out; partial aggregates are awaited.
    Draining,
    /// As many partial aggregates were merged as chunks were handed out:
    /// the result is ready.
    Merged,
    /// The run was aborted.
    Failed(Error),
}

/// The decisions of a run. What reads the blocks, aggregates the chunks
/// and brings the partial aggregates back is not its business: it is told
/// of each block and of each partial aggregate, cuts the chunks, counts
/// them, and merges as many partial aggregates as it handed out chunks.
pub struct Pipeline {
    splitter: Splitter,
    data: StationData,
    dispatched: usize,
    received: usize,
    phase: Phase,
}

impl Pipeline {
    /// No more partial aggregates were merged than chunks handed out, and
    /// the counts agree with the phase.
    pub closed spec fn wf(&self) -> bool {
        &&& self.splitter.wf()
        &&& self.data.wf()
        &&& match self.phase {
            Phase::Idle => self.dispatched == 0 && self.received == 0,
            Phase::Splitting => self.dispatched >= 1 && self.received == 0,
            Phase::Draining => self.received < self.dispatched,
            Phase::Merged => self.dispatched >= 1 && self.received == self.dispatched,
            Phase::Failed(_) => true,
        }
    }

    /// Where the run stands.
    pub closed spec fn spec_phase(&self) -> Phase {
        self.phase
    }

    /// The size of a full block.
    pub closed spec fn block_size(&self) -> nat {
        self.splitter.block_size()
    }

    /// The bytes kept back from the blocks seen so far.
    pub closed spec fn pending(&self) -> Seq<u8> {
        self.splitter.pending()
    }

    /// How many chunks were handed out.
    pub closed spec fn spec_dispatched(&self) -> usize {
        self.dispatched
    }

    /// How many partial aggregates were merged.
    pub closed spec fn spec_received(&self) -> usize {
        self.received
    }

    /// What the partial aggregates merged so far come to.
    pub closed spec fn merged(&self) -> Map<Seq<u8>, Stats> {
        self.data@
    }

    /// A run for blocks of `block_size` bytes, before its first block.
    pub fn new(block_size: usize) -> (run: Self)
        ensures
            run.wf(),
            run.spec_phase() == Phase::Idle,
            run.block_size() == block_size,
            run.pending() == Seq::<u8>::empty(),
            run.spec_dispatched() == 0,
            run.spec_received() == 0,
            run.merged() == Map::<Seq<u8>, Stats>::empty(),
    {
        Pipeline {
            splitter: Splitter::new(block_size),
            data: StationData::new(),
            dispatched: 0,
            received: 0,
            phase: Phase::Idle,
        }
    }

    /// Where the run stands.
    #[verifier::when_used_as_spec(spec_phase)]
    pub fn phase(&self) -> (phase: Phase)
        ensures
            phase == self.spec_phase(),
    {
        self.phase
    }

    /// How many chunks were handed out.
    #[verifier::when_used_as_spec(spec_dispatched)]
    pub fn dispatched(&self) -> (count: usize)
        ensures
            count == self.spec_dispatched(),
    {
        self.dispatched
    }

    /// How many partial aggregates were merged.
    #[verifier::when_used_as_spec(spec_received)]
    pub fn received(&self) -> (count: usize)
        ensures
            count == self.spec_received(),
    {
        self.received
    }

    /// Takes the next block read from the source and hands out the chunk
    /// to be aggregated. A block shorter than the block size is the last:
    /// behind it the run awaits the partial aggregates. The run fails with
    /// `Overflow` where the count of chunks has no room for one more, and
    /// with `OversizedRecord` where a full block holds no newline.
    pub fn next_chunk(&mut self, block: &[u8]) -> (r: Result<Vec<u8>, Error>)
        requires
            old(self).wf(),
            old(self).phase() == Phase::Idle || old(self).phase() == Phase::Splitting,
            block@.len() <= old(self).block_size(),
        ensures
            final(self).wf(),
            final(self).block_size() == old(self).block_size(),
            final(self).received() == old(self).received(),
            final(self).merged() == old(self).merged(),
            old(self).dispatched() == usize::MAX ==> {
                &&& r matches Err(e) && e == Error::Overflow
                &&& final(self).phase() == Phase::Failed(Error::Overflow)
                &&& final(self).pending() == old(self).pending()
                &&& final(self).dispatched() == old(self).dispatched()
            },
            old(self).dispatched() < usize::MAX ==> match cut(
                old(self).pending(),
                block@,
                old(self).block_size(),
            ) {
                Some((chunk, rest)) => {
                    &&& r matches Ok(c) && c@ == chunk
                    &&& final(self).pending() == rest
                    &&& final(self).dispatched() == old(self).dispatched() + 1
                    &&& final(self).phase() == if block@.len() < old(self).block_size() {
                        Phase::Draining
                    } else {
                        Phase::Splitting
                    }
                },
                None => {
                    &&& r matches Err(e) && e == Error::OversizedRecord
                    &&& final(self).phase() == Phase::Failed(Error::OversizedRecord)
                    &&& final(self).pending() == old(self).pending()
                    &&& final(self).dispatched() == old(self).dispatched()
                },
            },
    {
        if self.dispatched == usize::MAX {
            self.phase = Phase::Failed(Error::Overflow);
            return Err(Error::Overflow);
        }
        let last = block.len() < self.splitter.block_len();
        match self.splitter.next_chunk(block) {
            Ok(chunk) => {
                self.dispatched = self.dispatched + 1;
                self.phase = if last { Phase::Draining } else { Phase::Splitting };
                Ok(chunk)
            },
            Err(e) => {
                self.phase = Phase::Failed(e);
                Err(e)
            },
        }
    }

    /// Notes that the source failed: the run is aborted.
    pub fn read_failed(&mut self)
        requires
            old(self).wf(),
            old(self).phase() == Phase::Idle || old(self).phase() == Phase::Splitting,
        ensures
            final(self).wf(),
            final(self).phase() == Phase::Failed(Error::ReadError),
            final(self).block_size() == old(self).block_size(),
            final(self).pending() == old(self).pending(),
            final(self).dispatched() == old(self).dispatched(),
            final(self).received() == old(self).received(),
            final(self).merged() == old(self).merged(),
    {
        self.phase = Phase::Failed(Error::ReadError);
    }

    /// Takes what a worker made of one chunk. A partial aggregate is
    /// merged in; with the last one awaited the result is ready. A failed
    /// chunk, or a merge that would not fit, aborts the run.
    pub fn take_result(&mut self, partial: Result<StationData, Error>) -> (r: Result<(), Error>)
        requires
            old(self).wf(),
            old(self).phase() == Phase::Draining,
            partial matches Ok(part) ==> part.wf(),
        ensures
            final(self).wf(),
            final(self).block_size() == old(self).block_size(),
            final(self).pending() == old(self).pending(),
            final(self).dispatched() == old(self).dispatched(),
            match partial {
                Ok(part) => if can_merge(old(self).merged(), part@) {
                    &&& r is Ok
                    &&& final(self).merged() == merge(old(self).merged(), part@)
                    &&& final(self).received() == old(self).received() + 1
                    &&& final(self).phase() == if old(self).received() + 1 == old(self).dispatched() {
                        Phase::Merged
                    } else {
                        Phase::Draining
                    }
                } else {
                    &&& r matches Err(e) && e == Error::Overflow
                    &&& final(self).phase() == Phase::Failed(Error::Overflow)
                    &&& final(self).received() == old(self).received()
                    &&& exists|taken: Set<Seq<u8>>|
                        final(self).merged() == merge(
                            old(self).merged(),
                            #[trigger] part@.restrict(taken),
                        )
                },
                Err(failure) => {
                    &&& r matches Err(e) && e == failure
                    &&& final(self).phase() == Phase::Failed(failure)
                    &&& final(self).received() == old(self).received()
                    &&& final(self).merged() == old(self).merged()
                },
            },
    {
        match partial {
            Ok(part) => {
                match self.data.extend(part) {
                    Ok(()) => {
                        self.received = self.received + 1;
                        self.phase = if self.received == self.dispatched {
                            Phase::Merged
                        } else {
                            Phase::Draining
                        };
                        Ok(())
                    },
                    Err(e) => {
                        self.phase = Phase::Failed(e);
                        Err(e)
                    },
                }
            },
            Err(failure) => {
                self.phase = Phase::Failed(failure);
                Err(failure)
            },
        }
    }

    /// Hands out the result of a run that has merged all it awaited.
    pub fn into_data(self) -> (data: StationData)
        requires
            self.wf(),
            self.phase() == Phase::Merged,
        ensures
            data.wf(),
            data@ == self.merged(),
    {
        self.data
    }
}

} // verus!
