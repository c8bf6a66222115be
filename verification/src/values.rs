//! The accumulator kept for one key.

use vstd::prelude::*;

verus! {

/// The statistics of a non-empty collection of readings, over unbounded
/// integers. Readings are in tenths.
pub struct Stats {
    pub min: int,
    pub max: int,
    pub count: nat,
    pub sum: int,
}

impl Stats {
    /// The statistics of the single reading `reading`.
    pub open spec fn single(reading: int) -> Stats {
        Stats { min: reading, max: reading, count: 1, sum: reading }
    }

    /// The statistics after one more reading.
    pub open spec fn observe(self, reading: int) -> Stats {
        self.merge(Stats::single(reading))
    }

    /// The statistics of two collections taken together.
    pub open spec fn merge(self, other: Stats) -> Stats {
        Stats {
            min: if other.min < self.min { other.min } else { self.min },
            max: if other.max > self.max { other.max } else { self.max },
            count: self.count + other.count,
            sum: self.sum + other.sum,
        }
    }

    /// At least one reading went in, and the minimum is not above the
    /// maximum.
    pub open spec fn wf(self) -> bool {
        self.count >= 1 && self.min <= self.max
    }

    /// Whether each field fits the machine integer that `Values` keeps it in.
    pub open spec fn fits(self) -> bool {
        &&& i64::MIN <= self.min <= i64::MAX
        &&& i64::MIN <= self.max <= i64::MAX
        &&& self.count <= u64::MAX
        &&& i64::MIN <= self.sum <= i64::MAX
    }
}

/// Minimum, maximum, count and sum of the readings seen for one key.
#[derive(Clone, Copy, Debug)]
pub struct Values {
    min: i64,
    max: i64,
    count: u64,
    sum: i64,
}

impl View for Values {
    type V = Stats;

    closed spec fn view(&self) -> Stats {
        Stats { min: self.min as int, max: self.max as int, count: self.count as nat, sum: self.sum as int }
    }
}

impl Values {
    /// At least one reading has been seen, and the minimum does not exceed
    /// the maximum.
    #[verifier::type_invariant]
    pub open spec fn wf(self) -> bool {
        self@.wf()
    }

    /// What is kept fits the machine integers it is kept in.
    pub proof fn lemma_fits(self)
        ensures
            self@.fits(),
    {
    }

    /// The accumulator of a key seen once, with `reading`.
    pub fn new(reading: i64) -> (v: Self)
        ensures
            v@ == Stats::single(reading as int),
    {
        Self { min: reading, max: reading, count: 1, sum: reading }
    }

    /// Whether one more reading can be taken in without leaving the range
    /// of the count or the sum.
    pub fn can_add(&self, reading: i64) -> (ok: bool)
        ensures
            ok == self@.observe(reading as int).fits(),
    {
        self.count < u64::MAX && self.sum.checked_add(reading).is_some()
    }

    /// Whether `other` can be merged in without leaving the range of the
    /// count or the sum.
    pub fn can_extend(&self, other: &Values) -> (ok: bool)
        ensures
            ok == self@.merge(other@).fits(),
    {
        self.count.checked_add(other.count).is_some() && self.sum.checked_add(other.sum).is_some()
    }

    /// Takes in one more reading.
    pub fn add(&mut self, reading: i64)
        requires
            old(self)@.observe(reading as int).fits(),
        ensures
            final(self)@ == old(self)@.observe(reading as int),
    {
        proof {
            use_type_invariant(&*self);
        }
        let min: i64 = if reading < self.min { reading } else { self.min };
        let max: i64 = if reading > self.max { reading } else { self.max };
        *self = Values { min, max, count: self.count + 1, sum: self.sum + reading };
    }

    /// Takes in the readings that `other` stands for.
    pub fn extend(&mut self, other: Values)
        requires
            old(self)@.merge(other@).fits(),
        ensures
            final(self)@ == old(self)@.merge(other@),
    {
        proof {
            use_type_invariant(&*self);
            use_type_invariant(&other);
        }
        let min: i64 = if other.min < self.min { other.min } else { self.min };
        let max: i64 = if other.max > self.max { other.max } else { self.max };
        *self = Values { min, max, count: self.count + other.count, sum: self.sum + other.sum };
    }

    /// The smallest reading, in tenths.
    pub fn min(&self) -> (min: i64)
        ensures
            min == self@.min,
    {
        self.min
    }

    /// The largest reading, in tenths.
    pub fn max(&self) -> (max: i64)
        ensures
            max == self@.max,
    {
        self.max
    }

    /// How many readings went in; never zero.
    pub fn count(&self) -> (count: u64)
        ensures
            count == self@.count,
            count >= 1,
    {
        proof {
            use_type_invariant(self);
        }
        self.count
    }

    /// The sum of the readings, in tenths.
    pub fn sum(&self) -> (sum: i64)
        ensures
            sum == self@.sum,
    {
        self.sum
    }
}

} // verus!
