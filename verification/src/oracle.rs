//! The timestamp oracle: hands out monotonically increasing sequence
//! numbers, seeded at startup from the highest sequence number replayed out
//! of the write-ahead log.

use vstd::prelude::*;

use crate::ids::SequenceNumber;

verus! {

/// A counter whose `next` call returns `prior + 1`, together with the ghost
/// set of every value it has ever handed out.
pub struct TimestampOracle {
    counter: u64,
    issued: Ghost<Set<u64>>,
}

impl TimestampOracle {
    /// The greatest value the oracle has seeded from or handed out.
    pub closed spec fn watermark(&self) -> u64 {
        self.counter
    }

    /// Every sequence number this oracle has handed out.
    pub closed spec fn issued(&self) -> Set<u64> {
        self.issued@
    }

    /// Every issued value lies at or below the watermark.
    pub open spec fn wf(&self) -> bool {
        forall|v: u64| self.issued().contains(v) ==> v <= self.watermark()
    }

    /// Builds an oracle seeded with a high-water mark: every later `next`
    /// call returns a value strictly above it.
    pub fn new(high_water_mark: u64) -> (r: Self)
        ensures
            r.wf(),
            r.watermark() == high_water_mark,
            r.issued() == Set::<u64>::empty(),
    {
        TimestampOracle { counter: high_water_mark, issued: Ghost(Set::empty()) }
    }

    /// The current watermark: the seed, or the last value handed out.
    pub fn watermark_value(&self) -> (r: u64)
        ensures
            r == self.watermark(),
    {
        self.counter
    }

    /// Returns `prior + 1`: a value strictly greater than the seed and than
    /// every value this oracle has ever returned.
    pub fn next(&mut self) -> (r: SequenceNumber)
        requires
            old(self).wf(),
            old(self).watermark() < u64::MAX,
        ensures
            final(self).wf(),
            r.0 == old(self).watermark() + 1,
            final(self).watermark() == r.0,
            final(self).issued() == old(self).issued().insert(r.0),
            forall|v: u64| old(self).issued().contains(v) ==> v < r.0,
    {
        let r = self.counter + 1;
        self.counter = r;
        proof {
            self.issued@ = self.issued@.insert(r);
            assert forall|v: u64| self.issued().contains(v) implies v <= self.watermark() by {
                if v != r {
                    assert(old(self).issued().contains(v));
                }
            }
        }
        SequenceNumber(r)
    }
}

/// Law: the oracle is monotone.  Whatever two calls in whatever order some
/// caller observes, the later call's result is strictly greater than every
/// value issued before it, and strictly greater than the seed.
pub proof fn lemma_oracle_monotone(o: TimestampOracle, earlier: u64, later: u64)
    requires
        o.wf(),
        o.issued().contains(earlier),
        later > o.watermark(),
    ensures
        later > earlier,
{
}

} // verus!
