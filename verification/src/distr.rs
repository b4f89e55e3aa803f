//! Sampling a candidate from cumulative weights.
//!
//! Weights are compared and never added here, so they are kept as
//! integers on any scale on which a larger weight is a larger integer.

use crate::pool::ServerKey;
use vstd::prelude::*;

verus! {

/// A discrete distribution over candidates: each candidate stands with the
/// sum of the weights up to and including its own.
pub struct Distr {
    pub distr: Vec<(ServerKey, u64)>,
}

/// The entries are cumulative: there is one at least, and no weight is
/// less than the one before it.
pub open spec fn is_cumulative(entries: Seq<(ServerKey, u64)>) -> bool {
    &&& entries.len() > 0
    &&& forall|i: int, j: int| 0 <= i <= j < entries.len() ==> entries[i].1 <= entries[j].1
}

impl Distr {
    /// The distribution is over one candidate at least, and its weights
    /// are cumulative.
    pub open spec fn wf(&self) -> bool {
        is_cumulative(self.distr@)
    }

    /// The total weight: the last cumulative weight.
    pub open spec fn total(&self) -> u64 {
        self.distr@.last().1
    }

    /// `i` is the place of the first candidate whose cumulative weight is
    /// not less than `draw`.
    pub open spec fn is_pick(&self, draw: u64, i: int) -> bool {
        &&& 0 <= i < self.distr@.len()
        &&& self.distr@[i].1 >= draw
        &&& forall|j: int| 0 <= j < i ==> (#[trigger] self.distr@[j]).1 < draw
    }

    /// The distribution with the given entries, where they are cumulative;
    /// `None` where they are not.
    pub fn new(distr: Vec<(ServerKey, u64)>) -> (made: Option<Distr>)
        ensures
            made.is_some() == is_cumulative(distr@),
            made.is_some() ==> made.unwrap().distr@ == distr@,
    {
        if distr.len() == 0 {
            return None;
        }
        let mut i: usize = 1;
        while i < distr.len()
            invariant
                1 <= i <= distr@.len(),
                forall|a: int, b: int| 0 <= a <= b < i ==> distr@[a].1 <= distr@[b].1,
            decreases distr@.len() - i,
        {
            if distr[i].1 < distr[i - 1].1 {
                return None;
            }
            i += 1;
        }
        Some(Distr { distr })
    }

    /// The first candidate whose cumulative weight is not less than `draw`.
    pub fn sample_at(&self, draw: u64) -> (key: ServerKey)
        requires
            self.wf(),
            draw <= self.total(),
        ensures
            exists|i: int| self.is_pick(draw, i) && key == self.distr@[i].0,
    {
        let mut low: usize = 0;
        let mut high: usize = self.distr.len() - 1;
        while low < high
            invariant
                self.wf(),
                low <= high < self.distr@.len(),
                self.distr@[high as int].1 >= draw,
                forall|j: int| 0 <= j < low ==> (#[trigger] self.distr@[j]).1 < draw,
            decreases high - low,
        {
            let mid = low + (high - low) / 2;
            if self.distr[mid].1 >= draw {
                high = mid;
            } else {
                low = mid + 1;
            }
        }
        assert(self.is_pick(draw, low as int));
        self.distr[low].0
    }
}

/// A draw picks one place and no other.
pub proof fn lemma_pick_is_unique(distr: Distr, draw: u64, i: int, j: int)
    requires
        distr.is_pick(draw, i),
        distr.is_pick(draw, j),
    ensures
        i == j,
{
}

/// A candidate can be drawn exactly when its own weight is positive, that
/// is, when its cumulative weight exceeds the one before it; the first
/// candidate can always be drawn.
pub proof fn lemma_drawn_iff_positive_weight(distr: Distr, i: int)
    requires
        distr.wf(),
        0 <= i < distr.distr@.len(),
    ensures
        (exists|draw: u64| draw <= distr.total() && distr.is_pick(draw, i)) <==> (i == 0 || distr.distr@[i - 1].1
            < distr.distr@[i].1),
{
    if i == 0 || distr.distr@[i - 1].1 < distr.distr@[i].1 {
        let draw = distr.distr@[i].1;
        assert forall|j: int| 0 <= j < i implies (#[trigger] distr.distr@[j]).1 < draw by {
            assert(distr.distr@[j].1 <= distr.distr@[i - 1].1);
        }
        assert(draw <= distr.total() && distr.is_pick(draw, i));
    } else {
        assert forall|draw: u64| draw <= distr.total() implies !distr.is_pick(draw, i) by {
            if distr.is_pick(draw, i) {
                assert(distr.distr@[i - 1].1 < draw);
            }
        }
    }
}

/// A distribution over a single candidate yields it for every draw.
pub proof fn lemma_single_candidate_is_picked(distr: Distr, draw: u64, i: int)
    requires
        distr.distr@.len() == 1,
        distr.is_pick(draw, i),
    ensures
        i == 0,
{
}

} // verus!
