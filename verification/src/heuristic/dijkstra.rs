//! The estimate that is zero everywhere.

use vstd::prelude::*;
use crate::board::{Board, Layout};
use crate::heuristic::Heuristic;
use crate::search::admissible;

verus! {

/// The estimate that is always zero: the search then goes by the cost
/// from the start alone.
pub struct Dijkstra;

impl Dijkstra {
    /// At the target, as everywhere, the estimate is zero.
    pub proof fn lemma_zero_at_target(target: Layout)
        ensures
            Self::estimate(target, target) == 0,
    {
    }

    /// Zero never exceeds the number of moves that lead to the target.
    pub proof fn lemma_admissible(target: Layout)
        ensures
            admissible::<Dijkstra>(target),
    {
    }
}

impl Heuristic for Dijkstra {
    open spec fn estimate(target: Layout, current: Layout) -> nat {
        0
    }

    open spec fn built_from(&self, target: Layout) -> bool {
        true
    }

    fn new(_expected: &Board) -> (h: Self) {
        Dijkstra
    }

    fn distance(&self, _current: &Board) -> (d: usize) {
        0
    }
}

} // verus!
