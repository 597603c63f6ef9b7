//! The estimate by the number of tiles out of place.

use vstd::prelude::*;
use crate::board::{lemma_blank, lemma_side_bound, lemma_slide, Board, Layout};
use crate::heuristic::{
    index_positions, is_index_of, lemma_cell, lemma_place_bounds, lemma_table_fits_one,
    lemma_total_moved, lemma_total_take, lemma_total_zero, total, Heuristic,
};
use crate::search::{admissible, consistent, lemma_consistent_is_admissible};
use crate::tile_move::Move;

verus! {

/// The number of tiles that do not stand at their place in the target.
/// The blank is no tile and is not counted.
pub struct MissPlaced {
    positions: Box<[(isize, isize)]>,
}

impl MissPlaced {
    /// What the tile at place `i` of `current` adds to the estimate.
    pub open spec fn term(target: Layout, current: Layout, i: int) -> nat {
        let t = current.tiles[i];
        if t == 0 {
            0
        } else {
            if target.place_of(t) != i {
                1
            } else {
                0
            }
        }
    }

    /// The terms of all places.
    pub open spec fn terms(target: Layout, current: Layout) -> Seq<nat> {
        Seq::new(current.tiles.len(), |i: int| Self::term(target, current, i))
    }

    /// At the target itself the estimate is zero.
    pub proof fn lemma_zero_at_target(target: Layout)
        requires
            target.valid(),
        ensures
            Self::estimate(target, target) == 0,
    {
        let terms = Self::terms(target, target);
        lemma_total_zero(terms);
    }

    /// One move takes at most one off the estimate: only the tile that
    /// changes places with the blank changes its term.
    pub proof fn lemma_one_move(target: Layout, l: Layout, m: Move)
        requires
            target.valid(),
            l.valid(),
            l.side == target.side,
            l.can_slide(m),
        ensures
            Self::estimate(target, l) <= Self::estimate(target, l.slide(m)) + 1,
    {
        lemma_blank(l);
        lemma_slide(l, m);
        let next = l.slide(m);
        let from = l.landing(m);
        let to = l.blank();
        lemma_total_moved(Self::terms(target, l), Self::terms(target, next), from, to);
    }

    /// The estimate falls by at most one with each move, and so never
    /// exceeds the number of moves that lead to the target.
    pub proof fn lemma_admissible(target: Layout)
        requires
            target.valid(),
        ensures
            consistent::<MissPlaced>(target),
            admissible::<MissPlaced>(target),
    {
        assert forall|l: Layout, m: Move|
            l.valid() && l.side == target.side && #[trigger] l.can_slide(m) implies Self::estimate(
            target,
            l,
        ) <= Self::estimate(target, l.slide(m)) + 1 by {
            Self::lemma_one_move(target, l, m);
        }
        Self::lemma_zero_at_target(target);
        lemma_consistent_is_admissible::<MissPlaced>(target);
    }
}

impl Heuristic for MissPlaced {
    open spec fn estimate(target: Layout, current: Layout) -> nat {
        total(Self::terms(target, current))
    }

    closed spec fn built_from(&self, target: Layout) -> bool {
        is_index_of(self.positions@, target)
    }

    fn new(expected: &Board) -> (h: Self) {
        Self { positions: index_positions(expected) }
    }

    fn distance(&self, current: &Board) -> (d: usize) {
        let ghost t = choose|t: Layout|
            t.valid() && t.side == current@.side && #[trigger] self.built_from(t);
        let ghost c = current@;
        let ghost terms = Self::terms(t, c);
        proof {
            lemma_side_bound(c);
        }
        let line_size = current.line_size as isize;
        let len = current.data.len();
        let mut cost: usize = 0;
        let mut i: usize = 0;
        while i < len
            invariant
                i <= len,
                len == c.tiles.len(),
                len <= 256,
                c == current@,
                c.valid(),
                t.valid(),
                t.side == c.side,
                line_size == c.side,
                is_index_of(self.positions@, t),
                terms == Self::terms(t, c),
                cost == total(terms.take(i as int)),
                cost <= i * 1,
            decreases len - i,
        {
            let tile = current.data[i];
            proof {
                lemma_total_take(terms, i as int);
                lemma_place_bounds(t, tile);
                lemma_cell(t, t.place_of(tile));
            }
            if tile != 0 {
                let place = i as isize;
                let (exp_x, exp_y) = self.positions[tile as usize];
                if exp_y * line_size + exp_x != place {
                    cost += 1;
                }
            }
            i += 1;
        }
        proof {
            assert(terms.take(len as int) == terms);
            assert forall|other: Layout|
                other.valid() && other.side == current@.side && #[trigger] self.built_from(
                    other,
                ) implies cost == Self::estimate(other, current@) by {
                lemma_table_fits_one(self.positions@, t, other);
            }
        }
        cost
    }
}

} // verus!
