//! The moves of the blank.

use vstd::prelude::*;
use crate::board::{lemma_side_bound, lemma_slide, Board, Layout};

verus! {

/// One move: the blank changes places with a tile next to it.
///
/// A move is told by what it does to the blank's row-major index: `Up`
/// adds one row to it, `Down` takes one row off, `Left` adds one and
/// `Right` takes one off. On a grid drawn with index 0 at the top left the
/// name is the way the tile goes.
#[derive(Debug, Copy, Clone, PartialEq, Eq, Hash)]
pub enum Move {
    Up,
    Down,
    Left,
    Right,
}

impl Move {
    /// By how much the blank's index changes on a board with `side` columns.
    pub open spec fn offset(self, side: int) -> int {
        match self {
            Move::Up => side,
            Move::Down => -side,
            Move::Left => 1,
            Move::Right => -1,
        }
    }

    /// The move read off the places of the blank before and after: the
    /// first of `Up`, `Down`, `Right` whose change of index fits, and `Left`
    /// when none of them does.
    pub open spec fn between(parent: Layout, child: Layout) -> Move {
        let zero = child.blank();
        let parent_zero = parent.blank();
        let side = child.side as int;
        if zero == parent_zero + side {
            Move::Up
        } else if zero + side == parent_zero {
            Move::Down
        } else if zero + 1 == parent_zero {
            Move::Right
        } else {
            Move::Left
        }
    }

    /// The move that leads from `parent` to `board`, for two boards of
    /// which the second is one move away from the first.
    pub fn new(parent: &Board, board: &Board) -> (m: Move)
        requires
            parent.wf(),
            board.wf(),
        ensures
            m == Move::between(parent@, board@),
            forall|k: Move|
                parent@.can_slide(k) && board@ == parent@.slide(k) ==> m == k,
    {
        let line_size = board.line_size;
        let zero = board.blank_index();
        let parent_zero = parent.blank_index();
        proof {
            lemma_side_bound(parent@);
            lemma_side_bound(board@);
            assert forall|k: Move|
                parent@.can_slide(k) && board@ == parent@.slide(k) implies Move::between(
                parent@,
                board@,
            ) == k by {
                lemma_between(parent@, k);
            }
        }
        if zero == parent_zero + line_size {
            Move::Up
        } else if zero + line_size == parent_zero {
            Move::Down
        } else if zero + 1 == parent_zero {
            Move::Right
        } else {
            Move::Left
        }
    }

    /// The move that undoes this one.
    pub open spec fn opposite(self) -> Move {
        match self {
            Move::Up => Move::Down,
            Move::Down => Move::Up,
            Move::Left => Move::Right,
            Move::Right => Move::Left,
        }
    }
}

/// The move between a layout and what a possible move makes of it is that
/// move.
pub proof fn lemma_between(l: Layout, m: Move)
    requires
        l.valid(),
        l.can_slide(m),
    ensures
        Move::between(l, l.slide(m)) == m,
{
    lemma_slide(l, m);
}

} // verus!
