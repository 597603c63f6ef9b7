//! The nodes of the search: a board with its cost, its estimate and the
//! node it was reached from.

use vstd::prelude::*;
use std::rc::Rc;
use crate::board::{lemma_neighbour_of_neighbour, lemma_nth_move, Board, Layout};
use crate::heuristic::Heuristic;
use crate::route::lemma_follow_push;
use crate::tile_move::{lemma_between, Move};

verus! {

/// `Rc::clone`: one more handle on the node that `link` points to, so
/// that what the two hold is equal.
#[verifier::external_body]
fn share(link: &Rc<State>) -> (r: Rc<State>)
    ensures
        r == *link,
{
    Rc::clone(link)
}

/// A node of the search: a board, the number of moves that led to it, its
/// estimated distance from the target, and the node it was reached from.
#[derive(Debug, PartialEq, Eq)]
pub struct State {
    pub cost: usize,
    pub distance: usize,
    pub board: Board,
    pub parent: Option<Rc<State>>,
}

impl Clone for State {
    fn clone(&self) -> (r: Self)
        ensures
            r == *self,
    {
        State {
            cost: self.cost,
            distance: self.distance,
            board: self.board.clone(),
            parent: match &self.parent {
                Some(p) => Some(share(p)),
                None => None,
            },
        }
    }
}

impl State {
    /// Every board on the way from the root is valid and one move away
    /// from the one before it.
    pub open spec fn wf(&self) -> bool
        decreases self,
    {
        &&& self.board.wf()
        &&& match self.parent {
            None => true,
            Some(p) => p.wf() && p.board@.neighbours().contains(self.board@),
        }
    }

    /// The number of moves between the root and this node.
    pub open spec fn depth(&self) -> nat
        decreases self,
    {
        match self.parent {
            None => 0,
            Some(p) => p.depth() + 1,
        }
    }

    /// The cost of every node on the way from the root is its depth.
    pub open spec fn counted(&self) -> bool
        decreases self,
    {
        &&& self.cost == self.depth()
        &&& match self.parent {
            None => true,
            Some(p) => p.counted(),
        }
    }

    /// The layout of the root.
    pub open spec fn origin(&self) -> Layout
        decreases self,
    {
        match self.parent {
            None => self.board@,
            Some(p) => p.origin(),
        }
    }

    /// The moves from the root to this node, the first move first.
    pub open spec fn path(&self) -> Seq<Move>
        decreases self,
    {
        match self.parent {
            None => Seq::empty(),
            Some(p) => p.path().push(Move::between(p.board@, self.board@)),
        }
    }

    /// The priority key: cost so far plus estimated distance.
    pub open spec fn f(&self) -> int {
        self.cost + self.distance
    }

    /// Whether this node leaves the frontier before `other`: the smaller
    /// `f` first, and of two with the same `f` the one with the larger
    /// estimate.
    pub open spec fn before(&self, other: &State) -> bool {
        self.f() < other.f() || (self.f() == other.f() && self.distance > other.distance)
    }

    /// Whether this node leaves the frontier before `other`.
    pub fn precedes(&self, other: &State) -> (r: bool)
        ensures
            r == self.before(other),
    {
        let mine: u128 = self.cost as u128 + self.distance as u128;
        let theirs: u128 = other.cost as u128 + other.distance as u128;
        mine < theirs || (mine == theirs && self.distance > other.distance)
    }

    /// The nodes one move away, in the order of `Board::children`, each
    /// with one more move on its cost, its estimate taken from
    /// `heuristic`, and this node as its parent.
    pub fn children<H: Heuristic>(&self, heuristic: &H) -> (r: Vec<State>)
        requires
            self.board.wf(),
            self.cost < usize::MAX,
            exists|t: Layout|
                t.valid() && t.side == self.board@.side && #[trigger] heuristic.built_from(t),
        ensures
            r@.len() == self.board@.neighbours().len(),
            forall|i: int|
                0 <= i < r@.len() ==> {
                    &&& (#[trigger] r@[i]).board@ == self.board@.neighbours()[i]
                    &&& r@[i].cost == self.cost + 1
                    &&& r@[i].parent is Some
                    &&& *r@[i].parent.unwrap() == *self
                    &&& r@[i].path() == self.path().push(self.board@.nth_move(i))
                },
            forall|i: int, t: Layout|
                0 <= i < r@.len() && t.valid() && t.side == self.board@.side
                    && #[trigger] heuristic.built_from(t) ==> (#[trigger] r@[i]).distance
                    == H::estimate(t, r@[i].board@),
            forall|i: int| 0 <= i < r@.len() && self.wf() ==> (#[trigger] r@[i]).wf(),
            forall|i: int| 0 <= i < r@.len() && self.counted() ==> (#[trigger] r@[i]).counted(),
    {
        let parent = Rc::new(self.clone());
        let boards = self.board.children();
        let ghost all = boards@;
        let ghost around = self.board@.neighbours();
        let mut children: Vec<State> = Vec::with_capacity(boards.len());
        for board in it: boards
            invariant
                it.seq() == all,
                all.len() == around.len(),
                around == self.board@.neighbours(),
                forall|i: int| 0 <= i < all.len() ==> (#[trigger] all[i])@ == around[i],
                forall|i: int| 0 <= i < all.len() ==> (#[trigger] all[i]).wf(),
                *parent == *self,
                self.cost < usize::MAX,
                self.board.wf(),
                exists|t: Layout|
                    t.valid() && t.side == self.board@.side && #[trigger] heuristic.built_from(t),
                children@.len() == it.index(),
                forall|i: int|
                    0 <= i < children@.len() ==> {
                        &&& (#[trigger] children@[i]).board@ == around[i]
                        &&& children@[i].cost == self.cost + 1
                        &&& children@[i].parent is Some
                        &&& *children@[i].parent.unwrap() == *self
                    },
                forall|i: int, t: Layout|
                    0 <= i < children@.len() && t.valid() && t.side == self.board@.side
                        && #[trigger] heuristic.built_from(t) ==> (#[trigger] children@[i]).distance
                        == H::estimate(t, children@[i].board@),
        {
            let distance = heuristic.distance(&board);
            children.push(
                State { cost: self.cost + 1, distance, board, parent: Some(share(&parent)) },
            );
        }
        proof {
            assert forall|i: int| 0 <= i < children@.len() && self.wf() implies (
            #[trigger] children@[i]).wf() by {
                lemma_neighbour_of_neighbour(self.board@, i);
            }
            assert forall|i: int| 0 <= i < children@.len() implies (#[trigger] children@[i]).path()
                == self.path().push(self.board@.nth_move(i)) by {
                lemma_nth_move(self.board@, i);
                lemma_between(self.board@, self.board@.nth_move(i));
            }
        }
        children
    }

    /// The moves that lead from the root to this node, the first move
    /// first; the root itself adds none.
    pub fn build_path(&self) -> (path: Vec<Move>)
        requires
            self.wf(),
        ensures
            path@ == self.path(),
            path@.len() == self.depth(),
            self.origin().follow(path@) == Some(self.board@),
    {
        let mut path = Vec::new();
        Self::precedent_move(self, &mut path);
        proof {
            lemma_path(self);
        }
        path
    }

    fn precedent_move(state: &State, path: &mut Vec<Move>)
        requires
            state.wf(),
        ensures
            final(path)@ == old(path)@ + state.path(),
        decreases state,
    {
        match &state.parent {
            Some(parent) => {
                Self::precedent_move(parent, path);
                let move_ = Move::new(&parent.board, &state.board);
                path.push(move_);
            },
            None => {
                assert(path@ =~= old(path)@ + state.path());
            },
        }
    }
}

/// The path of a well-formed node has as many moves as the node is deep,
/// and leads from the root's layout to the node's.
pub proof fn lemma_path(s: &State)
    requires
        s.wf(),
    ensures
        s.path().len() == s.depth(),
        s.origin().valid(),
        s.origin().follow(s.path()) == Some(s.board@),
    decreases s,
{
    reveal_with_fuel(State::wf, 2);
    match &s.parent {
        None => {},
        Some(p) => {
            lemma_path(p);
            let i = choose|i: int|
                0 <= i < p.board@.neighbours().len() && p.board@.neighbours()[i] == s.board@;
            let m = choose|m: Move|
                p.board@.can_slide(m) && p.board@.neighbours()[i] == p.board@.slide(m);
            lemma_between(p.board@, m);
            lemma_follow_push(s.origin(), p.path(), m);
        },
    }
}

} // verus!
