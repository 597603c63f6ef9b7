//! The parity test and the A* search.

use vstd::prelude::*;
use vstd::multiset::Multiset;
use crate::board::{Board, Layout};
use crate::closed::Closed;
use crate::frontier::Frontier;
use crate::heuristic::Heuristic;
use crate::route::lemma_ways_grow;
use crate::search::{
    admissible, closed_fits, closure, covered, lemma_closure_after_pop, lemma_closure_after_push,
    lemma_closure_complete, lemma_cover_after_pop, lemma_cover_after_push,
    lemma_first_out_is_shortest, lemma_frontier_holds_way, lemma_offspring_way,
    lemma_offspring_ways_differ, lemma_ways_after_pop, lemma_ways_after_push, lemma_ways_at_start,
    lemma_ways_room, never_target, nodes_fit, offspring, owes, short_ways, ways_fit,
};
use crate::state::{lemma_path, State};
use crate::tile_move::Move;

verus! {

/// Why a board, a solver or a search was refused.
#[derive(Debug, Copy, Clone, PartialEq, Eq)]
pub enum Error {
    /// The tiles are not a permutation of `0..side*side` on a square of side 3 or more.
    InvalidBoard,
    /// Start and target differ in size.
    UnmatchingSizes,
    /// The parity test says that no sequence of moves joins the two boards.
    Unsolvable,
    /// The frontier ran empty before the target was reached.
    SearchExhausted,
    /// The cap on pushed nodes was reached; the counters are those at that moment.
    BudgetExceeded { max_frontier: usize, expansions: usize },
}

impl Error {
    /// A sentence that says what went wrong.
    pub fn description(&self) -> (text: &'static str)
        ensures
            text@ == match *self {
                Error::InvalidBoard => "board is invalid"@,
                Error::UnmatchingSizes => "sizes doesn't match"@,
                Error::Unsolvable => "puzzle is unsolvable"@,
                Error::SearchExhausted => "search exhausted the frontier"@,
                Error::BudgetExceeded { .. } => "node budget exceeded"@,
            },
    {
        match *self {
            Error::InvalidBoard => "board is invalid",
            Error::UnmatchingSizes => "sizes doesn't match",
            Error::Unsolvable => "puzzle is unsolvable",
            Error::SearchExhausted => "search exhausted the frontier",
            Error::BudgetExceeded { .. } => "node budget exceeded",
        }
    }
}

/// Whether the parity test lets `expected` be reached from `board`: on a
/// board of odd side the two inversion counts have the same parity, on
/// one of even side the inversion counts plus the rows of the blank have.
pub fn is_solvable(board: &Board, expected: &Board) -> (r: bool)
    requires
        board.wf(),
        expected.wf(),
    ensures
        r == board@.solvable(expected@),
{
    board_parity(board) == board_parity(expected)
}

/// The parity of a board: 0 or 1.
fn board_parity(board: &Board) -> (p: usize)
    requires
        board.wf(),
    ensures
        p == board@.parity(),
{
    proof {
        crate::board::lemma_side_bound(board@);
    }
    let mut inversions = board.inversions();
    if board.line_size % 2 == 0 {
        inversions += board.blank_index() / board.line_size;
    }
    inversions % 2
}

/// The parity test gives the same answer in both directions.
pub proof fn lemma_solvable_symmetric(start: Layout, target: Layout)
    ensures
        start.solvable(target) == target.solvable(start),
{
}

/// A start and a target of one size that pass the parity test, and an
/// optional cap on the number of nodes that a search may push.
#[derive(Debug)]
pub struct Solver {
    board: Board,
    expected: Board,
    node_budget: Option<usize>,
}

impl Solver {
    #[verifier::type_invariant]
    spec fn inv(&self) -> bool {
        &&& self.board.wf()
        &&& self.expected.wf()
        &&& self.board.line_size == self.expected.line_size
    }

    /// The layout that the search starts from.
    pub closed spec fn start(&self) -> Layout {
        self.board@
    }

    /// The layout that the search looks for.
    pub closed spec fn target(&self) -> Layout {
        self.expected@
    }

    /// The cap on pushed nodes, if one was set.
    pub closed spec fn budget(&self) -> Option<usize> {
        self.node_budget
    }

    /// The number of nodes that a search may push: the budget, or as many
    /// as can be counted.
    pub open spec fn limit(&self) -> nat {
        match self.budget() {
            Some(n) => n as nat,
            None => usize::MAX as nat,
        }
    }

    /// The board that the search starts from.
    pub fn board(&self) -> (b: &Board)
        ensures
            b@ == self.start(),
            b.wf(),
            self.start().side == self.target().side,
    {
        proof {
            use_type_invariant(self);
        }
        &self.board
    }

    /// The board that the search looks for.
    pub fn expected(&self) -> (b: &Board)
        ensures
            b@ == self.target(),
            b.wf(),
            self.start().side == self.target().side,
    {
        proof {
            use_type_invariant(self);
        }
        &self.expected
    }

    /// The cap on pushed nodes, if one was set.
    pub fn node_budget(&self) -> (n: Option<usize>)
        ensures
            n == self.budget(),
    {
        self.node_budget
    }

    /// A solver for the two boards: `UnmatchingSizes` when they differ in
    /// size, whatever the parity test would say; `Unsolvable` when they
    /// are of one size and fail the parity test.
    pub fn new(board: Board, expected: Board) -> (r: Result<Solver, Error>)
        requires
            board.wf(),
            expected.wf(),
        ensures
            match r {
                Ok(solver) => {
                    &&& board@.side == expected@.side
                    &&& board@.solvable(expected@)
                    &&& solver.start() == board@
                    &&& solver.target() == expected@
                    &&& solver.budget() is None
                },
                Err(e) => if board@.side != expected@.side {
                    e == Error::UnmatchingSizes
                } else {
                    e == Error::Unsolvable && !board@.solvable(expected@)
                },
            },
    {
        if board.line_size != expected.line_size || board.data.len() != expected.data.len() {
            Err(Error::UnmatchingSizes)
        } else if !is_solvable(&board, &expected) {
            Err(Error::Unsolvable)
        } else {
            Ok(Solver { board, expected, node_budget: None })
        }
    }

    /// Searches for the target with A*: the node with the smallest cost
    /// plus estimate leaves the frontier first, and a board is pushed again
    /// when it is found at a smaller cost than the one at which it was
    /// expanded.
    ///
    /// Returns the largest size that the frontier had after an expansion,
    /// the number of nodes pushed after the root, and the moves from the
    /// start to the target.
    ///
    /// With an admissible estimate the moves are as few as can be, and the
    /// search succeeds whenever the limit on pushed nodes is at least
    /// `ways_upto(n + 1)`, `n` being that smallest number of moves.
    pub fn solve<H: Heuristic>(&self) -> (r: Result<(usize, usize, Vec<Move>), Error>)
        ensures
            match r {
                Ok((max_frontier, expansions, moves)) => {
                    &&& self.start().follow(moves@) == Some(self.target())
                    &&& moves@.len() <= expansions <= max_frontier + expansions
                    &&& max_frontier <= expansions <= self.limit()
                    &&& admissible::<H>(self.target()) ==> self.start().shortest(
                        moves@,
                        self.target(),
                    )
                },
                Err(Error::SearchExhausted) => !self.start().reaches(self.target()),
                Err(Error::BudgetExceeded { max_frontier, expansions }) => max_frontier
                    <= expansions == self.limit(),
                Err(_) => false,
            },
            self.start() == self.target() ==> (r matches Ok((max_frontier, expansions, moves))
                && max_frontier == 0 && expansions == 0 && moves@.len() == 0),
            forall|best: Seq<Move>|
                admissible::<H>(self.target()) && #[trigger] owes(
                    self.start(),
                    self.target(),
                    self.limit(),
                    best,
                ) ==> r is Ok,
    {
        proof {
            use_type_invariant(self);
        }
        let ghost start = self.board@;
        let ghost target = self.expected@;
        let heuristic = H::new(&self.expected);
        let limit: usize = match self.node_budget {
            Some(n) => n,
            None => usize::MAX,
        };
        let mut open = Frontier::new();
        let mut closed = Closed::new();
        let mut expansions: usize = 0;
        let mut max_frontier: usize = 0;
        let root = State {
            cost: 0,
            distance: heuristic.distance(&self.board),
            board: self.board.clone(),
            parent: None,
        };
        let ghost first_node = root;
        let ghost mut expanded: Set<(Layout, nat)> = Set::empty();
        let ghost mut first = true;
        // the ways of the nodes that were pushed, and of those that have left
        let ghost mut pushed: Seq<Seq<Move>> = Seq::empty();
        let ghost mut popped: Set<Seq<Move>> = Set::empty();
        // whether success is owed, and a shortest way that says so
        let ghost owed = admissible::<H>(target) && exists|best: Seq<Move>|
            owes(start, target, limit as nat, best);
        let ghost best = choose|best: Seq<Move>| owes(start, target, limit as nat, best);
        open.push(root);
        proof {
            broadcast use vstd::multiset::group_multiset_axioms;

            assert(open@.count(first_node) > 0);
            lemma_ways_at_start(first_node);
        }
        loop
            invariant
                open.wf(),
                start == self.board@,
                target == self.expected@,
                start == self.start(),
                target == self.target(),
                start.valid(),
                target.valid(),
                start.side == target.side,
                heuristic.built_from(target),
                limit == self.limit(),
                max_frontier <= expansions <= limit,
                open.count() <= expansions + 1,
                nodes_fit::<H>(open@, start, target, expansions as nat),
                closed_fits(closed@, expanded, start.side),
                never_target(expanded, target),
                closure(open@, expanded, expanded),
                covered(open@, expanded, start, 0),
                first ==> max_frontier == 0 && expansions == 0 && open@ == Multiset::<
                    State,
                >::empty().insert(first_node),
                first_node.board@ == start && first_node.parent is None,
                !first ==> start != target,
                pushed.len() == expansions,
                ways_fit(open@, pushed, popped),
                owed == (admissible::<H>(target) && exists|best: Seq<Move>|
                    owes(start, target, limit as nat, best)),
                owed ==> owes(start, target, limit as nat, best),
                owed ==> short_ways(pushed, best.len() + 1),
            decreases limit - expansions, open.count(),
        {
            let ghost before = open@;
            let state = match open.pop() {
                Some(state) => state,
                None => {
                    proof {
                        if start.reaches(target) {
                            let moves = choose|moves: Seq<Move>|
                                start.follow(moves) == Some(target);
                            let w = lemma_frontier_holds_way(
                                before,
                                expanded,
                                start,
                                target,
                                moves,
                                0,
                                0,
                            );
                            assert(before.count(w.0) > 0);
                        }
                    }
                    return Err(Error::SearchExhausted);
                },
            };
            proof {
                lemma_path(&state);
                if owed {
                    lemma_first_out_is_shortest::<H>(
                        before,
                        expanded,
                        start,
                        target,
                        expansions as nat,
                        state,
                        best,
                    );
                    lemma_ways_grow(best.len() + 1, best.len() + 1);
                }
            }
            if state.board.same_tiles(&self.expected) {
                let moves = state.build_path();
                proof {
                    if admissible::<H>(target) {
                        assert forall|other: Seq<Move>| #[trigger]
                            start.follow(other) == Some(target) implies moves@.len()
                            <= other.len() by {
                            lemma_first_out_is_shortest::<H>(
                                before,
                                expanded,
                                start,
                                target,
                                expansions as nat,
                                state,
                                other,
                            );
                        }
                    }
                }
                return Ok((max_frontier, expansions, moves));
            }
            if state.cost == usize::MAX {
                // as many nodes were pushed as can be counted
                return Err(Error::BudgetExceeded { max_frontier, expansions });
            }
            let ghost more = expanded.insert((state.board@, state.cost as nat));
            let ghost around = state.board@.neighbours();
            let ghost left = popped.insert(state.path());
            proof {
                lemma_closure_after_pop(before, expanded, state);
                lemma_cover_after_pop(before, expanded, state, start, 0);
                lemma_ways_after_pop(before, pushed, popped, state);
            }
            let children = state.children(&heuristic);
            let ghost all = children@;
            let ghost pushed_before = expansions;
            let ghost count_popped = open.count();
            for child in it: children
                invariant
                    it.seq() == all,
                    offspring::<H>(all, state, start, target),
                    around == state.board@.neighbours(),
                    more == expanded.insert((state.board@, state.cost as nat)),
                    left == popped.insert(state.path()),
                    state.board.wf(),
                    state.cost <= pushed_before,
                    state.cost < usize::MAX,
                    state.path().len() == state.cost,
                    open.wf(),
                    start == self.start(),
                    target == self.target(),
                    start != target,
                    limit == self.limit(),
                    max_frontier <= pushed_before <= expansions <= limit,
                    count_popped <= pushed_before,
                    open.count() == count_popped + (expansions - pushed_before),
                    nodes_fit::<H>(open@, start, target, expansions as nat),
                    closed_fits(closed@, expanded, start.side),
                    state.board@.side == start.side,
                    closure(open@, more, expanded),
                    covered(open@, more, start, 0),
                    forall|i: int|
                        0 <= i < it.index() ==> covered(
                            open@,
                            more,
                            #[trigger] around[i],
                            (state.cost + 1) as nat,
                        ),
                    pushed.len() == expansions,
                    ways_fit(open@, pushed, left),
                    forall|j: int|
                        it.index() <= j < all.len() ==> !pushed.contains((#[trigger] all[j]).path()),
                    owed == (admissible::<H>(target) && exists|best: Seq<Move>|
                        owes(start, target, limit as nat, best)),
                    owed ==> owes(start, target, limit as nat, best),
                    owed ==> state.cost <= best.len(),
                    owed ==> short_ways(pushed, best.len() + 1),
            {
                let ghost index = it.index() as int;
                let ghost held = open@;
                let ghost way = child.path();
                proof {
                    lemma_offspring_way::<H>(all, state, start, target, index);
                }
                // a board is pushed when it was never expanded, or only at a larger cost
                let fresh = match closed.get(&child.board) {
                    None => true,
                    Some(cost) => cost > child.cost,
                };
                if fresh {
                    if expansions >= limit {
                        proof {
                            if owed {
                                lemma_ways_room(held, pushed, left, way, best.len() + 1);
                            }
                        }
                        return Err(Error::BudgetExceeded { max_frontier, expansions });
                    }
                    open.push(child);
                    expansions += 1;
                    proof {
                        lemma_closure_after_push(held, more, expanded, child);
                        lemma_cover_after_push(held, more, child, start, 0);
                        assert forall|i: int| 0 <= i < index + 1 implies covered(
                            open@,
                            more,
                            #[trigger] around[i],
                            (state.cost + 1) as nat,
                        ) by {
                            if i < index {
                                lemma_cover_after_push(
                                    held,
                                    more,
                                    child,
                                    around[i],
                                    (state.cost + 1) as nat,
                                );
                            } else {
                                assert(open@.count(child) > 0);
                            }
                        }
                        lemma_ways_after_push(held, pushed, left, child);
                        assert forall|j: int| index + 1 <= j < all.len() implies !pushed.push(
                            way,
                        ).contains((#[trigger] all[j]).path()) by {
                            lemma_offspring_ways_differ::<H>(all, state, start, target, index, j);
                        }
                        pushed = pushed.push(way);
                    }
                } else {
                    proof {
                        let tiles = child.board.data@;
                        assert(more.contains((around[index], closed@[tiles] as nat)));
                    }
                }
            }
            let live = open.len();
            if live > max_frontier {
                max_frontier = live;
            }
            closed.insert(&state.board, state.cost);
            proof {
                lemma_closure_complete(open@, expanded, state);
                expanded = more;
                popped = left;
                first = false;
            }
        }
    }

    /// The same solver with a cap on the number of nodes that a search may
    /// push.
    pub fn with_node_budget(self, node_budget: usize) -> (r: Solver)
        ensures
            r.start() == self.start(),
            r.target() == self.target(),
            r.budget() == Some(node_budget),
    {
        proof {
            use_type_invariant(&self);
        }
        Solver { board: self.board, expected: self.expected, node_budget: Some(node_budget) }
    }
}

} // verus!
