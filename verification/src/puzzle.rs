//! From the text of two boards and the name of an estimate to the moves.

use vstd::prelude::*;
use vstd::string::StringSliceAdditionalSpecFns;
use crate::board::{Board, Layout, Tile};
use crate::heuristic::{Dijkstra, Euclidean, Manhattan, MissPlaced, OutOfRaw};
use crate::parser::{flatten, joined, parse_file, parsed, views, ParseError};
use crate::search::owes;
use crate::solver::{Error, Solver};
use crate::tile_move::Move;

verus! {

/// The estimates that a search can be run with.
#[derive(Debug, Copy, Clone, PartialEq, Eq)]
pub enum HeuristicKind {
    Manhattan,
    Dijkstra,
    Euclidean,
    MissPlaced,
    OutOfRaw,
}

impl HeuristicKind {
    /// The estimate that goes by the name; `Manhattan` for a name that
    /// is none of `manhattan`, `dijkstra`, `euclidean`, `miss_placed` and
    /// `out_of_raw`.
    pub open spec fn named(name: Seq<char>) -> HeuristicKind {
        if name == "dijkstra"@ {
            HeuristicKind::Dijkstra
        } else if name == "euclidean"@ {
            HeuristicKind::Euclidean
        } else if name == "miss_placed"@ {
            HeuristicKind::MissPlaced
        } else if name == "out_of_raw"@ {
            HeuristicKind::OutOfRaw
        } else {
            HeuristicKind::Manhattan
        }
    }

    /// The estimate that goes by the name, `Manhattan` for an unknown name.
    pub fn from_name(name: &str) -> (kind: HeuristicKind)
        ensures
            kind == Self::named(name@),
    {
        let name = name.to_owned();
        if name == "dijkstra".to_owned() {
            HeuristicKind::Dijkstra
        } else if name == "euclidean".to_owned() {
            HeuristicKind::Euclidean
        } else if name == "miss_placed".to_owned() {
            HeuristicKind::MissPlaced
        } else if name == "out_of_raw".to_owned() {
            HeuristicKind::OutOfRaw
        } else {
            HeuristicKind::Manhattan
        }
    }
}

/// The layout that the rows make: the rows one after the other, as many
/// columns as there are rows.
pub open spec fn layout_of(rows: Seq<Seq<Tile>>) -> Layout {
    Layout { tiles: joined(rows), side: rows.len() }
}

/// The board that the rows make, or `InvalidBoard` when they are no valid
/// layout.
pub fn board_from_rows(rows: &Vec<Vec<Tile>>) -> (r: Result<Board, Error>)
    ensures
        match r {
            Ok(board) => board.wf() && board@ == layout_of(views(rows@)),
            Err(e) => e == Error::InvalidBoard && !layout_of(views(rows@)).valid(),
        },
{
    let tiles = flatten(rows);
    Board::new(crate::board::into_boxed(tiles), rows.len())
}

/// Why no moves came of two texts.
#[derive(Debug, Copy, Clone, PartialEq, Eq)]
pub enum Failure {
    /// The text of the start is empty.
    EmptyInput,
    /// The text of the target is empty.
    EmptyExpected,
    /// The text of the start spells no board.
    Input(ParseError),
    /// The text of the target spells no board.
    Expected(ParseError),
    /// The boards were refused, or the search gave up.
    Puzzle(Error),
}

/// What a text has to say before any search: the layout it spells, or the
/// reason why it spells no valid one.
pub open spec fn read(text: Seq<u8>) -> Result<Layout, Result<ParseError, Error>> {
    match parsed(text) {
        Err(e) => Err(Ok(e)),
        Ok(rows) => if layout_of(rows).valid() {
            Ok(layout_of(rows))
        } else {
            Err(Err(Error::InvalidBoard))
        },
    }
}

/// The first reason, if there is one, why no search is made for the two
/// texts: an empty text, then a text that spells no board, then an
/// invalid board, the start before the target in each case, then boards
/// of two sizes, then the parity test.
pub open spec fn refusal(input: &str, expected: &str) -> Option<Failure> {
    if input@.len() == 0 {
        Some(Failure::EmptyInput)
    } else if expected@.len() == 0 {
        Some(Failure::EmptyExpected)
    } else {
        match read(input.spec_bytes()) {
            Err(Ok(e)) => Some(Failure::Input(e)),
            Err(Err(e)) => Some(Failure::Puzzle(e)),
            Ok(start) => match read(expected.spec_bytes()) {
                Err(Ok(e)) => Some(Failure::Expected(e)),
                Err(Err(e)) => Some(Failure::Puzzle(e)),
                Ok(target) => if start.side != target.side {
                    Some(Failure::Puzzle(Error::UnmatchingSizes))
                } else if !start.solvable(target) {
                    Some(Failure::Puzzle(Error::Unsolvable))
                } else {
                    None
                },
            },
        }
    }
}

impl Solver {
    /// Searches with the estimate of the given kind. Each of them is
    /// admissible, so the moves found are as few as any that lead to the
    /// target, and the search succeeds whenever the limit on pushed nodes
    /// is large enough for the ways of up to one move more.
    pub fn solve_with(&self, kind: HeuristicKind) -> (r: Result<(usize, usize, Vec<Move>), Error>)
        ensures
            match r {
                Ok((max_frontier, expansions, moves)) => {
                    &&& self.start().shortest(moves@, self.target())
                    &&& moves@.len() <= expansions <= max_frontier + expansions
                    &&& max_frontier <= expansions <= self.limit()
                },
                Err(Error::SearchExhausted) => !self.start().reaches(self.target()),
                Err(Error::BudgetExceeded { max_frontier, expansions }) => max_frontier
                    <= expansions == self.limit(),
                Err(_) => false,
            },
            self.start() == self.target() ==> (r matches Ok((max_frontier, expansions, moves))
                && max_frontier == 0 && expansions == 0 && moves@.len() == 0),
            forall|best: Seq<Move>| #[trigger]
                owes(self.start(), self.target(), self.limit(), best) ==> r is Ok,
    {
        let target = self.expected();
        proof {
            Manhattan::lemma_admissible(target@);
            Dijkstra::lemma_admissible(target@);
            Euclidean::lemma_admissible(target@);
            MissPlaced::lemma_admissible(target@);
            OutOfRaw::lemma_admissible(target@);
        }
        match kind {
            HeuristicKind::Manhattan => self.solve::<Manhattan>(),
            HeuristicKind::Dijkstra => self.solve::<Dijkstra>(),
            HeuristicKind::Euclidean => self.solve::<Euclidean>(),
            HeuristicKind::MissPlaced => self.solve::<MissPlaced>(),
            HeuristicKind::OutOfRaw => self.solve::<OutOfRaw>(),
        }
    }
}

/// Reads the start and the target from their texts and searches for the
/// moves between them with the estimate that goes by the name
/// `heuristic`.
pub fn solve_text(input: &str, expected: &str, heuristic: &str) -> (r: Result<
    (usize, usize, Vec<Move>),
    Failure,
>)
    ensures
        match refusal(input, expected) {
            Some(failure) => r == Err::<(usize, usize, Vec<Move>), Failure>(failure),
            None => {
                let start = read(input.spec_bytes()).unwrap();
                let target = read(expected.spec_bytes()).unwrap();
                match r {
                    Ok((max_frontier, expansions, moves)) => {
                        &&& start.shortest(moves@, target)
                        &&& moves@.len() <= expansions <= max_frontier + expansions
                        &&& max_frontier <= expansions
                    },
                    Err(Failure::Puzzle(Error::SearchExhausted)) => !start.reaches(target),
                    Err(Failure::Puzzle(Error::BudgetExceeded { max_frontier, expansions })) =>
                        expansions == usize::MAX && forall|best: Seq<Move>|
                            !#[trigger] owes(start, target, usize::MAX as nat, best),
                    Err(_) => false,
                }
            },
        },
{
    if input.is_empty() {
        return Err(Failure::EmptyInput);
    }
    if expected.is_empty() {
        return Err(Failure::EmptyExpected);
    }
    let board_vec = match parse_file(input) {
        Ok(rows) => rows,
        Err(e) => {
            return Err(Failure::Input(e));
        },
    };
    let board = match board_from_rows(&board_vec) {
        Ok(board) => board,
        Err(e) => {
            return Err(Failure::Puzzle(e));
        },
    };
    let expected_vec = match parse_file(expected) {
        Ok(rows) => rows,
        Err(e) => {
            return Err(Failure::Expected(e));
        },
    };
    let expected_board = match board_from_rows(&expected_vec) {
        Ok(board) => board,
        Err(e) => {
            return Err(Failure::Puzzle(e));
        },
    };
    let solver = match Solver::new(board, expected_board) {
        Ok(solver) => solver,
        Err(e) => {
            return Err(Failure::Puzzle(e));
        },
    };
    match solver.solve_with(HeuristicKind::from_name(heuristic)) {
        Ok(found) => Ok(found),
        Err(e) => Err(Failure::Puzzle(e)),
    }
}

} // verus!
