use n_puzzle::{Board, Dijkstra, Error, Euclidean, Frontier, Heuristic, Manhattan, MissPlaced};
use n_puzzle::{is_solvable, Move, OutOfRaw, Solver, State};

fn board(tiles: Vec<u8>, line_size: usize) -> Board {
    Board::new(tiles.into_boxed_slice(), line_size).unwrap()
}

#[test]
fn unmatching_sizes() {
    let board = Board::new(vec![1, 2, 3, 4, 5, 6, 7, 8, 0].into_boxed_slice(), 3).unwrap();
    let expected = Board::new(
        vec![1, 2, 3, 4, 5, 6, 7, 8, 9, 10, 11, 12, 13, 14, 15, 0].into_boxed_slice(),
        4,
    )
    .unwrap();

    let solver_result = Solver::new(board, expected);

    assert!(solver_result.is_err());

    assert_eq!(solver_result.unwrap_err(), Error::UnmatchingSizes);
}

#[test]
fn unsolvable_simple() {
    let board = Board::new(vec![1, 2, 3, 4, 5, 6, 7, 8, 0].into_boxed_slice(), 3).unwrap();
    let expected = Board::new(vec![1, 2, 3, 4, 5, 6, 8, 7, 0].into_boxed_slice(), 3).unwrap();

    let solver_result = Solver::new(board, expected);

    assert!(solver_result.is_err());

    assert_eq!(solver_result.unwrap_err(), Error::Unsolvable);
}

#[test]
fn unsolvable_medium() {
    let board = Board::new(vec![1, 2, 3, 4, 5, 6, 7, 8, 0].into_boxed_slice(), 3).unwrap();
    let expected = Board::new(vec![2, 1, 3, 5, 4, 6, 8, 7, 0].into_boxed_slice(), 3).unwrap();

    let solver_result = Solver::new(board, expected);

    assert!(solver_result.is_err());

    assert_eq!(solver_result.unwrap_err(), Error::Unsolvable);
}

#[test]
fn unsolvable_hard() {
    let board = Board::new(vec![1, 2, 3, 4, 5, 6, 7, 8, 0].into_boxed_slice(), 3).unwrap();
    let expected = Board::new(vec![2, 1, 5, 4, 3, 6, 8, 7, 0].into_boxed_slice(), 3).unwrap();

    let solver_result = Solver::new(board, expected);

    assert!(solver_result.is_err());

    assert_eq!(solver_result.unwrap_err(), Error::Unsolvable);
}

#[test]
fn solvable() {
    let board = Board::new(vec![1, 2, 3, 4, 5, 6, 7, 8, 0].into_boxed_slice(), 3).unwrap();
    let expected = Board::new(vec![1, 2, 3, 4, 5, 6, 0, 7, 8].into_boxed_slice(), 3).unwrap();

    let solver_result = Solver::new(board, expected);

    assert!(solver_result.is_ok());
}

#[test]
fn state_tree() {
    let board = Board::new(vec![1, 2, 3, 4, 0, 6, 7, 8, 5].into_boxed_slice(), 3).unwrap();
    let expected = Board::new(vec![1, 2, 3, 4, 5, 6, 0, 7, 8].into_boxed_slice(), 3).unwrap();
    let dijkstra = Dijkstra::new(&expected);

    let mut open_heap = Frontier::new();

    let parent = State { cost: 0, distance: 0, board: board, parent: None };

    let children = parent.children(&dijkstra);
    {
        {
            for child in children {
                open_heap.push(child);
            }
        }
        let parent = open_heap.pop().unwrap();
        let children = parent.children(&dijkstra);
        {
            for child in children {
                open_heap.push(child);
            }
        }
        open_heap.pop();
    }
}

#[test]
fn solver_3x3_manhattan() {
    let board = Board::new(vec![1, 2, 3, 4, 5, 6, 7, 8, 0].into_boxed_slice(), 3).unwrap();
    let expected = Board::new(vec![1, 2, 3, 0, 4, 6, 7, 5, 8].into_boxed_slice(), 3).unwrap();

    let solver = Solver::new(board, expected).unwrap();
    let result = solver.solve::<Manhattan>().unwrap();

    let expected_result = &[Move::Right, Move::Down, Move::Right];
    assert_eq!(&result.2, expected_result)
}

#[test]
fn solver_3x3_dijkstra() {
    let board = Board::new(vec![1, 2, 3, 4, 5, 6, 7, 8, 0].into_boxed_slice(), 3).unwrap();
    let expected = Board::new(vec![1, 2, 3, 0, 4, 6, 7, 5, 8].into_boxed_slice(), 3).unwrap();

    let solver = Solver::new(board, expected).unwrap();
    let result = solver.solve::<Dijkstra>().unwrap();

    let expected_result = &[Move::Right, Move::Down, Move::Right];
    assert_eq!(&result.2, expected_result)
}

#[test]
fn solver_3x3_euclidean() {
    let board = Board::new(vec![1, 2, 3, 4, 5, 6, 7, 8, 0].into_boxed_slice(), 3).unwrap();
    let expected = Board::new(vec![1, 2, 3, 0, 4, 6, 7, 5, 8].into_boxed_slice(), 3).unwrap();

    let solver = Solver::new(board, expected).unwrap();
    let result = solver.solve::<Euclidean>().unwrap();

    let expected_result = &[Move::Right, Move::Down, Move::Right];
    assert_eq!(&result.2, expected_result)
}

#[test]
fn solver_3x3_miss_placed() {
    let board = Board::new(vec![1, 2, 3, 4, 5, 6, 7, 8, 0].into_boxed_slice(), 3).unwrap();
    let expected = Board::new(vec![1, 2, 3, 0, 4, 6, 7, 5, 8].into_boxed_slice(), 3).unwrap();

    let solver = Solver::new(board, expected).unwrap();
    let result = solver.solve::<MissPlaced>().unwrap();

    let expected_result = &[Move::Right, Move::Down, Move::Right];
    assert_eq!(&result.2, expected_result)
}

#[test]
fn solver_3x3_out_of_raw() {
    let solver = Solver::new(
        board(vec![1, 2, 3, 4, 5, 6, 7, 8, 0], 3),
        board(vec![1, 2, 3, 0, 4, 6, 7, 5, 8], 3),
    )
    .unwrap();
    let (_, _, moves) = solver.solve::<OutOfRaw>().unwrap();
    assert_eq!(moves, vec![Move::Right, Move::Down, Move::Right]);
}

#[test]
fn two_steps_along_the_bottom_row() {
    let solver = Solver::new(
        board(vec![1, 2, 3, 4, 5, 6, 7, 8, 0], 3),
        board(vec![1, 2, 3, 4, 5, 6, 0, 7, 8], 3),
    )
    .unwrap();
    let (_, _, moves) = solver.solve::<Manhattan>().unwrap();
    assert_eq!(moves, vec![Move::Right, Move::Right]);
    let (_, _, moves) = solver.solve::<Dijkstra>().unwrap();
    assert_eq!(moves, vec![Move::Right, Move::Right]);
}

#[test]
fn dijkstra_pushes_at_least_as_many_nodes_as_manhattan() {
    let solver = Solver::new(
        board(vec![1, 2, 3, 4, 5, 6, 7, 8, 0], 3),
        board(vec![1, 2, 3, 0, 4, 6, 7, 5, 8], 3),
    )
    .unwrap();
    let (_, with_manhattan, _) = solver.solve::<Manhattan>().unwrap();
    let (_, with_dijkstra, _) = solver.solve::<Dijkstra>().unwrap();
    assert!(with_dijkstra >= with_manhattan);
}

#[test]
fn start_equal_to_target_needs_no_move() {
    let solver = Solver::new(
        board(vec![1, 2, 3, 4, 5, 6, 7, 8, 0], 3),
        board(vec![1, 2, 3, 4, 5, 6, 7, 8, 0], 3),
    )
    .unwrap();
    assert_eq!(solver.solve::<Manhattan>(), Ok((0, 0, vec![])));
}

#[test]
fn size_mismatch_is_reported_before_parity() {
    // the 3x3 pair alone would fail the parity test
    let start = board(vec![1, 2, 3, 4, 5, 6, 7, 8, 0], 3);
    let target = board(vec![2, 1, 3, 4, 5, 6, 7, 8, 9, 10, 11, 12, 13, 14, 15, 0], 4);
    assert_eq!(Solver::new(start, target).unwrap_err(), Error::UnmatchingSizes);
}

#[test]
fn moves_replayed_on_the_start_give_the_target() {
    let start = board(vec![8, 1, 3, 4, 0, 2, 7, 6, 5], 3);
    let target = board(vec![1, 2, 3, 4, 5, 6, 7, 8, 0], 3);
    let solver = Solver::new(start.clone(), target.clone()).unwrap();
    let (max_frontier, expansions, moves) = solver.solve::<Manhattan>().unwrap();
    let mut current = start;
    for m in moves.iter() {
        current = current.apply(*m).unwrap();
    }
    assert_eq!(current, target);
    assert!(moves.len() <= expansions);
    assert!(expansions <= max_frontier + expansions);
}

#[test]
fn admissible_estimates_agree_on_the_length() {
    let start = board(vec![8, 1, 3, 4, 0, 2, 7, 6, 5], 3);
    let target = board(vec![1, 2, 3, 4, 5, 6, 7, 8, 0], 3);
    let solver = Solver::new(start, target).unwrap();
    let dijkstra = solver.solve::<Dijkstra>().unwrap().2.len();
    assert_eq!(solver.solve::<Manhattan>().unwrap().2.len(), dijkstra);
    assert_eq!(solver.solve::<MissPlaced>().unwrap().2.len(), dijkstra);
    assert_eq!(solver.solve::<OutOfRaw>().unwrap().2.len(), dijkstra);
    assert_eq!(solver.solve::<Euclidean>().unwrap().2.len(), dijkstra);
}

#[test]
fn budget_of_zero_stops_at_the_first_push() {
    let solver = Solver::new(
        board(vec![1, 2, 3, 4, 5, 6, 7, 8, 0], 3),
        board(vec![1, 2, 3, 0, 4, 6, 7, 5, 8], 3),
    )
    .unwrap()
    .with_node_budget(0);
    assert_eq!(
        solver.solve::<Manhattan>(),
        Err(Error::BudgetExceeded { max_frontier: 0, expansions: 0 })
    );
}

#[test]
fn budget_too_small_reports_the_counters() {
    let solver = Solver::new(
        board(vec![1, 2, 3, 4, 5, 6, 7, 8, 0], 3),
        board(vec![1, 2, 3, 0, 4, 6, 7, 5, 8], 3),
    )
    .unwrap()
    .with_node_budget(3);
    match solver.solve::<Dijkstra>() {
        Err(Error::BudgetExceeded { expansions, .. }) => assert_eq!(expansions, 3),
        other => panic!("unexpected result {:?}", other),
    }
}

#[test]
fn budget_large_enough_changes_nothing() {
    let plain = Solver::new(
        board(vec![1, 2, 3, 4, 5, 6, 7, 8, 0], 3),
        board(vec![1, 2, 3, 0, 4, 6, 7, 5, 8], 3),
    )
    .unwrap();
    let unlimited = plain.solve::<Manhattan>().unwrap();
    let capped = plain.with_node_budget(unlimited.1).solve::<Manhattan>().unwrap();
    assert_eq!(capped, unlimited);
}

#[test]
fn four_by_four_is_solved() {
    let start = board(vec![1, 2, 3, 4, 5, 6, 7, 8, 9, 10, 11, 12, 13, 14, 0, 15], 4);
    let target = board(vec![1, 2, 3, 4, 5, 6, 7, 8, 9, 10, 11, 12, 13, 14, 15, 0], 4);
    let solver = Solver::new(start, target).unwrap();
    assert_eq!(solver.solve::<Manhattan>().unwrap().2, vec![Move::Left]);
}

#[test]
fn four_by_four_odd_permutation_is_unsolvable() {
    let start = board(vec![1, 2, 3, 4, 5, 6, 7, 8, 9, 10, 11, 12, 13, 15, 14, 0], 4);
    let target = board(vec![1, 2, 3, 4, 5, 6, 7, 8, 9, 10, 11, 12, 13, 14, 15, 0], 4);
    assert_eq!(Solver::new(start, target).unwrap_err(), Error::Unsolvable);
}

#[test]
fn error_descriptions() {
    assert_eq!(Error::UnmatchingSizes.description(), "sizes doesn't match");
    assert_eq!(Error::Unsolvable.description(), "puzzle is unsolvable");
    assert_eq!(Error::InvalidBoard.description(), "board is invalid");
    assert_eq!(Error::SearchExhausted.description(), "search exhausted the frontier");
    assert_eq!(
        Error::BudgetExceeded { max_frontier: 1, expansions: 2 }.description(),
        "node budget exceeded"
    );
}

#[test]
fn parity_test_gives_the_same_answer_both_ways() {
    let boards = [
        board(vec![1, 2, 3, 4, 5, 6, 7, 8, 0], 3),
        board(vec![1, 2, 3, 4, 5, 6, 8, 7, 0], 3),
        board(vec![8, 1, 3, 4, 0, 2, 7, 6, 5], 3),
        board(vec![0, 8, 7, 6, 5, 4, 3, 2, 1], 3),
    ];
    for a in boards.iter() {
        for b in boards.iter() {
            assert_eq!(is_solvable(a, b), is_solvable(b, a));
        }
        assert!(is_solvable(a, a));
    }
    assert!(is_solvable(&boards[0], &boards[2]));
    assert!(!is_solvable(&boards[0], &boards[1]));
}

#[test]
fn parity_on_an_even_side_counts_the_row_of_the_blank() {
    let sorted = board(vec![1, 2, 3, 4, 5, 6, 7, 8, 9, 10, 11, 12, 13, 14, 15, 0], 4);
    // one move up the grid: three inversions more, one row less
    let moved = board(vec![1, 2, 3, 4, 5, 6, 7, 8, 9, 10, 11, 0, 13, 14, 15, 12], 4);
    assert_eq!(moved.inversions(), 3);
    assert!(is_solvable(&sorted, &moved));
    assert!(is_solvable(&moved, &sorted));
    // the same tiles with the blank left where it was would not do
    let swapped = board(vec![1, 2, 3, 4, 5, 6, 7, 8, 9, 10, 11, 12, 13, 15, 14, 0], 4);
    assert!(!is_solvable(&sorted, &swapped));
    assert!(!is_solvable(&swapped, &sorted));
}

#[test]
fn getters_give_back_what_was_put_in() {
    let start = board(vec![1, 2, 3, 4, 5, 6, 7, 8, 0], 3);
    let target = board(vec![1, 2, 3, 0, 4, 6, 7, 5, 8], 3);
    let solver = Solver::new(start.clone(), target.clone()).unwrap();
    assert_eq!(solver.board(), &start);
    assert_eq!(solver.expected(), &target);
    assert_eq!(solver.node_budget(), None);
    let solver = solver.with_node_budget(12);
    assert_eq!(solver.board(), &start);
    assert_eq!(solver.expected(), &target);
    assert_eq!(solver.node_budget(), Some(12));
}

#[test]
fn a_longer_way_is_found_and_is_shortest() {
    // the hardest 3x3 instances need 31 moves
    let start = board(vec![8, 6, 7, 2, 5, 4, 3, 0, 1], 3);
    let target = board(vec![1, 2, 3, 4, 5, 6, 7, 8, 0], 3);
    let solver = Solver::new(start.clone(), target.clone()).unwrap();
    let (max_frontier, expansions, moves) = solver.solve::<Manhattan>().unwrap();
    assert_eq!(moves.len(), 31);
    assert!(max_frontier <= expansions);
    let mut current = start;
    for m in moves.iter() {
        current = current.apply(*m).unwrap();
    }
    assert_eq!(current, target);
}

#[test]
fn a_budget_for_all_ways_of_one_move_more_is_enough() {
    // three moves are needed; there are 4 + 16 + 64 + 256 ways of up to four moves
    let plain = Solver::new(
        board(vec![1, 2, 3, 4, 5, 6, 7, 8, 0], 3),
        board(vec![1, 2, 3, 0, 4, 6, 7, 5, 8], 3),
    )
    .unwrap()
    .with_node_budget(340);
    assert_eq!(plain.solve::<Dijkstra>().unwrap().2.len(), 3);
    assert_eq!(plain.solve::<Manhattan>().unwrap().2.len(), 3);
    assert_eq!(plain.solve::<MissPlaced>().unwrap().2.len(), 3);
    assert_eq!(plain.solve::<OutOfRaw>().unwrap().2.len(), 3);
    assert_eq!(plain.solve::<Euclidean>().unwrap().2.len(), 3);
}
