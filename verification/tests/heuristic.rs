use n_puzzle::{index_positions, Board, Dijkstra, Euclidean, Heuristic, Manhattan, MissPlaced};
use n_puzzle::OutOfRaw;
use n_puzzle::heuristic::euclidean::root;

fn board(tiles: Vec<u8>, line_size: usize) -> Board {
    Board::new(tiles.into_boxed_slice(), line_size).unwrap()
}

fn target() -> Board {
    board(vec![1, 2, 3, 4, 5, 6, 7, 8, 0], 3)
}

#[test]
fn index_positions_gives_column_and_row_of_each_value() {
    let table = index_positions(&target());
    assert_eq!(
        table.to_vec(),
        vec![(2, 2), (0, 0), (1, 0), (2, 0), (0, 1), (1, 1), (2, 1), (0, 2), (1, 2)]
    );
    let other = index_positions(&board(vec![8, 1, 3, 4, 0, 2, 7, 6, 5], 3));
    assert_eq!(other[0], (1, 1));
    assert_eq!(other[8], (0, 0));
    assert_eq!(other[5], (2, 2));
}

#[test]
fn every_estimate_is_zero_at_the_target() {
    let t = target();
    assert_eq!(Dijkstra::new(&t).distance(&t), 0);
    assert_eq!(Manhattan::new(&t).distance(&t), 0);
    assert_eq!(MissPlaced::new(&t).distance(&t), 0);
    assert_eq!(Euclidean::new(&t).distance(&t), 0);
    assert_eq!(OutOfRaw::new(&t).distance(&t), 0);
}

#[test]
fn dijkstra_is_zero_everywhere() {
    let d = Dijkstra::new(&target());
    assert_eq!(d.distance(&board(vec![8, 7, 6, 5, 4, 3, 2, 1, 0], 3)), 0);
}

#[test]
fn the_blank_is_not_counted() {
    // one move from the target: the blank and the tile 8 have changed places
    let t = target();
    let one_off = board(vec![1, 2, 3, 4, 5, 6, 7, 0, 8], 3);
    assert_eq!(Manhattan::new(&t).distance(&one_off), 1);
    assert_eq!(MissPlaced::new(&t).distance(&one_off), 1);
    assert_eq!(Euclidean::new(&t).distance(&one_off), 1);
    assert_eq!(OutOfRaw::new(&t).distance(&one_off), 1);
}

#[test]
fn manhattan_adds_columns_and_rows() {
    let t = target();
    // 8 stands at (0, 0) and belongs at (1, 2): 3;  1: 1;  2 at (2, 1) belongs at (1, 0): 2;
    // 6 at (1, 2) belongs at (2, 1): 2;  5 at (2, 2) belongs at (1, 1): 2
    let b = board(vec![8, 1, 3, 4, 0, 2, 7, 6, 5], 3);
    assert_eq!(Manhattan::new(&t).distance(&b), 10);
    // 8 and 7: 3 each;  6, 5, 4 and 3: 1 each;  2 and 1: 3 each
    let reversed = board(vec![8, 7, 6, 5, 4, 3, 2, 1, 0], 3);
    assert_eq!(Manhattan::new(&t).distance(&reversed), 16);
}

#[test]
fn manhattan_takes_each_axis_by_itself() {
    // tile 3 stands at (0, 1) and belongs at (2, 0): two columns and one row, not one
    let t = target();
    let b = board(vec![1, 2, 0, 3, 5, 6, 7, 8, 4], 3);
    // 3: 2 + 1;  4 at (2, 2) belongs at (0, 1): 2 + 1
    assert_eq!(Manhattan::new(&t).distance(&b), 6);
}

#[test]
fn miss_placed_counts_tiles_out_of_place() {
    let t = target();
    let b = board(vec![8, 1, 3, 4, 0, 2, 7, 6, 5], 3);
    assert_eq!(MissPlaced::new(&t).distance(&b), 5);
    let reversed = board(vec![8, 7, 6, 5, 4, 3, 2, 1, 0], 3);
    assert_eq!(MissPlaced::new(&t).distance(&reversed), 8);
}

#[test]
fn euclidean_rounds_each_tile_down() {
    let t = target();
    // 8: sqrt(1 + 4) -> 2;  1: 1;  2: sqrt(2) -> 1;  6: sqrt(2) -> 1;  5: sqrt(2) -> 1
    let b = board(vec![8, 1, 3, 4, 0, 2, 7, 6, 5], 3);
    assert_eq!(Euclidean::new(&t).distance(&b), 6);
    // 8, 7, 2 and 1: sqrt(1 + 4) -> 2 each;  6, 5, 4 and 3: 1 each
    let reversed = board(vec![8, 7, 6, 5, 4, 3, 2, 1, 0], 3);
    assert_eq!(Euclidean::new(&t).distance(&reversed), 12);
}

#[test]
fn out_of_raw_counts_rows_and_columns() {
    let t = target();
    // 8: row and column;  1: column;  2: row and column;  6: both;  5: both
    let b = board(vec![8, 1, 3, 4, 0, 2, 7, 6, 5], 3);
    assert_eq!(OutOfRaw::new(&t).distance(&b), 9);
}

#[test]
fn estimates_on_a_four_by_four_board() {
    let t = board(vec![1, 2, 3, 4, 5, 6, 7, 8, 9, 10, 11, 12, 13, 14, 15, 0], 4);
    let b = board(vec![0, 2, 3, 4, 5, 6, 7, 8, 9, 10, 11, 12, 13, 14, 15, 1], 4);
    // tile 1 stands at (3, 3) and belongs at (0, 0)
    assert_eq!(Manhattan::new(&t).distance(&b), 6);
    assert_eq!(MissPlaced::new(&t).distance(&b), 1);
    assert_eq!(Euclidean::new(&t).distance(&b), 4);
    assert_eq!(OutOfRaw::new(&t).distance(&b), 2);
}

#[test]
fn an_estimate_falls_by_at_most_one_with_a_move() {
    let t = target();
    let manhattan = Manhattan::new(&t);
    let miss_placed = MissPlaced::new(&t);
    let euclidean = Euclidean::new(&t);
    let out_of_raw = OutOfRaw::new(&t);
    let b = board(vec![8, 1, 3, 4, 0, 2, 7, 6, 5], 3);
    for child in b.children().iter() {
        assert!(manhattan.distance(&b) <= manhattan.distance(child) + 1);
        assert!(miss_placed.distance(&b) <= miss_placed.distance(child) + 1);
        assert!(euclidean.distance(&b) <= euclidean.distance(child) + 1);
        assert!(out_of_raw.distance(&b) <= out_of_raw.distance(child) + 1);
    }
}

#[test]
fn square_roots_are_rounded_down() {
    assert_eq!(root(0), 0);
    assert_eq!(root(1), 1);
    assert_eq!(root(3), 1);
    assert_eq!(root(4), 2);
    assert_eq!(root(8), 2);
    assert_eq!(root(9), 3);
    assert_eq!(root(450), 21);
    assert_eq!(root(u32::MAX), 65535);
}
