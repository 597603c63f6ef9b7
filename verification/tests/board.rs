use n_puzzle::board::tally;
use n_puzzle::{Board, Error, Move};

fn board(tiles: Vec<u8>, line_size: usize) -> Board {
    Board::new(tiles.into_boxed_slice(), line_size).unwrap()
}

fn tiles(b: &Board) -> Vec<u8> {
    b.data.to_vec()
}

#[test]
fn new_keeps_tiles_and_size() {
    let b = board(vec![1, 2, 3, 4, 5, 6, 7, 8, 0], 3);
    assert_eq!(tiles(&b), vec![1, 2, 3, 4, 5, 6, 7, 8, 0]);
    assert_eq!(b.line_size, 3);
}

#[test]
fn new_refuses_a_tile_twice() {
    let r = Board::new(vec![1, 2, 3, 4, 5, 6, 7, 7, 0].into_boxed_slice(), 3);
    assert_eq!(r.unwrap_err(), Error::InvalidBoard);
}

#[test]
fn new_refuses_a_tile_out_of_range() {
    let r = Board::new(vec![1, 2, 3, 4, 5, 6, 7, 9, 0].into_boxed_slice(), 3);
    assert_eq!(r.unwrap_err(), Error::InvalidBoard);
}

#[test]
fn new_refuses_a_wrong_count() {
    let r = Board::new(vec![1, 2, 3, 4, 5, 6, 7, 0].into_boxed_slice(), 3);
    assert_eq!(r.unwrap_err(), Error::InvalidBoard);
}

#[test]
fn new_refuses_a_side_below_three() {
    let r = Board::new(vec![1, 2, 3, 0].into_boxed_slice(), 2);
    assert_eq!(r.unwrap_err(), Error::InvalidBoard);
    let r = Board::new(vec![0].into_boxed_slice(), 1);
    assert_eq!(r.unwrap_err(), Error::InvalidBoard);
    let r = Board::new(Vec::new().into_boxed_slice(), 0);
    assert_eq!(r.unwrap_err(), Error::InvalidBoard);
}

#[test]
fn new_refuses_a_side_above_sixteen() {
    let data: Vec<u8> = (0..289).map(|v| (v % 256) as u8).collect();
    let r = Board::new(data.into_boxed_slice(), 17);
    assert_eq!(r.unwrap_err(), Error::InvalidBoard);
}

#[test]
fn new_takes_the_largest_board() {
    let data: Vec<u8> = (0..=255).collect();
    let b = Board::new(data.into_boxed_slice(), 16).unwrap();
    assert_eq!(b.blank_index(), 0);
    assert_eq!(b.children().len(), 2);
}

#[test]
fn clone_is_equal_and_separate() {
    let b = board(vec![1, 2, 3, 4, 0, 6, 7, 8, 5], 3);
    let c = b.clone();
    assert_eq!(b, c);
    assert!(b.same_tiles(&c));
    assert_eq!(tiles(&c), vec![1, 2, 3, 4, 0, 6, 7, 8, 5]);
}

#[test]
fn same_tiles_tells_boards_apart() {
    let a = board(vec![1, 2, 3, 4, 0, 6, 7, 8, 5], 3);
    let b = board(vec![1, 2, 3, 4, 5, 6, 7, 8, 0], 3);
    assert!(!a.same_tiles(&b));
    assert!(a.same_tiles(&a));
}

#[test]
fn inversions_of_the_sorted_board_are_none() {
    assert_eq!(board(vec![1, 2, 3, 4, 5, 6, 7, 8, 0], 3).inversions(), 0);
    assert_eq!(board(vec![0, 1, 2, 3, 4, 5, 6, 7, 8], 3).inversions(), 0);
}

#[test]
fn inversions_are_counted_without_the_blank() {
    assert_eq!(board(vec![1, 2, 3, 4, 5, 6, 8, 7, 0], 3).inversions(), 1);
    assert_eq!(board(vec![2, 1, 3, 5, 4, 6, 8, 7, 0], 3).inversions(), 3);
    assert_eq!(board(vec![8, 7, 6, 5, 4, 3, 2, 1, 0], 3).inversions(), 28);
    assert_eq!(board(vec![8, 7, 6, 5, 0, 4, 3, 2, 1], 3).inversions(), 28);
}

#[test]
fn children_of_the_centre_are_four_in_order() {
    let b = board(vec![1, 2, 3, 4, 0, 6, 7, 8, 5], 3);
    let children: Vec<Vec<u8>> = b.children().iter().map(tiles).collect();
    assert_eq!(
        children,
        vec![
            vec![1, 0, 3, 4, 2, 6, 7, 8, 5],
            vec![1, 2, 3, 4, 8, 6, 7, 0, 5],
            vec![1, 2, 3, 0, 4, 6, 7, 8, 5],
            vec![1, 2, 3, 4, 6, 0, 7, 8, 5],
        ]
    );
    // the parent is left as it was
    assert_eq!(tiles(&b), vec![1, 2, 3, 4, 0, 6, 7, 8, 5]);
}

#[test]
fn children_in_the_four_corners_are_two() {
    let top_left = board(vec![0, 1, 2, 3, 4, 5, 6, 7, 8], 3);
    let children: Vec<Vec<u8>> = top_left.children().iter().map(tiles).collect();
    assert_eq!(children, vec![vec![3, 1, 2, 0, 4, 5, 6, 7, 8], vec![1, 0, 2, 3, 4, 5, 6, 7, 8]]);

    let top_right = board(vec![1, 2, 0, 3, 4, 5, 6, 7, 8], 3);
    let children: Vec<Vec<u8>> = top_right.children().iter().map(tiles).collect();
    assert_eq!(children, vec![vec![1, 2, 5, 3, 4, 0, 6, 7, 8], vec![1, 0, 2, 3, 4, 5, 6, 7, 8]]);

    let bottom_left = board(vec![1, 2, 3, 4, 5, 6, 0, 7, 8], 3);
    let children: Vec<Vec<u8>> = bottom_left.children().iter().map(tiles).collect();
    assert_eq!(children, vec![vec![1, 2, 3, 0, 5, 6, 4, 7, 8], vec![1, 2, 3, 4, 5, 6, 7, 0, 8]]);

    let bottom_right = board(vec![1, 2, 3, 4, 5, 6, 7, 8, 0], 3);
    let children: Vec<Vec<u8>> = bottom_right.children().iter().map(tiles).collect();
    assert_eq!(children, vec![vec![1, 2, 3, 4, 5, 0, 7, 8, 6], vec![1, 2, 3, 4, 5, 6, 7, 0, 8]]);
}

#[test]
fn children_on_an_edge_are_three() {
    for zero in [1usize, 3, 5, 7] {
        let mut data: Vec<u8> = vec![1, 2, 3, 4, 5, 6, 7, 8];
        data.insert(zero, 0);
        assert_eq!(board(data, 3).children().len(), 3);
    }
}

#[test]
fn blank_in_the_first_column_of_the_second_row_moves_up() {
    // the blank stands at index 3 on a board of side 3
    let b = board(vec![1, 2, 3, 0, 4, 5, 6, 7, 8], 3);
    let children: Vec<Vec<u8>> = b.children().iter().map(tiles).collect();
    assert_eq!(children.len(), 3);
    assert_eq!(children[0], vec![0, 2, 3, 1, 4, 5, 6, 7, 8]);
}

#[test]
fn every_child_has_its_parent_among_its_children() {
    for zero in 0..9usize {
        let mut data: Vec<u8> = vec![1, 2, 3, 4, 5, 6, 7, 8];
        data.insert(zero, 0);
        let parent = board(data, 3);
        let children = parent.children();
        assert!(2 <= children.len() && children.len() <= 4);
        for child in children.iter() {
            assert!(child.children().iter().any(|again| *again == parent));
        }
    }
}

#[test]
fn apply_follows_the_names_of_the_moves() {
    let b = board(vec![1, 2, 3, 4, 0, 6, 7, 8, 5], 3);
    assert_eq!(tiles(&b.apply(Move::Up).unwrap()), vec![1, 2, 3, 4, 8, 6, 7, 0, 5]);
    assert_eq!(tiles(&b.apply(Move::Down).unwrap()), vec![1, 0, 3, 4, 2, 6, 7, 8, 5]);
    assert_eq!(tiles(&b.apply(Move::Left).unwrap()), vec![1, 2, 3, 4, 6, 0, 7, 8, 5]);
    assert_eq!(tiles(&b.apply(Move::Right).unwrap()), vec![1, 2, 3, 0, 4, 6, 7, 8, 5]);
}

#[test]
fn apply_refuses_to_leave_the_square() {
    let corner = board(vec![1, 2, 3, 4, 5, 6, 7, 8, 0], 3);
    assert!(corner.apply(Move::Up).is_none());
    assert!(corner.apply(Move::Left).is_none());
    assert!(corner.apply(Move::Down).is_some());
    assert!(corner.apply(Move::Right).is_some());
}

#[test]
fn move_new_names_the_step() {
    let parent = board(vec![1, 2, 3, 4, 0, 6, 7, 8, 5], 3);
    for m in [Move::Up, Move::Down, Move::Left, Move::Right] {
        let child = parent.apply(m).unwrap();
        assert_eq!(Move::new(&parent, &child), m);
        // and back again
        assert_eq!(
            Move::new(&child, &parent),
            match m {
                Move::Up => Move::Down,
                Move::Down => Move::Up,
                Move::Left => Move::Right,
                Move::Right => Move::Left,
            }
        );
    }
}

#[test]
fn fingerprint_goes_by_the_tiles() {
    let a = board(vec![1, 2, 3, 4, 0, 6, 7, 8, 5], 3);
    let b = board(vec![1, 2, 3, 4, 0, 6, 7, 8, 5], 3);
    assert_eq!(a.fingerprint(), b.fingerprint());
    // nibble i holds tile i; the ninth tile falls on the first nibble again
    assert_eq!(a.fingerprint(), 0x8760_4321 ^ 0x5);
    let c = board(vec![1, 2, 3, 4, 5, 6, 7, 8, 0], 3);
    assert_eq!(c.fingerprint(), 0x8765_4321);
}

#[test]
fn tally_marks_the_tiles_that_occur() {
    let seen = tally(&[2, 0, 1]).unwrap();
    assert_eq!(seen.len(), 256);
    assert!(seen[0] && seen[1] && seen[2]);
    assert!(seen[3..].iter().all(|s| !s));
    assert!(tally(&[]).unwrap().iter().all(|s| !s));
    assert!(tally(&[0, 0]).is_none());
    assert!(tally(&[0, 2]).is_none());
    assert!(tally(&[1]).is_none());
}
