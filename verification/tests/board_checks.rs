use play2048::board::{
    board_has_adjacent_equal_pair, board_has_empty_cell, board_is_square, contains_target,
    no_valid_moves_left, row_contains, transpose_board,
};
use play2048::game::{board_status, Status};
use play2048::moves::{
    board_has_room, combine_bottom, combine_left, combine_right, combine_top,
};

#[test]
fn transpose_exchanges_rows_and_columns() {
    let mut board = vec![vec![1, 2, 3], vec![4, 5, 6], vec![7, 8, 9]];
    transpose_board(&mut board);
    assert_eq!(board, vec![vec![1, 4, 7], vec![2, 5, 8], vec![3, 6, 9]]);
}

#[test]
fn transpose_twice_gives_the_board_back() {
    let board = vec![
        vec![2, 0, 4, 0],
        vec![0, 8, 0, 2],
        vec![16, 0, 0, 0],
        vec![2, 2, 4, 4],
    ];
    let mut turned = board.clone();
    transpose_board(&mut turned);
    assert_ne!(turned, board);
    transpose_board(&mut turned);
    assert_eq!(turned, board);
}

#[test]
fn transpose_of_small_boards() {
    let mut none: Vec<Vec<usize>> = vec![];
    transpose_board(&mut none);
    assert_eq!(none, Vec::<Vec<usize>>::new());
    let mut one = vec![vec![8]];
    transpose_board(&mut one);
    assert_eq!(one, vec![vec![8]]);
}

#[test]
fn square_boards_are_told_from_others() {
    assert!(board_is_square(&vec![vec![0, 0], vec![0, 0]]));
    assert!(board_is_square(&vec![]));
    assert!(!board_is_square(&vec![vec![0, 0], vec![0]]));
    assert!(!board_is_square(&vec![vec![0, 0, 0]]));
}

#[test]
fn row_contains_finds_a_value() {
    assert!(row_contains(&vec![2, 4, 8], 8));
    assert!(row_contains(&vec![2, 0, 8], 0));
    assert!(!row_contains(&vec![2, 4, 8], 16));
    assert!(!row_contains(&vec![], 0));
}

#[test]
fn target_is_found_anywhere() {
    let board = vec![vec![2, 4], vec![8, 2048]];
    assert!(contains_target(&board, &2048));
    assert!(contains_target(&board, &2));
    assert!(!contains_target(&board, &16));
    assert!(!contains_target(&board, &0));
}

#[test]
fn empty_cell_is_found() {
    assert!(board_has_empty_cell(&vec![vec![2, 4], vec![0, 2]]));
    assert!(!board_has_empty_cell(&vec![vec![2, 4], vec![4, 2]]));
}

#[test]
fn equal_pair_is_found_from_its_upper_left_cell() {
    assert!(board_has_adjacent_equal_pair(&vec![vec![2, 2], vec![4, 8]]));
    assert!(board_has_adjacent_equal_pair(&vec![vec![2, 4], vec![2, 8]]));
    assert!(!board_has_adjacent_equal_pair(&vec![vec![2, 4], vec![4, 2]]));
}

#[test]
fn pair_in_the_last_row_or_column_is_not_looked_at() {
    // the two 8s lie in the last row, the two 16s in the last column
    assert!(!board_has_adjacent_equal_pair(&vec![vec![2, 4], vec![8, 8]]));
    assert!(!board_has_adjacent_equal_pair(&vec![vec![2, 16], vec![4, 16]]));
    let board = vec![vec![2, 4, 2], vec![4, 2, 4], vec![2, 8, 8]];
    assert!(!board_has_adjacent_equal_pair(&board));
    assert!(no_valid_moves_left(&board));
}

#[test]
fn board_with_an_empty_cell_has_moves() {
    assert!(!no_valid_moves_left(&vec![vec![2, 4], vec![4, 0]]));
}

#[test]
fn full_board_without_a_pair_has_no_moves() {
    let board = vec![
        vec![2, 4, 2, 4],
        vec![4, 2, 4, 2],
        vec![2, 4, 2, 4],
        vec![4, 2, 4, 2],
    ];
    assert!(no_valid_moves_left(&board));
    assert_eq!(board_status(&board, 2048), Status::Lost);
}

#[test]
fn full_board_with_a_pair_has_moves() {
    let board = vec![
        vec![2, 2, 8, 4],
        vec![4, 8, 4, 2],
        vec![2, 4, 2, 4],
        vec![4, 2, 4, 2],
    ];
    assert!(!no_valid_moves_left(&board));
    assert_eq!(board_status(&board, 2048), Status::Running);
}

#[test]
fn target_on_the_board_wins_whatever_else_is_there() {
    let dead = vec![
        vec![2, 4, 2, 4],
        vec![4, 2048, 4, 2],
        vec![2, 4, 2, 4],
        vec![4, 2, 4, 2],
    ];
    assert_eq!(board_status(&dead, 2048), Status::Won);
    let open = vec![vec![0, 0], vec![0, 16]];
    assert_eq!(board_status(&open, 16), Status::Won);
    assert_eq!(board_status(&open, 32), Status::Running);
}

#[test]
fn boards_of_one_cell_and_of_none() {
    assert!(no_valid_moves_left(&vec![vec![2]]));
    assert!(!no_valid_moves_left(&vec![vec![0]]));
    assert!(no_valid_moves_left(&vec![]));
}

#[test]
fn board_moves_to_the_left_and_to_the_right() {
    let board = vec![
        vec![2, 2, 2, 2],
        vec![2, 0, 2, 4],
        vec![0, 4, 0, 2],
        vec![0, 0, 0, 0],
    ];
    let mut left = board.clone();
    combine_left(&mut left);
    assert_eq!(
        left,
        vec![vec![4, 4, 0, 0], vec![4, 4, 0, 0], vec![4, 2, 0, 0], vec![0, 0, 0, 0]]
    );
    let mut right = board.clone();
    combine_right(&mut right);
    assert_eq!(
        right,
        vec![vec![0, 0, 4, 4], vec![0, 0, 4, 4], vec![0, 0, 4, 2], vec![0, 0, 0, 0]]
    );
}

#[test]
fn board_moves_to_the_top_and_to_the_bottom() {
    let board = vec![
        vec![2, 0, 0, 4],
        vec![2, 0, 8, 4],
        vec![2, 4, 0, 4],
        vec![2, 4, 0, 8],
    ];
    let mut top = board.clone();
    combine_top(&mut top);
    assert_eq!(
        top,
        vec![vec![4, 8, 8, 8], vec![4, 0, 0, 4], vec![0, 0, 0, 8], vec![0, 0, 0, 0]]
    );
    let mut bottom = board.clone();
    combine_bottom(&mut bottom);
    assert_eq!(
        bottom,
        vec![vec![0, 0, 0, 0], vec![0, 0, 0, 4], vec![4, 0, 0, 8], vec![4, 8, 8, 8]]
    );
}

#[test]
fn room_for_the_double_of_every_cell() {
    assert!(board_has_room(&vec![vec![2, 4], vec![0, usize::MAX / 2]]));
    assert!(!board_has_room(&vec![vec![2, 4], vec![0, usize::MAX / 2 + 1]]));
}
