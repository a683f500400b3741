use play2048::row::{combine_array, mirror_combine, reverse_row};

fn left(cells: Vec<usize>) -> Vec<usize> {
    let mut row = cells;
    combine_array(&mut row);
    row
}

fn right(cells: Vec<usize>) -> Vec<usize> {
    let mut row = cells;
    mirror_combine(&mut row);
    row
}

#[test]
fn four_equal_tiles_merge_in_pairs() {
    assert_eq!(left(vec![2, 2, 2, 2]), vec![4, 4, 0, 0]);
}

#[test]
fn slide_then_merge() {
    assert_eq!(left(vec![2, 0, 2, 4]), vec![4, 4, 0, 0]);
}

#[test]
fn pure_slide() {
    assert_eq!(left(vec![0, 4, 0, 2]), vec![4, 2, 0, 0]);
}

#[test]
fn slide_of_any_value() {
    assert_eq!(left(vec![0, 0, 3, 0]), vec![3, 0, 0, 0]);
}

#[test]
fn merged_tile_does_not_merge_again() {
    assert_eq!(left(vec![2, 2, 4]), vec![4, 4, 0]);
    assert_eq!(left(vec![4, 2, 2]), vec![4, 4, 0]);
    assert_eq!(left(vec![4, 4, 8]), vec![8, 8, 0]);
}

#[test]
fn second_move_merges_what_the_first_left() {
    let once = left(vec![2, 2, 4]);
    assert_eq!(once, vec![4, 4, 0]);
    assert_eq!(left(once), vec![8, 0, 0]);
}

#[test]
fn settled_row_does_not_move_again() {
    let once = left(vec![2, 0, 2, 8, 0, 4]);
    assert_eq!(once, vec![4, 8, 4, 0, 0, 0]);
    assert_eq!(left(once.clone()), once);
}

#[test]
fn three_equal_tiles_merge_the_left_pair() {
    assert_eq!(left(vec![2, 2, 2]), vec![4, 2, 0]);
    assert_eq!(left(vec![2, 0, 2, 2]), vec![4, 2, 0, 0]);
    assert_eq!(left(vec![0, 2, 2, 2]), vec![4, 2, 0, 0]);
}

#[test]
fn five_equal_tiles() {
    assert_eq!(left(vec![2, 2, 2, 2, 2]), vec![4, 4, 2, 0, 0]);
    assert_eq!(left(vec![2, 2, 0, 2, 2, 2]), vec![4, 4, 2, 0, 0, 0]);
}

#[test]
fn gaps_between_tiles() {
    assert_eq!(left(vec![2, 0, 0, 2, 2]), vec![4, 2, 0, 0, 0]);
    assert_eq!(left(vec![2, 0, 2, 2, 0, 2, 2]), vec![4, 4, 2, 0, 0, 0, 0]);
    assert_eq!(left(vec![0, 0, 0, 0, 8]), vec![8, 0, 0, 0, 0]);
}

#[test]
fn unequal_tiles_only_slide() {
    assert_eq!(left(vec![2, 4, 2, 4]), vec![2, 4, 2, 4]);
    assert_eq!(left(vec![0, 2, 0, 4]), vec![2, 4, 0, 0]);
}

#[test]
fn empty_row_stays_empty() {
    assert_eq!(left(vec![0, 0, 0, 0]), vec![0, 0, 0, 0]);
}

#[test]
fn rows_of_no_and_of_one_cell() {
    assert_eq!(left(vec![]), Vec::<usize>::new());
    assert_eq!(left(vec![0]), vec![0]);
    assert_eq!(left(vec![16]), vec![16]);
}

#[test]
fn rows_of_two_cells() {
    assert_eq!(left(vec![0, 2]), vec![2, 0]);
    assert_eq!(left(vec![2, 2]), vec![4, 0]);
    assert_eq!(left(vec![2, 4]), vec![2, 4]);
}

#[test]
fn large_tiles_merge_when_the_double_fits() {
    let half = 1usize << (usize::BITS - 2);
    assert_eq!(left(vec![half, half]), vec![2 * half, 0]);
    let top = 1usize << (usize::BITS - 1);
    assert_eq!(left(vec![top, 0, 2]), vec![top, 2, 0]);
}

#[test]
fn move_to_the_right_is_the_mirror_of_the_move_to_the_left() {
    assert_eq!(right(vec![2, 2, 2, 2]), vec![0, 0, 4, 4]);
    assert_eq!(right(vec![4, 2, 0, 2]), vec![0, 0, 4, 4]);
    assert_eq!(right(vec![2, 0, 4, 0]), vec![0, 0, 2, 4]);
    assert_eq!(right(vec![2, 2, 2]), vec![0, 2, 4]);
    assert_eq!(right(vec![4, 2, 2]), vec![0, 4, 4]);
}

#[test]
fn move_to_the_right_by_hand() {
    let cells = vec![2, 2, 4, 0, 4];
    let mut by_hand = cells.clone();
    reverse_row(&mut by_hand);
    combine_array(&mut by_hand);
    reverse_row(&mut by_hand);
    assert_eq!(right(cells), by_hand);
    assert_eq!(by_hand, vec![0, 0, 0, 4, 8]);
}

#[test]
fn reverse_turns_a_row_round() {
    let mut row = vec![1, 2, 3, 4, 5];
    reverse_row(&mut row);
    assert_eq!(row, vec![5, 4, 3, 2, 1]);
    let mut even = vec![1, 2, 3, 4];
    reverse_row(&mut even);
    assert_eq!(even, vec![4, 3, 2, 1]);
    let mut none: Vec<usize> = vec![];
    reverse_row(&mut none);
    assert_eq!(none, Vec::<usize>::new());
}

#[test]
fn reverse_twice_gives_the_row_back() {
    let row = vec![2, 0, 4, 8, 0, 0, 16];
    let mut turned = row.clone();
    reverse_row(&mut turned);
    reverse_row(&mut turned);
    assert_eq!(turned, row);
}
