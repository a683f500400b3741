use play2048::spawn::{add_2_or_4_at_random_location, create_board, place_tile, spawn_tile};
use play2048::tally::count_empty_cells;

fn tiles_on(board: &Vec<Vec<usize>>) -> usize {
    board.iter().flatten().filter(|cell| **cell != 0).count()
}

#[test]
fn empty_cells_are_counted() {
    assert_eq!(count_empty_cells(&vec![vec![0, 2], vec![4, 0]]), 2);
    assert_eq!(count_empty_cells(&vec![vec![8, 2], vec![4, 2]]), 0);
    assert_eq!(count_empty_cells(&vec![vec![0; 4]; 4]), 16);
    assert_eq!(count_empty_cells(&vec![]), 0);
}

#[test]
fn tile_goes_to_the_chosen_empty_cell() {
    let board = vec![vec![2, 0, 4], vec![0, 0, 8], vec![2, 2, 0]];
    let places = [(0, 1), (1, 0), (1, 1), (2, 2)];
    for pick in 0..4 {
        let mut changed = board.clone();
        let at = place_tile(&mut changed, pick, 16);
        assert_eq!(at, places[pick]);
        let mut expected = board.clone();
        expected[at.0][at.1] = 16;
        assert_eq!(changed, expected);
    }
}

#[test]
fn new_tile_is_a_2_for_a_zero_and_a_4_otherwise() {
    let board = vec![vec![0, 0], vec![0, 0]];
    let mut two = board.clone();
    assert_eq!(spawn_tile(&mut two, 3, 0), (1, 1));
    assert_eq!(two, vec![vec![0, 0], vec![0, 2]]);
    let mut four = board.clone();
    assert_eq!(spawn_tile(&mut four, 0, 1), (0, 0));
    assert_eq!(four, vec![vec![4, 0], vec![0, 0]]);
}

#[test]
fn last_empty_cell_can_be_filled() {
    let mut board = vec![vec![2, 4], vec![8, 0]];
    assert_eq!(spawn_tile(&mut board, 0, 0), (1, 1));
    assert_eq!(board, vec![vec![2, 4], vec![8, 2]]);
}

#[test]
fn random_tile_fills_one_empty_cell_with_a_2_or_a_4() {
    for _ in 0..200 {
        let board = vec![vec![2, 0, 4], vec![0, 8, 0], vec![16, 0, 2]];
        let mut changed = board.clone();
        add_2_or_4_at_random_location(&mut changed);
        let mut differing = 0;
        for i in 0..3 {
            for j in 0..3 {
                if changed[i][j] != board[i][j] {
                    differing += 1;
                    assert_eq!(board[i][j], 0);
                    assert!(changed[i][j] == 2 || changed[i][j] == 4);
                }
            }
        }
        assert_eq!(differing, 1);
    }
}

#[test]
fn random_tile_fills_the_only_empty_cell() {
    for _ in 0..50 {
        let mut board = vec![vec![2, 4], vec![0, 8]];
        add_2_or_4_at_random_location(&mut board);
        assert!(board[1][0] == 2 || board[1][0] == 4);
        assert_eq!(board[0], vec![2, 4]);
        assert_eq!(board[1][1], 8);
    }
}

#[test]
fn random_tiles_reach_every_empty_cell_and_both_values() {
    let mut seen_at = [false; 4];
    let mut seen_two = false;
    let mut seen_four = false;
    for _ in 0..2000 {
        let mut board = vec![vec![0, 0], vec![0, 0]];
        add_2_or_4_at_random_location(&mut board);
        for i in 0..2 {
            for j in 0..2 {
                if board[i][j] != 0 {
                    seen_at[2 * i + j] = true;
                    seen_two = seen_two || board[i][j] == 2;
                    seen_four = seen_four || board[i][j] == 4;
                }
            }
        }
    }
    assert_eq!(seen_at, [true; 4]);
    assert!(seen_two && seen_four);
}

#[test]
fn new_board_is_square_with_two_tiles() {
    for dimension in 2..7 {
        for _ in 0..20 {
            let board = create_board(dimension);
            assert_eq!(board.len(), dimension);
            for row in &board {
                assert_eq!(row.len(), dimension);
                for cell in row {
                    assert!(*cell == 0 || *cell == 2 || *cell == 4);
                }
            }
            assert_eq!(tiles_on(&board), 2);
        }
    }
}
