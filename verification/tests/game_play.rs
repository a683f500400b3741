use play2048::power::{power_of_two, target_is_valid};
use play2048::{new, Game, InvalidTargetError, NoValidMovesLeftError, Status};

fn tiles_of(game: &Game) -> usize {
    game.board().iter().flatten().filter(|cell| **cell != 0).count()
}

fn game_on(board: Vec<Vec<usize>>, target: usize) -> Game {
    match Game::with_board(board, target) {
        Some(game) => game,
        None => panic!("not a board of a game"),
    }
}

#[test]
fn target_must_be_a_power_of_two() {
    assert!(matches!(new(4, 6), Err(InvalidTargetError {})));
    assert!(new(4, 2047).is_err());
    assert!(new(4, 24).is_err());
}

#[test]
fn target_must_be_8_at_least() {
    for target in 0..8 {
        assert!(new(4, target).is_err());
    }
    assert!(new(4, 8).is_ok());
    assert!(new(4, 16).is_ok());
}

#[test]
fn invalid_target_is_refused_whatever_the_dimension() {
    assert!(new(0, 6).is_err());
    assert!(new(1, 4).is_err());
}

#[test]
fn new_game_has_two_tiles_of_2_or_4() {
    for _ in 0..50 {
        let game = match new(4, 2048) {
            Ok(game) => game,
            Err(_) => panic!("2048 is a target"),
        };
        assert_eq!(game.target(), 2048);
        assert_eq!(game.board().len(), 4);
        let mut tiles = 0;
        for row in game.board() {
            assert_eq!(row.len(), 4);
            for cell in row {
                if *cell != 0 {
                    tiles += 1;
                    assert!(*cell == 2 || *cell == 4);
                }
            }
        }
        assert_eq!(tiles, 2);
        assert_eq!(game.get_status(), Status::Running);
    }
}

#[test]
fn powers_of_two_are_told_from_others() {
    assert!(power_of_two(1));
    assert!(power_of_two(2));
    assert!(power_of_two(1024));
    assert!(power_of_two(1usize << (usize::BITS - 1)));
    assert!(!power_of_two(0));
    assert!(!power_of_two(3));
    assert!(!power_of_two(6));
    assert!(!power_of_two(usize::MAX));
    assert!(target_is_valid(2048));
    assert!(!target_is_valid(4));
    assert!(!target_is_valid(12));
}

#[test]
fn errors_in_words() {
    assert_eq!(
        InvalidTargetError {}.message(),
        "target should be a positive power of 2"
    );
    assert_eq!(NoValidMovesLeftError {}.message(), "No valid moves left");
}

#[test]
fn game_is_made_of_a_board_only_if_it_is_one() {
    assert!(Game::with_board(vec![vec![2, 0], vec![0, 4]], 8).is_some());
    assert!(Game::with_board(vec![], 8).is_some());
    assert!(Game::with_board(vec![vec![2, 0], vec![0, 4]], 6).is_none());
    assert!(Game::with_board(vec![vec![2, 0], vec![0]], 8).is_none());
    assert!(Game::with_board(vec![vec![2, 0], vec![0, 3]], 8).is_none());
    assert!(Game::with_board(vec![vec![2, 0], vec![0, 1]], 8).is_none());
}

#[test]
fn game_with_the_target_on_the_board_is_won() {
    let game = game_on(vec![vec![2, 4], vec![16, 2]], 16);
    assert_eq!(game.get_status(), Status::Won);
    let open = game_on(vec![vec![0, 0], vec![16, 0]], 16);
    assert_eq!(open.get_status(), Status::Won);
}

#[test]
fn game_on_a_full_board_without_a_pair_is_lost() {
    let game = game_on(vec![vec![2, 4, 2], vec![4, 2, 4], vec![2, 4, 2]], 2048);
    assert_eq!(game.get_status(), Status::Lost);
}

#[test]
fn game_on_a_full_board_with_a_pair_is_running() {
    let game = game_on(vec![vec![2, 2, 8], vec![4, 8, 4], vec![2, 4, 2]], 2048);
    assert_eq!(game.get_status(), Status::Running);
}

#[test]
fn game_with_a_pair_in_the_last_row_only_is_lost() {
    let game = game_on(vec![vec![2, 4, 2], vec![4, 2, 4], vec![2, 8, 8]], 2048);
    assert_eq!(game.get_status(), Status::Lost);
}

#[test]
fn game_moves_in_the_four_directions() {
    let board = vec![
        vec![2, 0, 0, 2],
        vec![0, 4, 4, 0],
        vec![2, 0, 0, 0],
        vec![0, 0, 0, 8],
    ];
    let mut game = game_on(board.clone(), 2048);
    game.combine_left();
    assert_eq!(
        *game.board(),
        vec![vec![4, 0, 0, 0], vec![8, 0, 0, 0], vec![2, 0, 0, 0], vec![8, 0, 0, 0]]
    );
    let mut game = game_on(board.clone(), 2048);
    game.combine_right();
    assert_eq!(
        *game.board(),
        vec![vec![0, 0, 0, 4], vec![0, 0, 0, 8], vec![0, 0, 0, 2], vec![0, 0, 0, 8]]
    );
    let mut game = game_on(board.clone(), 2048);
    game.combine_top();
    assert_eq!(
        *game.board(),
        vec![vec![4, 4, 4, 2], vec![0, 0, 0, 8], vec![0, 0, 0, 0], vec![0, 0, 0, 0]]
    );
    let mut game = game_on(board.clone(), 2048);
    game.combine_bottom();
    assert_eq!(
        *game.board(),
        vec![vec![0, 0, 0, 0], vec![0, 0, 0, 0], vec![0, 0, 0, 2], vec![4, 4, 4, 8]]
    );
}

#[test]
fn move_without_effect_is_made_in_silence() {
    let board = vec![vec![2, 4], vec![4, 0]];
    let mut game = game_on(board.clone(), 8);
    game.combine_left();
    assert_eq!(*game.board(), board);
    game.combine_top();
    assert_eq!(*game.board(), board);
    assert_eq!(game.get_status(), Status::Running);
}

#[test]
fn move_reaches_the_target() {
    let mut game = game_on(vec![vec![4, 4], vec![0, 0]], 8);
    assert_eq!(game.get_status(), Status::Running);
    game.combine_right();
    assert_eq!(*game.board(), vec![vec![0, 8], vec![0, 0]]);
    assert_eq!(game.get_status(), Status::Won);
}

#[test]
fn moves_never_add_a_tile() {
    for _ in 0..20 {
        let mut game = match new(4, 2048) {
            Ok(game) => game,
            Err(_) => panic!("2048 is a target"),
        };
        for _ in 0..5 {
            let before = tiles_of(&game);
            game.combine_left();
            assert!(tiles_of(&game) <= before);
        }
        let before = tiles_of(&game);
        game.combine_top();
        game.combine_right();
        game.combine_bottom();
        assert!(tiles_of(&game) <= before);
        assert!(tiles_of(&game) >= 1);
    }
}

#[test]
fn refresh_adds_one_tile_until_it_fails() {
    let mut game = match new(4, 2048) {
        Ok(game) => game,
        Err(_) => panic!("2048 is a target"),
    };
    let mut calls = 0;
    while game.has_empty_cell() {
        let before = tiles_of(&game);
        let outcome = game.refresh();
        calls += 1;
        assert_eq!(tiles_of(&game), before + 1);
        if outcome.is_err() {
            assert_eq!(game.get_status(), Status::Lost);
            break;
        }
        assert_eq!(game.get_status(), Status::Running);
    }
    assert!(calls >= 1 && calls <= 14);
}

#[test]
fn refresh_fails_when_the_new_tile_ends_the_game() {
    // whichever tile comes, the middle cell has no equal neighbour that is looked at
    let mut game = game_on(vec![vec![8, 16, 8], vec![16, 0, 16], vec![8, 16, 8]], 2048);
    assert!(game.has_empty_cell());
    assert!(matches!(game.refresh(), Err(NoValidMovesLeftError {})));
    assert!(!game.has_empty_cell());
    let cell = game.board()[1][1];
    assert!(cell == 2 || cell == 4);
    assert_eq!(game.get_status(), Status::Lost);
}

#[test]
fn refresh_succeeds_while_a_move_is_left() {
    let mut game = game_on(vec![vec![8, 0], vec![0, 0]], 2048);
    assert!(game.refresh().is_ok());
    assert_eq!(tiles_of(&game), 2);
    assert_eq!(game.board()[0][0], 8);
}

#[test]
fn room_to_move_is_told() {
    let game = game_on(vec![vec![2, 4], vec![0, 8]], 16);
    assert!(game.has_room());
    let top = 1usize << (usize::BITS - 1);
    let tight = game_on(vec![vec![top, 4], vec![0, 8]], 16);
    assert!(!tight.has_room());
}

#[test]
fn refresh_with_chosen_draws_puts_the_chosen_tile() {
    let mut game = game_on(vec![vec![2, 0], vec![0, 4]], 8);
    assert!(game.refresh_with(1, 0).is_ok());
    assert_eq!(*game.board(), vec![vec![2, 0], vec![2, 4]]);
    assert!(game.refresh_with(0, 7).is_ok());
    assert_eq!(*game.board(), vec![vec![2, 4], vec![2, 4]]);
    assert!(!game.has_empty_cell());
    assert_eq!(game.get_status(), Status::Running);
}

#[test]
fn refresh_with_chosen_draws_fails_on_a_dead_end() {
    let mut game = game_on(vec![vec![2, 4], vec![4, 0]], 8);
    assert!(matches!(
        game.refresh_with(0, 0),
        Err(NoValidMovesLeftError {})
    ));
    assert_eq!(*game.board(), vec![vec![2, 4], vec![4, 2]]);
    assert_eq!(game.get_status(), Status::Lost);
}

#[test]
fn turn_by_turn_with_chosen_draws() {
    let mut game = game_on(vec![vec![2, 2, 0], vec![0, 4, 4], vec![0, 0, 0]], 16);
    game.combine_left();
    assert_eq!(
        *game.board(),
        vec![vec![4, 0, 0], vec![8, 0, 0], vec![0, 0, 0]]
    );
    assert_eq!(game.get_status(), Status::Running);
    assert!(game.refresh_with(6, 1).is_ok());
    assert_eq!(
        *game.board(),
        vec![vec![4, 0, 0], vec![8, 0, 0], vec![0, 0, 4]]
    );
    game.combine_bottom();
    assert_eq!(
        *game.board(),
        vec![vec![0, 0, 0], vec![4, 0, 0], vec![8, 0, 4]]
    );
    assert!(game.refresh_with(0, 0).is_ok());
    game.combine_right();
    assert_eq!(
        *game.board(),
        vec![vec![0, 0, 2], vec![0, 0, 4], vec![0, 8, 4]]
    );
    game.combine_top();
    assert_eq!(
        *game.board(),
        vec![vec![0, 8, 2], vec![0, 0, 8], vec![0, 0, 0]]
    );
    game.combine_right();
    game.combine_top();
    assert_eq!(
        *game.board(),
        vec![vec![0, 8, 2], vec![0, 0, 8], vec![0, 0, 0]]
    );
    assert_eq!(game.get_status(), Status::Running);
    game.combine_left();
    assert_eq!(
        *game.board(),
        vec![vec![8, 2, 0], vec![8, 0, 0], vec![0, 0, 0]]
    );
    game.combine_bottom();
    assert_eq!(
        *game.board(),
        vec![vec![0, 0, 0], vec![0, 0, 0], vec![16, 2, 0]]
    );
    assert_eq!(game.get_status(), Status::Won);
}
