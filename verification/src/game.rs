//! A game: one board and the value to reach, the four moves, the status, and
//! the step that follows a move.

use vstd::prelude::*;
use crate::board::{
    board_has_empty_cell, board_is_square, contains_target, contains_value, grid,
    has_adjacent_equal_pair, has_empty_cell, is_dead_end, is_square, no_valid_moves_left,
    transpose,
};
use crate::laws::lemma_moves_tiles;
use crate::moves::{
    all_cells, board_has_room, grid_fits, has_room, lemma_moved_square, lemma_moves_keep,
    lemma_room_fits, moved_down, moved_left, moved_right, moved_up,
};
use crate::power::{
    is_power_of_two, is_tile, is_valid_target, lemma_double_tile, power_of_two, target_is_valid,
};
use crate::spawn::{
    add_2_or_4_at_random_location, create_board, drawn, is_seeded, lemma_drawn_spawned,
    spawn_tile, spawned, spawned_at,
};
use crate::tally::{empty_cells, lemma_empty_cells_bound, lemma_with_tile_counts, tile_count};

verus! {

/// A game in progress.
pub struct Game {
    board: Vec<Vec<usize>>,
    target: usize,
}

/// How a game stands.
#[derive(Clone, Copy, Debug, PartialEq, Eq, Structural)]
pub enum Status {
    Won,
    Lost,
    Running,
}

/// The target is not a power of two, or is too small.
#[derive(Debug)]
pub struct InvalidTargetError {}

/// A tile was added and the board offers no move any more.
#[derive(Debug)]
pub struct NoValidMovesLeftError {}

impl InvalidTargetError {
    /// The error in words.
    pub fn message(&self) -> (text: String)
        ensures
            text@ == "target should be a positive power of 2"@,
    {
        "target should be a positive power of 2".to_owned()
    }
}

impl NoValidMovesLeftError {
    /// The error in words.
    pub fn message(&self) -> (text: String)
        ensures
            text@ == "No valid moves left"@,
    {
        "No valid moves left".to_owned()
    }
}

/// Every cell of the grid is empty or holds a tile: a power of two, 2 at
/// least.
pub open spec fn is_well_tiled(g: Seq<Seq<nat>>) -> bool {
    forall|i: int, j: int|
        0 <= i < g.len() && 0 <= j < g[i].len() ==> #[trigger] g[i][j] == 0 || is_tile(g[i][j])
}

/// How a game with this grid and this target stands: won as soon as the
/// target is on the grid, whatever else is; lost when the grid offers no
/// move; running otherwise.
pub open spec fn status_of(g: Seq<Seq<nat>>, target: nat) -> Status {
    if contains_value(g, target) {
        Status::Won
    } else if is_dead_end(g) {
        Status::Lost
    } else {
        Status::Running
    }
}

/// How a game with this board and this target stands.
pub fn board_status(board: &Vec<Vec<usize>>, target: usize) -> (status: Status)
    requires
        is_square(grid(board@)),
    ensures
        status == status_of(grid(board@), target as nat),
{
    if contains_target(board, &target) {
        return Status::Won;
    }
    if no_valid_moves_left(board) {
        return Status::Lost;
    }
    Status::Running
}

/// Starts a game on a board of `dimension` rows and columns, to be won by
/// reaching `target`. The board is empty but for two tiles put at random.
///
/// The target has to be a power of two, 8 at least. With such a target the
/// board needs room for the two tiles, and its cells must be countable.
pub fn new(dimension: usize, target: usize) -> (made: Result<Game, InvalidTargetError>)
    requires
        is_valid_target(target as nat) ==> 2 <= dimension && dimension * dimension <= usize::MAX,
    ensures
        made is Ok <==> is_valid_target(target as nat),
        made matches Ok(game) ==> {
            &&& game.wf()
            &&& game.goal() == target
            &&& game.grid().len() == dimension
            &&& is_seeded(game.grid())
        },
{
    if !target_is_valid(target) {
        return Err(InvalidTargetError {  });
    }
    let board = create_board(dimension);
    proof {
        lemma_seeded_tiles(grid(board@));
    }
    Ok(Game { board, target })
}

/// The tiles a game starts with are tiles.
pub proof fn lemma_seeded_tiles(g: Seq<Seq<nat>>)
    requires
        is_seeded(g),
    ensures
        is_well_tiled(g),
{
    reveal_with_fuel(is_power_of_two, 3);
    assert(is_tile(2) && is_tile(4));
}

impl Game {
    /// The grid of the game.
    pub closed spec fn grid(&self) -> Seq<Seq<nat>> {
        grid(self.board@)
    }

    /// The value to reach.
    pub closed spec fn goal(&self) -> nat {
        self.target as nat
    }

    /// What holds of every game: the grid is square, its cells can be
    /// counted and held in machine words, every tile is a power of two, and
    /// the target is one that a game may be played for.
    pub open spec fn wf(&self) -> bool {
        &&& is_square(self.grid())
        &&& self.grid().len() * self.grid().len() <= usize::MAX
        &&& grid_fits(self.grid())
        &&& is_well_tiled(self.grid())
        &&& is_valid_target(self.goal())
    }

    /// The board, row by row.
    pub fn board(&self) -> (board: &Vec<Vec<usize>>)
        ensures
            grid(board@) == self.grid(),
    {
        &self.board
    }

    /// The value to reach.
    pub fn target(&self) -> (target: usize)
        ensures
            target == self.goal(),
    {
        self.target
    }

    /// How the game stands.
    pub fn get_status(&self) -> (status: Status)
        requires
            self.wf(),
        ensures
            status == status_of(self.grid(), self.goal()),
    {
        board_status(&self.board, self.target)
    }

    /// Moves every row to the right.
    pub fn combine_right(&mut self)
        requires
            old(self).wf(),
            grid_fits(moved_right(old(self).grid())),
        ensures
            final(self).wf(),
            final(self).goal() == old(self).goal(),
            final(self).grid() == moved_right(old(self).grid()),
            tile_count(final(self).grid()) <= tile_count(old(self).grid()),
    {
        proof {
            self.lemma_moves_keep_wf();
            lemma_moves_tiles(self.grid());
        }
        crate::moves::combine_right(&mut self.board);
    }

    /// Moves every row to the left.
    pub fn combine_left(&mut self)
        requires
            old(self).wf(),
            grid_fits(moved_left(old(self).grid())),
        ensures
            final(self).wf(),
            final(self).goal() == old(self).goal(),
            final(self).grid() == moved_left(old(self).grid()),
            tile_count(final(self).grid()) <= tile_count(old(self).grid()),
    {
        proof {
            self.lemma_moves_keep_wf();
            lemma_moves_tiles(self.grid());
        }
        crate::moves::combine_left(&mut self.board);
    }

    /// Moves every column to the top.
    pub fn combine_top(&mut self)
        requires
            old(self).wf(),
            grid_fits(moved_up(old(self).grid())),
        ensures
            final(self).wf(),
            final(self).goal() == old(self).goal(),
            final(self).grid() == moved_up(old(self).grid()),
            tile_count(final(self).grid()) <= tile_count(old(self).grid()),
    {
        proof {
            self.lemma_moves_keep_wf();
            lemma_moves_tiles(self.grid());
        }
        crate::moves::combine_top(&mut self.board);
    }

    /// Moves every column to the bottom.
    pub fn combine_bottom(&mut self)
        requires
            old(self).wf(),
            grid_fits(moved_down(old(self).grid())),
        ensures
            final(self).wf(),
            final(self).goal() == old(self).goal(),
            final(self).grid() == moved_down(old(self).grid()),
            tile_count(final(self).grid()) <= tile_count(old(self).grid()),
    {
        proof {
            self.lemma_moves_keep_wf();
            lemma_moves_tiles(self.grid());
        }
        crate::moves::combine_bottom(&mut self.board);
    }

    /// Makes a game of a board and a target, if they are such as a game may
    /// have: the board square with cells that can be counted, every tile a
    /// power of two, the target a power of two and 8 at least.
    pub fn with_board(board: Vec<Vec<usize>>, target: usize) -> (made: Option<Game>)
        ensures
            made is Some <==> {
                &&& is_square(grid(board@))
                &&& board.len() * board.len() <= usize::MAX
                &&& is_well_tiled(grid(board@))
                &&& is_valid_target(target as nat)
            },
            made matches Some(game) ==> {
                &&& game.wf()
                &&& game.grid() == grid(board@)
                &&& game.goal() == target
            },
    {
        let dimension = board.len();
        if !target_is_valid(target) || dimension.checked_mul(dimension).is_none() {
            return None;
        }
        if !board_is_square(&board) || !board_is_well_tiled(&board) {
            return None;
        }
        Some(Game { board, target })
    }

    /// Whether each of the four moves can be made without a tile growing
    /// out of a machine word: whether the double of every cell can be held
    /// in one.
    pub fn has_room(&self) -> (yes: bool)
        requires
            self.wf(),
        ensures
            yes == has_room(self.grid()),
            yes ==> {
                &&& grid_fits(moved_left(self.grid()))
                &&& grid_fits(moved_right(self.grid()))
                &&& grid_fits(moved_up(self.grid()))
                &&& grid_fits(moved_down(self.grid()))
            },
    {
        let yes = board_has_room(&self.board);
        proof {
            if yes {
                lemma_room_fits(self.grid());
            }
        }
        yes
    }

    /// Whether some cell of the board is empty.
    pub fn has_empty_cell(&self) -> (found: bool)
        ensures
            found == has_empty_cell(self.grid()),
    {
        board_has_empty_cell(&self.board)
    }

    /// The step after a move: puts a 2 or a 4 into an empty cell chosen at
    /// random, then fails if the board offers no move any more.
    pub fn refresh(&mut self) -> (outcome: Result<(), NoValidMovesLeftError>)
        requires
            old(self).wf(),
            has_empty_cell(old(self).grid()),
        ensures
            final(self).wf(),
            final(self).goal() == old(self).goal(),
            spawned(old(self).grid(), final(self).grid()),
            tile_count(final(self).grid()) == tile_count(old(self).grid()) + 1,
            outcome is Err <==> is_dead_end(final(self).grid()),
    {
        let ghost before = self.grid();
        proof {
            lemma_empty_cells_bound(before, before.len());
        }
        add_2_or_4_at_random_location(&mut self.board);
        proof {
            lemma_spawned_keeps(before, self.grid());
        }
        if no_valid_moves_left(&self.board) {
            return Err(NoValidMovesLeftError {  });
        }
        Ok(())
    }

    /// The step after a move, for two draws made elsewhere: `pick` chooses
    /// among the empty cells, read row by row, and `coin` chooses the tile, a
    /// 2 for a 0 and a 4 otherwise. Fails if the board offers no move once
    /// the tile is there.
    pub fn refresh_with(&mut self, pick: usize, coin: usize) -> (outcome: Result<(), NoValidMovesLeftError>)
        requires
            old(self).wf(),
            pick < empty_cells(old(self).grid()),
        ensures
            final(self).wf(),
            final(self).goal() == old(self).goal(),
            drawn(old(self).grid(), final(self).grid(), pick as nat, coin),
            tile_count(final(self).grid()) == tile_count(old(self).grid()) + 1,
            outcome is Err <==> is_dead_end(final(self).grid()),
    {
        let ghost before = self.grid();
        spawn_tile(&mut self.board, pick, coin);
        proof {
            lemma_drawn_spawned(before, self.grid(), pick as nat, coin);
            lemma_spawned_keeps(before, self.grid());
        }
        if no_valid_moves_left(&self.board) {
            return Err(NoValidMovesLeftError {  });
        }
        Ok(())
    }

    /// Each of the four moves keeps what holds of every game.
    pub proof fn lemma_moves_keep_wf(self)
        requires
            self.wf(),
        ensures
            is_square(moved_left(self.grid())) && is_well_tiled(moved_left(self.grid())),
            is_square(moved_right(self.grid())) && is_well_tiled(moved_right(self.grid())),
            is_square(moved_up(self.grid())) && is_well_tiled(moved_up(self.grid())),
            is_square(moved_down(self.grid())) && is_well_tiled(moved_down(self.grid())),
    {
        let g = self.grid();
        let p = |v: nat| v == 0 || is_tile(v);
        assert forall|i: int, j: int|
            0 <= i < g.len() && 0 <= j < g[i].len() && g[i][j] != 0 implies p(#[trigger] g[i][j])
            && p(2 * g[i][j]) by {
            lemma_double_tile(g[i][j]);
        }
        lemma_moves_keep(g, p);
        lemma_moved_square(g);
        lemma_moved_square(transpose(g));
        lemma_moved_square(moved_left(transpose(g)));
        lemma_moved_square(moved_right(transpose(g)));
        assert(all_cells(moved_left(g), p));
        assert(all_cells(moved_right(g), p));
        assert(all_cells(moved_up(g), p));
        assert(all_cells(moved_down(g), p));
    }
}

/// Whether every cell of the board is empty or holds a tile.
pub fn board_is_well_tiled(board: &Vec<Vec<usize>>) -> (yes: bool)
    ensures
        yes == is_well_tiled(grid(board@)),
{
    let ghost g = grid(board@);
    let mut i: usize = 0;
    while i < board.len()
        invariant
            i <= board.len(),
            g == grid(board@),
            forall|r: int, c: int|
                0 <= r < i && 0 <= c < g[r].len() ==> #[trigger] g[r][c] == 0 || is_tile(g[r][c]),
        decreases board.len() - i,
    {
        let mut j: usize = 0;
        while j < board[i].len()
            invariant
                i < board.len(),
                j <= board[i as int].len(),
                g == grid(board@),
                forall|r: int, c: int|
                    0 <= r < i && 0 <= c < g[r].len() ==> #[trigger] g[r][c] == 0 || is_tile(
                        g[r][c],
                    ),
                forall|c: int| 0 <= c < j ==> #[trigger] g[i as int][c] == 0 || is_tile(g[i as int][c]),
            decreases board[i as int].len() - j,
        {
            let cell = board[i][j];
            assert(g[i as int][j as int] == cell);
            if cell != 0 && (cell < 2 || !power_of_two(cell)) {
                return false;
            }
            j += 1;
        }
        i += 1;
    }
    true
}

/// A game is won as soon as the target is on the grid, whatever the other
/// cells hold.
pub proof fn lemma_won_whatever_else(g: Seq<Seq<nat>>, target: nat)
    requires
        contains_value(g, target),
    ensures
        status_of(g, target) == Status::Won,
{
}

/// A game on a full grid without the target is lost when no cell outside the
/// last row and column equals its right or lower neighbour, and running when
/// one does.
pub proof fn lemma_full_grid_status(g: Seq<Seq<nat>>, target: nat)
    requires
        !has_empty_cell(g),
        !contains_value(g, target),
    ensures
        !has_adjacent_equal_pair(g) ==> status_of(g, target) == Status::Lost,
        has_adjacent_equal_pair(g) ==> status_of(g, target) == Status::Running,
{
}

/// A new tile keeps a square grid of tiles what it was, and is one tile
/// more.
pub proof fn lemma_spawned_keeps(before: Seq<Seq<nat>>, after: Seq<Seq<nat>>)
    requires
        spawned(before, after),
    ensures
        after.len() == before.len(),
        is_square(before) ==> is_square(after),
        is_well_tiled(before) ==> is_well_tiled(after),
        tile_count(after) == tile_count(before) + 1,
{
    let (i, j) = choose|i: int, j: int| spawned_at(before, after, i, j);
    assert(spawned_at(before, after, i, j));
    lemma_with_tile_counts(before, i, j, 2);
    lemma_with_tile_counts(before, i, j, 4);
    lemma_seeded_values();
}

/// 2 and 4 are tiles.
pub proof fn lemma_seeded_values()
    ensures
        is_tile(2),
        is_tile(4),
{
    reveal_with_fuel(is_power_of_two, 3);
}

} // verus!
