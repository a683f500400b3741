//! New tiles: putting a tile into an empty cell of a board, by choice and by
//! chance, and the board a game starts with.

use vstd::prelude::*;
use crate::board::{grid, has_empty_cell, is_square};
use crate::random::random_below;
use crate::tally::{
    blank_count, count_empty_cells, empty_before, empty_cells, lemma_blank_count_take,
    lemma_blank_grid_tiles, lemma_empty_before_grows, lemma_empty_before_le,
    lemma_empty_cells_bound, lemma_empty_cells_positive, lemma_with_tile_counts, tile_count,
    with_tile,
};

verus! {

/// The value of a new tile: 2 when the draw is 0, else 4.
pub open spec fn tile_for(coin: usize) -> nat {
    if coin == 0 {
        2
    } else {
        4
    }
}

/// Cell `(i, j)` is the empty cell with `pick` empty cells before it.
pub open spec fn is_pick(g: Seq<Seq<nat>>, i: int, j: int, pick: nat) -> bool {
    &&& 0 <= i < g.len()
    &&& 0 <= j < g[i].len()
    &&& g[i][j] == 0
    &&& empty_before(g, i, j) == pick
}

/// A draw picks one cell and no other.
pub proof fn lemma_pick_unique(g: Seq<Seq<nat>>, i: int, j: int, k: int, l: int, pick: nat)
    requires
        is_pick(g, i, j, pick),
        is_pick(g, k, l, pick),
    ensures
        i == k && j == l,
{
    if i < k || (i == k && j < l) {
        lemma_empty_before_grows(g, i, j, k, l);
    } else if k < i || (k == i && l < j) {
        lemma_empty_before_grows(g, k, l, i, j);
    }
}

/// Puts `value` into the empty cell that has `pick` empty cells before it,
/// reading the board row by row, and tells where that cell is.
pub fn place_tile(board: &mut Vec<Vec<usize>>, pick: usize, value: usize) -> (at: (usize, usize))
    requires
        pick < empty_cells(grid(old(board)@)),
    ensures
        is_pick(grid(old(board)@), at.0 as int, at.1 as int, pick as nat),
        grid(final(board)@) == with_tile(
            grid(old(board)@),
            at.0 as int,
            at.1 as int,
            value as nat,
        ),
{
    let ghost g = grid(board@);
    let mut seen: usize = 0;
    let mut i: usize = 0;
    proof {
        assert(g.take(0) =~= Seq::empty());
    }
    while i < board.len()
        invariant
            i <= board.len(),
            g == grid(board@),
            board@ == old(board)@,
            pick < empty_cells(g),
            seen == empty_cells(g.take(i as int)),
            seen <= pick,
        decreases board.len() - i,
    {
        let mut j: usize = 0;
        proof {
            assert(g[i as int].take(0) =~= Seq::empty());
            assert(blank_count(Seq::<nat>::empty()) == 0) by {
                reveal(Seq::filter);
            }
        }
        while j < board[i].len()
            invariant
                i < board.len(),
                j <= board[i as int].len(),
                g == grid(board@),
                board@ == old(board)@,
                pick < empty_cells(g),
                seen == empty_before(g, i as int, j as int),
                seen <= pick,
            decreases board[i as int].len() - j,
        {
            proof {
                lemma_blank_count_take(g[i as int], j as int);
                assert(g[i as int][j as int] == board[i as int][j as int]);
            }
            if board[i][j] == 0 {
                if seen == pick {
                    board[i][j] = value;
                    assert(grid(board@) =~~= with_tile(g, i as int, j as int, value as nat));
                    return (i, j);
                }
                seen += 1;
            }
            j += 1;
        }
        proof {
            lemma_empty_before_le(g, i as int, j as int);
        }
        i += 1;
    }
    proof {
        assert(g.take(i as int) =~= g);
    }
    (0, 0)
}

/// Cell `(i, j)` is the one that `pick` chooses in `before`, and `after` is
/// `before` with the tile that `coin` chooses in that cell.
pub open spec fn drawn_at(
    before: Seq<Seq<nat>>,
    after: Seq<Seq<nat>>,
    i: int,
    j: int,
    pick: nat,
    coin: usize,
) -> bool {
    is_pick(before, i, j, pick) && after == with_tile(before, i, j, tile_for(coin))
}

/// `after` is `before` with the tile that `coin` chooses in the cell that
/// `pick` chooses.
pub open spec fn drawn(before: Seq<Seq<nat>>, after: Seq<Seq<nat>>, pick: nat, coin: usize) -> bool {
    exists|i: int, j: int| drawn_at(before, after, i, j, pick, coin)
}

/// The same draws on the same grid give the same grid.
pub proof fn lemma_drawn_unique(
    before: Seq<Seq<nat>>,
    first: Seq<Seq<nat>>,
    second: Seq<Seq<nat>>,
    pick: nat,
    coin: usize,
)
    requires
        drawn(before, first, pick, coin),
        drawn(before, second, pick, coin),
    ensures
        first == second,
{
    let (i, j) = choose|i: int, j: int| drawn_at(before, first, i, j, pick, coin);
    let (k, l) = choose|k: int, l: int| drawn_at(before, second, k, l, pick, coin);
    lemma_pick_unique(before, i, j, k, l, pick);
}

/// Cell `(i, j)` is empty in `before` and holds a 2 or a 4 in `after`, and
/// nothing else has changed.
pub open spec fn spawned_at(before: Seq<Seq<nat>>, after: Seq<Seq<nat>>, i: int, j: int) -> bool {
    &&& 0 <= i < before.len()
    &&& 0 <= j < before[i].len()
    &&& before[i][j] == 0
    &&& after == with_tile(before, i, j, 2) || after == with_tile(before, i, j, 4)
}

/// One empty cell of `before` holds a 2 or a 4 in `after`, and nothing else
/// has changed.
pub open spec fn spawned(before: Seq<Seq<nat>>, after: Seq<Seq<nat>>) -> bool {
    exists|i: int, j: int| spawned_at(before, after, i, j)
}

/// A tile drawn is a tile put into an empty cell.
pub proof fn lemma_drawn_spawned(
    before: Seq<Seq<nat>>,
    after: Seq<Seq<nat>>,
    pick: nat,
    coin: usize,
)
    requires
        drawn(before, after, pick, coin),
    ensures
        spawned(before, after),
{
    let (i, j) = choose|i: int, j: int| drawn_at(before, after, i, j, pick, coin);
    assert(spawned_at(before, after, i, j));
}

/// Puts a new tile on the board for two draws: `pick` chooses among the empty
/// cells, read row by row, and `coin` chooses the value, 2 for a 0 and 4
/// otherwise. Tells where the tile went.
pub fn spawn_tile(board: &mut Vec<Vec<usize>>, pick: usize, coin: usize) -> (at: (usize, usize))
    requires
        pick < empty_cells(grid(old(board)@)),
    ensures
        is_pick(grid(old(board)@), at.0 as int, at.1 as int, pick as nat),
        grid(final(board)@) == with_tile(
            grid(old(board)@),
            at.0 as int,
            at.1 as int,
            tile_for(coin),
        ),
        drawn(grid(old(board)@), grid(final(board)@), pick as nat, coin),
{
    let value: usize = if coin == 0 { 2 } else { 4 };
    let at = place_tile(board, pick, value);
    proof {
        let g = grid(old(board)@);
        assert(value as nat == tile_for(coin));
        assert(drawn_at(g, grid(board@), at.0 as int, at.1 as int, pick as nat, coin));
    }
    at
}

/// Puts a 2 or a 4, each as likely as the other, into an empty cell of the
/// board, each empty cell as likely as the others.
pub fn add_2_or_4_at_random_location(board: &mut Vec<Vec<usize>>)
    requires
        has_empty_cell(grid(old(board)@)),
        empty_cells(grid(old(board)@)) <= usize::MAX,
    ensures
        spawned(grid(old(board)@), grid(final(board)@)),
{
    let coin = random_below(2);
    let empty = count_empty_cells(board);
    proof {
        lemma_empty_cells_positive(grid(board@));
    }
    let pick = random_below(empty);
    spawn_tile(board, pick, coin);
    proof {
        lemma_drawn_spawned(grid(old(board)@), grid(board@), pick as nat, coin);
    }
}

/// A grid as a new game starts with: two tiles, each a 2 or a 4, and empty
/// cells.
pub open spec fn is_seeded(g: Seq<Seq<nat>>) -> bool {
    &&& tile_count(g) == 2
    &&& forall|i: int, j: int|
        0 <= i < g.len() && 0 <= j < g[i].len() ==> #[trigger] g[i][j] == 0 || g[i][j] == 2
            || g[i][j] == 4
}

/// Makes a board of `dimension` rows and columns, empty but for two tiles put
/// at random.
pub fn create_board(dimension: usize) -> (board: Vec<Vec<usize>>)
    requires
        2 <= dimension,
        dimension * dimension <= usize::MAX,
    ensures
        grid(board@).len() == dimension,
        is_square(grid(board@)),
        is_seeded(grid(board@)),
{
    let mut board: Vec<Vec<usize>> = Vec::new();
    for r in 0..dimension
        invariant
            board.len() == r,
            forall|i: int| 0 <= i < r ==> (#[trigger] board[i]).len() == dimension,
            forall|i: int, j: int| 0 <= i < r && 0 <= j < dimension ==> #[trigger] board[i][j] == 0,
    {
        let mut row: Vec<usize> = Vec::new();
        for c in 0..dimension
            invariant
                row.len() == c,
                forall|j: int| 0 <= j < c ==> row[j] == 0,
        {
            row.push(0);
        }
        board.push(row);
    }
    let ghost blank = grid(board@);
    proof {
        assert(is_square(blank));
        lemma_blank_grid_tiles(blank);
        lemma_empty_cells_bound(blank, dimension as nat);
        assert(blank[0][0] == 0);
    }

    add_2_or_4_at_random_location(&mut board);
    let ghost first = grid(board@);
    proof {
        let (i, j) = choose|i: int, j: int| spawned_at(blank, first, i, j);
        assert(spawned_at(blank, first, i, j));
        lemma_with_tile_counts(blank, i, j, 2);
        lemma_with_tile_counts(blank, i, j, 4);
        assert(first[0][0] == 0 || first[0][1] == 0);
    }

    add_2_or_4_at_random_location(&mut board);
    proof {
        let second = grid(board@);
        let (i, j) = choose|i: int, j: int| spawned_at(first, second, i, j);
        assert(spawned_at(first, second, i, j));
        lemma_with_tile_counts(first, i, j, 2);
        lemma_with_tile_counts(first, i, j, 4);
    }
    board
}

} // verus!
