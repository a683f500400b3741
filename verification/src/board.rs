//! The square grid: its model, transposition, and the questions the game asks
//! of it.

use vstd::prelude::*;
use crate::row::cells;

verus! {

/// The grid held by a vector of rows, as natural numbers.
pub open spec fn grid(board: Seq<Vec<usize>>) -> Seq<Seq<nat>> {
    Seq::new(board.len(), |i: int| cells(board[i]@))
}

/// Every row is as long as the grid has rows.
pub open spec fn is_square(g: Seq<Seq<nat>>) -> bool {
    forall|i: int| 0 <= i < g.len() ==> (#[trigger] g[i]).len() == g.len()
}

/// The grid with rows and columns exchanged.
pub open spec fn transpose(g: Seq<Seq<nat>>) -> Seq<Seq<nat>> {
    Seq::new(g.len(), |i: int| Seq::new(g.len(), |j: int| g[j][i]))
}

/// Exchanges the rows and columns of a square board, in place.
pub fn transpose_board(board: &mut Vec<Vec<usize>>)
    requires
        is_square(grid(old(board)@)),
    ensures
        grid(final(board)@) == transpose(grid(old(board)@)),
{
    let board_clone = board.clone();
    let dimension = board.len();
    let ghost g = grid(board@);
    assert forall|r: int| 0 <= r < dimension implies cells((#[trigger] board_clone[r])@)
        == g[r] by {
        assert(g[r].len() == dimension);
        assert(board_clone[r]@ =~= board[r]@);
    }
    assert forall|r: int| 0 <= r < dimension implies (#[trigger] board[r]).len() == dimension by {
        assert(g[r].len() == dimension);
    }

    for i in 0..dimension
        invariant
            g.len() == dimension,
            is_square(g),
            board.len() == dimension,
            board_clone.len() == dimension,
            forall|r: int| 0 <= r < dimension ==> (#[trigger] board[r]).len() == dimension,
            forall|r: int| 0 <= r < dimension ==> cells((#[trigger] board_clone[r])@) == g[r],
            forall|r: int, c: int|
                0 <= r < i && 0 <= c < dimension ==> (#[trigger] board[r][c]) == g[c][r],
    {
        for j in 0..dimension
            invariant
                i < dimension,
                g.len() == dimension,
                is_square(g),
                board.len() == dimension,
                board_clone.len() == dimension,
                forall|r: int| 0 <= r < dimension ==> (#[trigger] board[r]).len() == dimension,
                forall|r: int| 0 <= r < dimension ==> cells((#[trigger] board_clone[r])@) == g[r],
                forall|r: int, c: int|
                    0 <= r < i && 0 <= c < dimension ==> (#[trigger] board[r][c]) == g[c][r],
                forall|c: int| 0 <= c < j ==> (#[trigger] board[i as int][c]) == g[c][i as int],
        {
            assert(cells(board_clone[j as int]@) == g[j as int]);
            assert(g[j as int].len() == dimension);
            assert(cells(board_clone[j as int]@)[i as int] == board_clone[j as int][i as int]);
            board[i][j] = board_clone[j][i];
        }
    }
    assert(grid(board@) =~~= transpose(g));
}

/// Whether every row of the board is as long as the board has rows.
pub fn board_is_square(board: &Vec<Vec<usize>>) -> (yes: bool)
    ensures
        yes == is_square(grid(board@)),
{
    let ghost g = grid(board@);
    let dimension = board.len();
    let mut i: usize = 0;
    while i < dimension
        invariant
            i <= dimension,
            dimension == board.len(),
            g == grid(board@),
            forall|r: int| 0 <= r < i ==> (#[trigger] g[r]).len() == dimension,
        decreases dimension - i,
    {
        if board[i].len() != dimension {
            assert(g[i as int].len() != g.len());
            return false;
        }
        i += 1;
    }
    true
}

/// Transposing a square grid twice gives the grid back.
pub proof fn lemma_transpose_involution(g: Seq<Seq<nat>>)
    requires
        is_square(g),
    ensures
        transpose(transpose(g)) == g,
{
    assert(transpose(transpose(g)) =~~= g);
}

/// Some cell of the grid holds `v`.
pub open spec fn contains_value(g: Seq<Seq<nat>>, v: nat) -> bool {
    exists|i: int, j: int| 0 <= i < g.len() && 0 <= j < g[i].len() && #[trigger] g[i][j] == v
}

/// Some cell of the grid is empty.
pub open spec fn has_empty_cell(g: Seq<Seq<nat>>) -> bool {
    contains_value(g, 0)
}

/// Some cell outside the last row and the last column equals its right or its
/// lower neighbour. Pairs that lie wholly in the last row or in the last
/// column are not looked at.
pub open spec fn has_adjacent_equal_pair(g: Seq<Seq<nat>>) -> bool {
    exists|i: int, j: int|
        0 <= i && i + 1 < g.len() && 0 <= j && j + 1 < g.len() && (#[trigger] g[i][j] == g[i][j + 1]
            || g[i][j] == g[i + 1][j])
}

/// The grid is full and shows no pair to merge.
pub open spec fn is_dead_end(g: Seq<Seq<nat>>) -> bool {
    !has_empty_cell(g) && !has_adjacent_equal_pair(g)
}

/// Whether a row holds `value`.
pub fn row_contains(row: &Vec<usize>, value: usize) -> (found: bool)
    ensures
        found == cells(row@).contains(value as nat),
{
    let mut j: usize = 0;
    while j < row.len()
        invariant
            j <= row.len(),
            forall|k: int| 0 <= k < j ==> cells(row@)[k] != value as nat,
        decreases row.len() - j,
    {
        if row[j] == value {
            assert(cells(row@)[j as int] == value as nat);
            return true;
        }
        j += 1;
    }
    false
}

/// Whether the board holds the target value in some cell.
pub fn contains_target(board: &Vec<Vec<usize>>, target: &usize) -> (found: bool)
    ensures
        found == contains_value(grid(board@), *target as nat),
{
    let ghost g = grid(board@);
    let mut i: usize = 0;
    while i < board.len()
        invariant
            i <= board.len(),
            g == grid(board@),
            forall|r: int, c: int| 0 <= r < i && 0 <= c < g[r].len() ==> #[trigger] g[r][c] != *target as nat,
        decreases board.len() - i,
    {
        if row_contains(&board[i], *target) {
            proof {
                let c = choose|c: int| 0 <= c < g[i as int].len() && g[i as int][c] == *target as nat;
                assert(g[i as int][c] == *target as nat);
            }
            return true;
        }
        assert forall|c: int| 0 <= c < g[i as int].len() implies #[trigger] g[i as int][c] != *target as nat by {
            if g[i as int][c] == *target as nat {
                assert(g[i as int].contains(g[i as int][c]));
            }
        }
        i += 1;
    }
    false
}

/// Whether some cell of the board is empty.
pub fn board_has_empty_cell(board: &Vec<Vec<usize>>) -> (found: bool)
    ensures
        found == has_empty_cell(grid(board@)),
{
    contains_target(board, &0)
}

/// Whether some cell outside the last row and column equals its right or its
/// lower neighbour.
pub fn board_has_adjacent_equal_pair(board: &Vec<Vec<usize>>) -> (found: bool)
    requires
        is_square(grid(board@)),
    ensures
        found == has_adjacent_equal_pair(grid(board@)),
{
    let ghost g = grid(board@);
    let dimension = board.len();
    let last = if dimension == 0 { 0 } else { dimension - 1 };
    assert forall|r: int| 0 <= r < dimension implies (#[trigger] board[r]).len() == dimension by {
        assert(g[r].len() == dimension);
    }
    for i in 0..last
        invariant
            g == grid(board@),
            dimension == board.len(),
            last == if dimension == 0 { 0 } else { dimension - 1 },
            forall|r: int| 0 <= r < dimension ==> (#[trigger] board[r]).len() == dimension,
            forall|r: int, c: int|
                0 <= r < i && 0 <= c && c + 1 < dimension ==> #[trigger] g[r][c] != g[r][c + 1]
                    && g[r][c] != g[r + 1][c],
    {
        for j in 0..last
            invariant
                i < last,
                g == grid(board@),
                dimension == board.len(),
                last == if dimension == 0 { 0 } else { dimension - 1 },
                forall|r: int| 0 <= r < dimension ==> (#[trigger] board[r]).len() == dimension,
                forall|r: int, c: int|
                    0 <= r < i && 0 <= c && c + 1 < dimension ==> #[trigger] g[r][c] != g[r][c + 1]
                        && g[r][c] != g[r + 1][c],
                forall|c: int|
                    0 <= c < j ==> #[trigger] g[i as int][c] != g[i as int][c + 1] && g[i as int][c]
                        != g[i + 1][c],
        {
            if board[i][j] == board[i][j + 1] || board[i][j] == board[i + 1][j] {
                assert(g[i as int][j as int] == g[i as int][j + 1] || g[i as int][j as int] == g[i
                    + 1][j as int]);
                return true;
            }
        }
    }
    false
}

/// Whether the board offers no move: no cell is empty and no pair to merge
/// is found.
pub fn no_valid_moves_left(board: &Vec<Vec<usize>>) -> (none: bool)
    requires
        is_square(grid(board@)),
    ensures
        none == is_dead_end(grid(board@)),
{
    if board_has_empty_cell(board) {
        return false;
    }
    !board_has_adjacent_equal_pair(board)
}

} // verus!
