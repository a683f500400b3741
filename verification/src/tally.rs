//! Counting: the empty cells and the tiles of a grid, and how the counts
//! change with one cell.

use vstd::prelude::*;
use crate::board::{grid, has_empty_cell};
use crate::row::tiles;

verus! {

/// The number of empty cells in a row.
pub open spec fn blank_count(row: Seq<nat>) -> nat {
    row.filter(|x: nat| x == 0).len()
}

/// The number of empty cells in a grid.
pub open spec fn empty_cells(g: Seq<Seq<nat>>) -> nat
    decreases g.len(),
{
    if g.len() == 0 {
        0
    } else {
        empty_cells(g.drop_last()) + blank_count(g.last())
    }
}

/// The number of tiles in a grid.
pub open spec fn tile_count(g: Seq<Seq<nat>>) -> nat
    decreases g.len(),
{
    if g.len() == 0 {
        0
    } else {
        tile_count(g.drop_last()) + tiles(g.last()).len()
    }
}

/// The number of empty cells that come before cell `(i, j)` when the grid is
/// read row by row.
pub open spec fn empty_before(g: Seq<Seq<nat>>, i: int, j: int) -> nat {
    empty_cells(g.take(i)) + blank_count(g[i].take(j))
}

/// The grid with the value `v` in cell `(i, j)`.
pub open spec fn with_tile(g: Seq<Seq<nat>>, i: int, j: int, v: nat) -> Seq<Seq<nat>> {
    g.update(i, g[i].update(j, v))
}

/// One cell further along a row, there is one more empty cell behind if
/// the cell passed is empty.
pub proof fn lemma_blank_count_take(row: Seq<nat>, j: int)
    requires
        0 <= j < row.len(),
    ensures
        blank_count(row.take(j + 1)) == blank_count(row.take(j)) + if row[j] == 0 {
            1nat
        } else {
            0nat
        },
{
    reveal(Seq::filter);
    assert(row.take(j + 1).drop_last() =~= row.take(j));
}

/// Further along a row there are no fewer empty cells behind.
pub proof fn lemma_blank_count_grows(row: Seq<nat>, a: int, b: int)
    requires
        0 <= a <= b <= row.len(),
    ensures
        blank_count(row.take(a)) <= blank_count(row.take(b)),
    decreases b - a,
{
    if a < b {
        lemma_blank_count_take(row, b - 1);
        lemma_blank_count_grows(row, a, b - 1);
    }
}

/// One row further down a grid, there are the empty cells of the row
/// passed more behind.
pub proof fn lemma_empty_cells_take(g: Seq<Seq<nat>>, i: int)
    requires
        0 <= i < g.len(),
    ensures
        empty_cells(g.take(i + 1)) == empty_cells(g.take(i)) + blank_count(g[i]),
{
    assert(g.take(i + 1).drop_last() =~= g.take(i));
}

/// The empty cells up to a place are no more than those of the whole grid.
pub proof fn lemma_empty_before_le(g: Seq<Seq<nat>>, i: int, j: int)
    requires
        0 <= i < g.len(),
        0 <= j <= g[i].len(),
    ensures
        empty_before(g, i, j) <= empty_cells(g.take(i + 1)) <= empty_cells(g),
        j == g[i].len() ==> empty_before(g, i, j) == empty_cells(g.take(i + 1)),
    decreases g.len() - i, g[i].len() - j,
{
    lemma_empty_cells_take(g, i);
    if j < g[i].len() {
        lemma_blank_count_take(g[i], j);
        lemma_empty_before_le(g, i, j + 1);
    } else {
        assert(g[i].take(j) =~= g[i]);
        if i + 1 < g.len() {
            assert(g[i + 1].take(0) =~= Seq::empty());
            assert(blank_count(Seq::<nat>::empty()) == 0) by {
                reveal(Seq::filter);
            }
            lemma_empty_before_le(g, i + 1, 0);
        } else {
            assert(g.take(i + 1) =~= g);
        }
    }
}

/// An empty cell has fewer empty cells before it than any cell that follows
/// it, reading the grid row by row.
pub proof fn lemma_empty_before_grows(g: Seq<Seq<nat>>, i: int, j: int, k: int, l: int)
    requires
        0 <= i < g.len(),
        0 <= j < g[i].len(),
        g[i][j] == 0,
        0 <= k < g.len(),
        0 <= l <= g[k].len(),
        i < k || (i == k && j < l),
    ensures
        empty_before(g, i, j) < empty_before(g, k, l),
{
    lemma_blank_count_take(g[i], j);
    if i == k {
        lemma_blank_count_grows(g[i], j + 1, l);
    } else {
        let upper = g.take(k);
        assert(upper.take(i) =~= g.take(i));
        assert(upper[i] == g[i]);
        lemma_empty_before_le(upper, i, j + 1);
    }
}

/// A grid with an empty cell counts at least one.
pub proof fn lemma_empty_cells_positive(g: Seq<Seq<nat>>)
    requires
        has_empty_cell(g),
    ensures
        empty_cells(g) > 0,
{
    let (i, j) = choose|i: int, j: int|
        0 <= i < g.len() && 0 <= j < g[i].len() && #[trigger] g[i][j] == 0;
    lemma_blank_count_take(g[i], j);
    lemma_empty_before_le(g, i, j + 1);
}

/// A grid has no more empty cells than rows times the longest row.
pub proof fn lemma_empty_cells_bound(g: Seq<Seq<nat>>, width: nat)
    requires
        forall|i: int| 0 <= i < g.len() ==> (#[trigger] g[i]).len() <= width,
    ensures
        empty_cells(g) <= g.len() * width,
    decreases g.len(),
{
    if g.len() > 0 {
        let rest = g.drop_last();
        assert forall|i: int| 0 <= i < rest.len() implies (#[trigger] rest[i]).len() <= width by {
            assert(rest[i] == g[i]);
        }
        lemma_empty_cells_bound(rest, width);
        g.last().lemma_filter_len(|x: nat| x == 0);
        assert(g.len() * width == rest.len() * width + width) by (nonlinear_arith)
            requires
                g.len() == rest.len() + 1,
        ;
    }
}

/// Changing one cell of a row changes its counts by that cell alone.
pub proof fn lemma_row_update_counts(row: Seq<nat>, j: int, v: nat)
    requires
        0 <= j < row.len(),
    ensures
        blank_count(row.update(j, v)) + (if row[j] == 0 { 1nat } else { 0nat }) == blank_count(row)
            + (if v == 0 { 1nat } else { 0nat }),
        tiles(row.update(j, v)).len() + (if row[j] != 0 { 1nat } else { 0nat }) == tiles(row).len()
            + (if v != 0 { 1nat } else { 0nat }),
    decreases row.len(),
{
    reveal(Seq::filter);
    let changed = row.update(j, v);
    if j == row.len() - 1 {
        assert(changed.drop_last() =~= row.drop_last());
    } else {
        assert(changed.drop_last() =~= row.drop_last().update(j, v));
        lemma_row_update_counts(row.drop_last(), j, v);
    }
}

/// Changing one row of a grid changes its counts by that row alone.
pub proof fn lemma_grid_update_counts(g: Seq<Seq<nat>>, i: int, row: Seq<nat>)
    requires
        0 <= i < g.len(),
    ensures
        empty_cells(g.update(i, row)) + blank_count(g[i]) == empty_cells(g) + blank_count(row),
        tile_count(g.update(i, row)) + tiles(g[i]).len() == tile_count(g) + tiles(row).len(),
    decreases g.len(),
{
    let changed = g.update(i, row);
    if i == g.len() - 1 {
        assert(changed.drop_last() =~= g.drop_last());
    } else {
        assert(changed.drop_last() =~= g.drop_last().update(i, row));
        lemma_grid_update_counts(g.drop_last(), i, row);
    }
}

/// A tile put into an empty cell: one empty cell less, one tile more.
pub proof fn lemma_with_tile_counts(g: Seq<Seq<nat>>, i: int, j: int, v: nat)
    requires
        0 <= i < g.len(),
        0 <= j < g[i].len(),
        g[i][j] == 0,
        v != 0,
    ensures
        empty_cells(with_tile(g, i, j, v)) + 1 == empty_cells(g),
        tile_count(with_tile(g, i, j, v)) == tile_count(g) + 1,
{
    lemma_row_update_counts(g[i], j, v);
    lemma_grid_update_counts(g, i, g[i].update(j, v));
}

/// A row of empty cells has no tiles.
pub proof fn lemma_blank_row_tiles(row: Seq<nat>)
    requires
        forall|k: int| 0 <= k < row.len() ==> row[k] == 0,
    ensures
        tiles(row).len() == 0,
{
    if tiles(row).len() > 0 {
        let x = tiles(row)[0];
        row.lemma_filter_pred(|x: nat| x != 0, 0);
        assert(tiles(row).contains(x));
        row.lemma_filter_contains_rev(|x: nat| x != 0, x);
    }
}

/// A grid of empty cells has no tiles.
pub proof fn lemma_blank_grid_tiles(g: Seq<Seq<nat>>)
    requires
        forall|i: int, j: int| 0 <= i < g.len() && 0 <= j < g[i].len() ==> g[i][j] == 0,
    ensures
        tile_count(g) == 0,
    decreases g.len(),
{
    if g.len() > 0 {
        lemma_blank_grid_tiles(g.drop_last());
        lemma_blank_row_tiles(g.last());
    }
}

/// Counts the empty cells of a board.
pub fn count_empty_cells(board: &Vec<Vec<usize>>) -> (count: usize)
    requires
        empty_cells(grid(board@)) <= usize::MAX,
    ensures
        count == empty_cells(grid(board@)),
{
    let ghost g = grid(board@);
    let mut count: usize = 0;
    let mut i: usize = 0;
    proof {
        assert(g.take(0) =~= Seq::empty());
    }
    while i < board.len()
        invariant
            i <= board.len(),
            g == grid(board@),
            empty_cells(g) <= usize::MAX,
            count == empty_cells(g.take(i as int)),
        decreases board.len() - i,
    {
        let mut j: usize = 0;
        proof {
            assert(g[i as int].take(0) =~= Seq::empty());
            assert(blank_count(Seq::<nat>::empty()) == 0) by {
                reveal(Seq::filter);
            }
        }
        while j < board[i].len()
            invariant
                i < board.len(),
                j <= board[i as int].len(),
                g == grid(board@),
                empty_cells(g) <= usize::MAX,
                count == empty_before(g, i as int, j as int),
            decreases board[i as int].len() - j,
        {
            proof {
                lemma_blank_count_take(g[i as int], j as int);
                lemma_empty_before_le(g, i as int, j + 1);
                assert(g[i as int][j as int] == board[i as int][j as int]);
            }
            if board[i][j] == 0 {
                count += 1;
            }
            j += 1;
        }
        proof {
            lemma_empty_before_le(g, i as int, j as int);
        }
        i += 1;
    }
    proof {
        assert(g.take(i as int) =~= g);
    }
    count
}

} // verus!
